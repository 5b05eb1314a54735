use tskv::file_utils::{make_delta_file_name, make_tsm_file_name, make_tsm_tombstone_file_name};
use tskv::kv_option::TseriesFamOpt;
use tskv::summary::CompactMeta;
use tskv::tseries_family::{ColumnFile, LevelInfo, TimeRange, Version};

fn meta(file_id: u64, file_size: u64, ts_min: i64, ts_max: i64, is_delta: bool) -> CompactMeta {
    CompactMeta { file_id, file_size, ts_min, ts_max, is_delta }
}

#[test]
fn overlap_is_symmetric() {
    let ranges = [
        TimeRange::new(10, 0),
        TimeRange::new(20, 10),
        TimeRange::new(9, 5),
        TimeRange::new(30, 21),
        TimeRange::new(i64::MAX, i64::MIN),
        TimeRange::new(0, 10),
    ];
    for a in &ranges {
        for b in &ranges {
            assert_eq!(a.overlaps(b), b.overlaps(a));
        }
    }
}

#[test]
fn overlap_takes_both_ends_in() {
    let a = TimeRange::new(10, 0);
    assert_eq!((a.max_ts, a.min_ts), (10, 0));
    assert!(a.overlaps(&TimeRange { min_ts: 10, max_ts: 20 }));
    assert!(a.overlaps(&TimeRange { min_ts: -5, max_ts: 0 }));
    assert!(a.overlaps(&TimeRange { min_ts: 3, max_ts: 4 }));
    assert!(a.overlaps(&TimeRange { min_ts: -100, max_ts: 100 }));
    assert!(!a.overlaps(&TimeRange { min_ts: 11, max_ts: 20 }));
    assert!(!a.overlaps(&TimeRange { min_ts: -5, max_ts: -1 }));
    let d = TimeRange::default();
    assert_eq!((d.max_ts, d.min_ts), (0, 0));
}

#[test]
fn apply_adds_a_file_and_widens_the_range() {
    let mut level = LevelInfo::init(2);
    assert_eq!(level.level(), 2);
    assert_eq!(level.cur_size(), 0);
    assert_eq!(level.max_size(), 0);
    assert!(level.files().is_empty());
    assert_eq!((level.ts_range().min_ts, level.ts_range().max_ts), (0, 0));
    level.apply(&meta(7, 100, 50, 90, false));
    level.apply(&meta(8, 30, -20, 10, true));
    level.apply(&meta(9, 5, 60, 70, false));
    assert_eq!(level.cur_size(), 135);
    assert_eq!((level.ts_range().min_ts, level.ts_range().max_ts), (-20, 90));
    let files = level.files();
    assert_eq!(files.len(), 3);
    assert_eq!(files[1].file_id(), 8);
    assert_eq!(files[1].size(), 30);
    assert_eq!((files[1].range().min_ts, files[1].range().max_ts), (-20, 10));
    assert!(files[1].is_delta());
    assert!(!files[1].is_deleted());
    assert!(!files[1].is_pending_compaction());
    assert_eq!(files[1].field_id_bloom_filter(), &[0_u8; 64]);
    assert!(files[0].overlap(&TimeRange { min_ts: 90, max_ts: 95 }));
    assert!(!files[0].overlap(&TimeRange { min_ts: 91, max_ts: 95 }));
}

#[test]
fn apply_extends_the_lower_bound_by_the_least_timestamp() {
    let mut level = LevelInfo::init(0);
    level.apply(&meta(1, 1, -10, -5, false));
    assert_eq!((level.ts_range().min_ts, level.ts_range().max_ts), (-10, 0));
    level.apply(&meta(2, 1, -30, 40, false));
    assert_eq!((level.ts_range().min_ts, level.ts_range().max_ts), (-30, 40));
}

#[test]
fn deleted_files_do_not_count() {
    let mut level = LevelInfo::init(1);
    level.apply(&meta(1, 10, 0, 9, false));
    level.apply(&meta(2, 20, 10, 19, false));
    level.apply(&meta(3, 40, 20, 29, false));
    level.mark_compaction(2);
    assert!(level.files()[1].is_pending_compaction());
    assert!(!level.files()[0].is_pending_compaction());
    assert_eq!(level.cur_size(), 70);
    level.mark_removed(2);
    assert_eq!(level.cur_size(), 50);
    assert!(level.files()[1].is_deleted());
    level.mark_removed(2);
    level.mark_removed(99);
    assert_eq!(level.cur_size(), 50);
    let live: u64 = level.files().iter().filter(|f| !f.is_deleted()).map(|f| f.size()).sum();
    assert_eq!(live, level.cur_size());
    assert_eq!(level.overlapping_files(&TimeRange { min_ts: 5, max_ts: 25 }), vec![0, 2]);
    assert_eq!(level.overlapping_files(&TimeRange { min_ts: 10, max_ts: 19 }), Vec::<usize>::new());
    assert_eq!(level.overlapping_files(&TimeRange { min_ts: 29, max_ts: 100 }), vec![2]);
}

#[test]
fn version_holds_what_it_was_given() {
    let v = Version::new(3, 9, "db".to_string(), vec![LevelInfo::init(0), LevelInfo::init(1)], 77);
    assert_eq!(v.id, 3);
    assert_eq!(v.last_seq, 9);
    assert_eq!(v.max_level_ts, 77);
    assert_eq!(v.get_name(), "db");
    assert_eq!(v.levels_info().len(), 2);
    assert_eq!(v.levels_info()[1].level(), 1);
    assert!(v.get_ts_overlap(0, 0, 100).is_empty());
}

#[test]
fn file_names() {
    assert_eq!(make_tsm_file_name("db/tsm", 1, 5), "db/tsm/1/_000005.tsm");
    assert_eq!(make_delta_file_name("db/delta", 42, 123456), "db/delta/42/_123456.delta");
    assert_eq!(make_tsm_tombstone_file_name("d", 0, 0), "d/0/_000000.tombstone");
    assert_eq!(make_tsm_file_name("", u32::MAX, 1234567), "/4294967295/_1234567.tsm");
    assert_eq!(
        make_tsm_file_name("x", 10, u64::MAX),
        "x/10/_18446744073709551615.tsm"
    );
}

#[test]
fn files_lie_under_the_directory_of_their_kind() {
    let opt = TseriesFamOpt {
        tsm_dir: "data/tsm".to_string(),
        delta_dir: "data/delta".to_string(),
        ..TseriesFamOpt::default()
    };
    assert_eq!(opt.max_memcache_size, 128 * 1024 * 1024);
    assert_eq!(opt.max_immemcache_num, 4);
    let mut level = LevelInfo::init(0);
    level.apply(&meta(7, 1, 0, 1, false));
    level.apply(&meta(8, 1, 0, 1, true));
    let files = level.files();
    assert_eq!(files[0].file_path(&opt, 3), "data/tsm/3/_000007.tsm");
    assert_eq!(files[1].file_path(&opt, 3), "data/delta/3/_000008.delta");
    assert_eq!(files[0].tombstone_file_path(&opt, 3), "data/tsm/3/_000007.tombstone");
    assert_eq!(files[1].tombstone_file_path(&opt, 3), "data/delta/3/_000008.tombstone");
    assert_eq!(level.tsf_opt().tsm_dir, "db/tsm");
    assert_eq!(level.tsf_opt().delta_dir, "db/delta");
}

#[test]
fn marks_on_a_file_are_final() {
    let mut f = ColumnFile::new(&meta(4, 12, -1, 1, true));
    assert_eq!(f.file_id(), 4);
    assert_eq!(f.size(), 12);
    assert!(f.is_delta());
    assert!(!f.is_deleted() && !f.is_pending_compaction());
    f.mark_compaction();
    assert!(!f.is_deleted() && f.is_pending_compaction());
    f.mark_removed();
    f.mark_compaction();
    f.mark_removed();
    assert!(f.is_deleted() && f.is_pending_compaction());
    assert_eq!((f.range().min_ts, f.range().max_ts), (-1, 1));
}
