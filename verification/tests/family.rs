use tskv::compaction::{enqueue, FlushReq};
use tskv::error::Error;
use tskv::kv_option::TseriesFamOpt;
use tskv::memcache::{DataType, MemCache};
use tskv::models::ValueType;
use tskv::tseries_family::{TimeRange, TseriesFamily, Version};

fn opts(max_memcache_size: u64, max_immemcache_num: usize) -> TseriesFamOpt {
    TseriesFamOpt { max_memcache_size, max_immemcache_num, ..TseriesFamOpt::default() }
}

fn family(max_memcache_size: u64, max_immemcache_num: usize, max_level_ts: i64) -> TseriesFamily {
    TseriesFamily::new(
        1,
        "db".to_string(),
        MemCache::new(1, max_memcache_size, 0, false),
        Version::new(0, 0, "db".to_string(), vec![], max_level_ts),
        opts(max_memcache_size, max_immemcache_num),
    )
}

fn put_f64(tsf: &mut TseriesFamily, fid: u64, seq: u64, ts: i64) -> Vec<FlushReq> {
    tsf.put_mutcache(fid, &(ts as f64).to_be_bytes(), ValueType::Float, seq, ts).unwrap()
}

fn stamps(cache: &MemCache, fid: u64) -> Vec<i64> {
    match cache.get(fid) {
        Some(e) => e.cells().iter().map(|c| c.timestamp()).collect(),
        None => vec![],
    }
}

fn count(cache: &MemCache) -> usize {
    cache.field_ids().iter().map(|f| cache.get(*f).unwrap().cells().len()).sum()
}

fn resident(tsf: &TseriesFamily) -> usize {
    count(tsf.cache()) + count(tsf.delta_cache()) + tsf.im_cache().iter().map(count).sum::<usize>()
}

fn flushed(reqs: &[FlushReq]) -> usize {
    reqs.iter().map(|r| r.mems.iter().map(|(_, c)| count(c)).sum::<usize>()).sum()
}

#[test]
fn test_tsf_delete() {
    let tcfg = TseriesFamOpt::default();
    let mut tsf = TseriesFamily::new(
        0,
        "db".to_string(),
        MemCache::new(0, 500, 0, false),
        Version::new(0, 0, "db".to_string(), vec![], 0),
        tcfg,
    );
    tsf.put_mutcache(0, 10_i64.to_be_bytes().as_slice(), ValueType::Integer, 0, 0).unwrap();
    assert_eq!(tsf.cache().get(0).unwrap().cells().len(), 1);
    tsf.delete_cache(&TimeRange { max_ts: 0, min_ts: 0 });
    assert_eq!(tsf.cache().get(0).unwrap().cells().len(), 0);
}

#[test]
fn a_buffer_that_is_too_short_is_refused() {
    let mut tsf = family(500, 4, 0);
    let r = tsf.put_mutcache(0, 10_i32.to_be_bytes().as_slice(), ValueType::Integer, 0, 0);
    assert!(matches!(r, Err(Error::DecodeErr)));
    assert!(tsf.cache().get(0).is_none());
    let r = tsf.put_mutcache(0, &[], ValueType::Unknown, 0, 0);
    assert!(matches!(r, Err(Error::UnsupportedType)));
    assert_eq!(tsf.mut_ts_max(), i64::MIN);
    assert_eq!(resident(&tsf), 0);
}

#[test]
fn a_new_family_starts_at_the_watermark_of_its_version() {
    let tsf = TseriesFamily::new(
        3,
        "db".to_string(),
        MemCache::new(3, 500, 0, false),
        Version::new(8, 17, "db".to_string(), vec![], 250),
        opts(64, 2),
    );
    assert_eq!(tsf.tf_id(), 3);
    assert_eq!(tsf.imut_ts_min(), 250);
    assert_eq!(tsf.mut_ts_max(), i64::MIN);
    assert_eq!(tsf.seq_no(), 17);
    assert_eq!(tsf.super_version_id(), 0);
    assert_eq!(tsf.cache().max_buf_size(), 500);
    assert_eq!(tsf.delta_cache().max_buf_size(), 64);
    assert_eq!(tsf.delta_cache().seq_no(), 17);
    assert!(tsf.delta_cache().is_delta());
    assert!(tsf.delta_cache().is_empty());
    assert!(tsf.im_cache().is_empty());
    assert_eq!(tsf.version().id, 8);
    assert_eq!(tsf.version().get_name(), "db");
    assert_eq!(tsf.opts().max_immemcache_num, 2);
}

#[test]
fn watermark_routing() {
    let mut tsf = family(1024, 4, i64::MIN);
    assert!(put_f64(&mut tsf, 1, 1, 100).is_empty());
    assert!(put_f64(&mut tsf, 1, 2, 90).is_empty());
    let reqs = put_f64(&mut tsf, 1, 3, 110);
    assert_eq!(stamps(tsf.cache(), 1), vec![100, 110]);
    assert_eq!(tsf.imut_ts_min(), 100);
    assert_eq!(tsf.mut_ts_max(), 110);
    assert_eq!(reqs.len(), 1);
    assert_eq!(reqs[0].mems.len(), 1);
    assert_eq!(stamps(&reqs[0].mems[0].1, 1), vec![90]);
}

#[test]
fn late_samples_wait_in_the_delta_cache() {
    let mut tsf = family(1024, 4, i64::MIN);
    put_f64(&mut tsf, 1, 1, 100);
    put_f64(&mut tsf, 1, 2, 90);
    put_f64(&mut tsf, 2, 3, 99);
    assert_eq!(stamps(tsf.cache(), 1), vec![100]);
    assert_eq!(stamps(tsf.delta_cache(), 1), vec![90]);
    assert_eq!(stamps(tsf.delta_cache(), 2), vec![99]);
    assert_eq!(tsf.imut_ts_min(), 100);
    assert_eq!(tsf.mut_ts_max(), 100);
    assert_eq!(tsf.cache().seq_no(), 1);
    assert_eq!(tsf.delta_cache().seq_no(), 3);
}

#[test]
fn rotation_by_size() {
    let mut tsf = family(64, 2, i64::MIN);
    let mut all: Vec<FlushReq> = Vec::new();
    let mut ts = 0;
    while all.is_empty() {
        ts += 1;
        let before = tsf.super_version_id();
        let reqs = put_f64(&mut tsf, 1, ts as u64, ts);
        if ts % 4 == 0 {
            assert!(tsf.super_version_id() > before);
            assert!(tsf.cache().is_empty());
        } else {
            assert_eq!(tsf.super_version_id(), before);
        }
        all.extend(reqs);
    }
    assert_eq!(ts, 8);
    assert_eq!(all.len(), 1);
    assert_eq!(all[0].wait_req, 0);
    assert_eq!(all[0].mems.len(), 2);
    assert_eq!(all[0].mems[0].0, 1);
    assert!(all[0].mems[0].1.is_immutable());
    assert_eq!(stamps(&all[0].mems[0].1, 1), vec![1, 2, 3, 4]);
    assert_eq!(stamps(&all[0].mems[1].1, 1), vec![5, 6, 7, 8]);
    assert!(tsf.im_cache().is_empty());
    assert!(tsf.cache().is_empty());
    assert!(!tsf.cache().is_immutable());
    assert_eq!(tsf.cache().max_buf_size(), 64);
    assert_eq!(tsf.mut_ts_max(), 8);
    assert_eq!(tsf.imut_ts_min(), 8);
    assert_eq!(tsf.version().max_level_ts, 8);
    assert_eq!(tsf.super_version_id(), 3);
    for ts in 9..=12 {
        all.extend(put_f64(&mut tsf, 1, ts as u64, ts));
    }
    assert_eq!(all.len(), 1);
    assert_eq!(tsf.im_cache().len(), 1);
    assert_eq!(tsf.super_version_id(), 4);
}

#[test]
fn rotation_freezes_the_old_cache_and_installs_a_fresh_one() {
    let mut tsf = family(1024, 4, i64::MIN);
    put_f64(&mut tsf, 1, 1, 30);
    put_f64(&mut tsf, 1, 2, 10);
    put_f64(&mut tsf, 1, 3, 20);
    let id0 = {
        let sv0 = tsf.super_version();
        assert_eq!(sv0.id, 1);
        assert_eq!(stamps(sv0.mut_cache, 1), vec![30]);
        assert_eq!(stamps(sv0.delta_mut_cache, 1), vec![10, 20]);
        assert!(sv0.immut_cache.is_empty());
        assert_eq!(sv0.cur_version.max_level_ts, i64::MIN);
        assert_eq!(sv0.opt.max_memcache_size, 1024);
        sv0.version_id
    };
    tsf.switch_to_immutable();
    let sv1 = tsf.super_version();
    assert!(sv1.version_id > id0);
    assert!(sv1.mut_cache.is_empty());
    assert!(!sv1.mut_cache.is_immutable());
    assert_eq!(sv1.immut_cache.len(), 1);
    assert!(sv1.immut_cache[0].is_immutable());
    assert_eq!(stamps(&sv1.immut_cache[0], 1), vec![30]);
    assert_eq!(stamps(sv1.delta_mut_cache, 1), vec![10, 20]);
}

#[test]
fn switch_memcache_installs_the_given_cache() {
    let mut tsf = family(1024, 4, 0);
    put_f64(&mut tsf, 1, 1, 5);
    tsf.switch_memcache(MemCache::new(1, 77, 9, false));
    assert_eq!(tsf.cache().max_buf_size(), 77);
    assert_eq!(tsf.cache().seq_no(), 9);
    assert_eq!(tsf.im_cache().len(), 1);
    assert_eq!(stamps(&tsf.im_cache()[0], 1), vec![5]);
    assert_eq!(tsf.super_version_id(), 1);
}

#[test]
fn delta_flush_on_in_order_arrival() {
    let mut tsf = family(1024, 4, 50);
    assert!(put_f64(&mut tsf, 1, 1, 40).is_empty());
    assert_eq!(stamps(tsf.delta_cache(), 1), vec![40]);
    let reqs = put_f64(&mut tsf, 1, 2, 60);
    assert_eq!(reqs.len(), 1);
    assert_eq!(reqs[0].wait_req, 0);
    assert_eq!(reqs[0].mems.len(), 1);
    assert_eq!(reqs[0].mems[0].0, 1);
    assert!(reqs[0].mems[0].1.is_delta());
    assert_eq!(stamps(&reqs[0].mems[0].1, 1), vec![40]);
    assert!(tsf.delta_cache().is_empty());
    assert!(tsf.delta_cache().is_delta());
    assert_eq!(tsf.delta_cache().cache_size(), 0);
    assert_eq!(stamps(tsf.cache(), 1), vec![60]);
    assert_eq!(tsf.super_version_id(), 1);
    assert!(put_f64(&mut tsf, 1, 3, 70).is_empty());
}

#[test]
fn a_full_delta_cache_is_handed_over() {
    let mut tsf = family(32, 4, 50);
    assert!(put_f64(&mut tsf, 1, 1, 10).is_empty());
    let reqs = put_f64(&mut tsf, 1, 2, 5);
    assert_eq!(reqs.len(), 1);
    assert_eq!(stamps(&reqs[0].mems[0].1, 1), vec![10, 5]);
    assert!(!reqs[0].mems[0].1.is_immutable());
    assert!(tsf.delta_cache().is_empty());
    assert_eq!(tsf.imut_ts_min(), 50);
}

#[test]
fn explicit_flush_requests() {
    let mut tsf = family(1024, 4, 50);
    put_f64(&mut tsf, 1, 1, 60);
    put_f64(&mut tsf, 2, 2, 10);
    tsf.switch_to_immutable();
    put_f64(&mut tsf, 1, 3, 70);
    tsf.switch_to_immutable();
    let req = tsf.wrap_flush_req();
    assert_eq!(req.mems.len(), 2);
    assert_eq!(stamps(&req.mems[0].1, 1), vec![60]);
    assert_eq!(stamps(&req.mems[1].1, 1), vec![70]);
    assert!(tsf.im_cache().is_empty());
    let req = tsf.wrap_delta_flush_req();
    assert_eq!(req.mems.len(), 1);
    assert!(req.mems[0].1.is_empty());
    assert_eq!(tsf.super_version_id(), 5);
}

#[test]
fn the_watermark_never_moves_backward() {
    let mut tsf = family(48, 1, 20);
    let mut x: u64 = 7;
    let mut last = tsf.imut_ts_min();
    for seq in 0..400_u64 {
        x = x.wrapping_mul(6364136223846793005).wrapping_add(1442695040888963407);
        let ts = 20 + (x >> 33) as i64 % 200;
        put_f64(&mut tsf, x % 3, seq, ts);
        assert!(tsf.imut_ts_min() >= last);
        last = tsf.imut_ts_min();
    }
    assert!(last > 20);
}

#[test]
fn samples_are_neither_lost_nor_made_up() {
    let mut tsf = family(80, 2, 100);
    let mut x: u64 = 11;
    let mut out = 0;
    let mut taken = 0;
    for seq in 0..1000_u64 {
        x = x.wrapping_mul(6364136223846793005).wrapping_add(1442695040888963407);
        let ts = (x >> 33) as i64 % 400;
        let dtype = if x % 7 == 0 { ValueType::Unknown } else { ValueType::Float };
        match tsf.put_mutcache(x % 5, &(ts as f64).to_be_bytes(), dtype, seq, ts) {
            Ok(reqs) => {
                taken += 1;
                out += flushed(&reqs);
            },
            Err(e) => assert_eq!(e, Error::UnsupportedType),
        }
        assert_eq!(resident(&tsf) + out, taken);
    }
    assert!(out > 0);
    assert!(taken < 1000);
}

#[test]
fn delete_cache_reaches_every_cache() {
    let mut tsf = family(1024, 4, 50);
    for (seq, ts) in [60_i64, 70, 80].iter().enumerate() {
        put_f64(&mut tsf, 1, seq as u64, *ts);
    }
    tsf.switch_to_immutable();
    for (seq, ts) in [65_i64, 75, 85].iter().enumerate() {
        put_f64(&mut tsf, 1, seq as u64, *ts);
    }
    put_f64(&mut tsf, 1, 9, 10);
    put_f64(&mut tsf, 1, 10, 20);
    let r = TimeRange { min_ts: 20, max_ts: 75 };
    tsf.delete_cache(&r);
    assert_eq!(stamps(tsf.cache(), 1), vec![85]);
    assert_eq!(stamps(tsf.delta_cache(), 1), vec![10]);
    assert_eq!(stamps(&tsf.im_cache()[0], 1), vec![80]);
    tsf.delete_cache(&r);
    assert_eq!(stamps(tsf.cache(), 1), vec![85]);
    assert_eq!(stamps(tsf.delta_cache(), 1), vec![10]);
    assert_eq!(stamps(&tsf.im_cache()[0], 1), vec![80]);
    assert_eq!(tsf.imut_ts_min(), 50);
}

#[test]
fn a_put_that_type_clashes_changes_nothing() {
    let mut tsf = family(1024, 4, 0);
    put_f64(&mut tsf, 1, 1, 5);
    let r = tsf.put_mutcache(1, &7_u64.to_be_bytes(), ValueType::Unsigned, 2, 9);
    assert!(matches!(r, Err(Error::UnsupportedType)));
    assert_eq!(tsf.mut_ts_max(), 5);
    assert_eq!(tsf.cache().seq_no(), 1);
    assert_eq!(stamps(tsf.cache(), 1), vec![5]);
    match &tsf.cache().get(1).unwrap().cells()[0] {
        DataType::F64(c) => assert_eq!(f64::from_bits(c.val), 5.0),
        other => panic!("{:?}", other),
    }
}

#[test]
fn a_flush_before_any_sample_in_order_leaves_the_watermark() {
    let mut tsf = family(0, 1, 100);
    let reqs = put_f64(&mut tsf, 1, 1, 50);
    assert_eq!(reqs.len(), 2);
    assert_eq!(reqs[0].mems.len(), 1);
    assert!(reqs[0].mems[0].1.is_immutable());
    assert!(reqs[0].mems[0].1.is_empty());
    assert_eq!(stamps(&reqs[1].mems[0].1, 1), vec![50]);
    assert_eq!(tsf.mut_ts_max(), i64::MIN);
    assert_eq!(tsf.imut_ts_min(), 100);
    assert_eq!(tsf.version().max_level_ts, 100);
    assert_eq!(tsf.super_version_id(), 3);
}

#[test]
fn a_late_sample_that_meets_a_full_cache_leaves_the_watermark() {
    let mut cache = MemCache::new(1, 16, 0, false);
    cache.insert_raw(0, 1, 200, ValueType::Float, &1.0_f64.to_be_bytes()).unwrap();
    assert!(cache.is_full());
    let mut tsf = TseriesFamily::new(
        1,
        "db".to_string(),
        cache,
        Version::new(0, 0, "db".to_string(), vec![], 100),
        opts(1024, 1),
    );
    let reqs = put_f64(&mut tsf, 1, 1, 50);
    assert_eq!(reqs.len(), 1);
    assert_eq!(stamps(&reqs[0].mems[0].1, 1), vec![200]);
    assert_eq!(stamps(tsf.delta_cache(), 1), vec![50]);
    assert_eq!(tsf.imut_ts_min(), 100);
    assert_eq!(tsf.version().max_level_ts, 100);
    assert_eq!(tsf.mut_ts_max(), i64::MIN);
}

#[test]
fn the_version_follows_the_watermark_forward_only() {
    let mut tsf = family(16, 1, 100);
    put_f64(&mut tsf, 1, 1, 150);
    assert_eq!((tsf.imut_ts_min(), tsf.version().max_level_ts), (150, 150));
    put_f64(&mut tsf, 1, 2, 150);
    put_f64(&mut tsf, 1, 3, 120);
    assert_eq!((tsf.imut_ts_min(), tsf.version().max_level_ts), (150, 150));
    put_f64(&mut tsf, 1, 4, 170);
    assert_eq!((tsf.imut_ts_min(), tsf.version().max_level_ts, tsf.mut_ts_max()), (170, 170, 170));
}

#[test]
fn a_fresh_delta_cache_has_the_configured_budget() {
    let mut tsf = TseriesFamily::new(
        1,
        "db".to_string(),
        MemCache::new(1, 500, 0, false),
        Version::new(0, 0, "db".to_string(), vec![], 100),
        opts(48, 4),
    );
    assert_eq!(tsf.delta_cache().max_buf_size(), 48);
    put_f64(&mut tsf, 1, 1, 10);
    put_f64(&mut tsf, 1, 2, 110);
    assert!(tsf.delta_cache().is_empty());
    assert_eq!(tsf.delta_cache().max_buf_size(), 48);
    let req = tsf.wrap_delta_flush_req();
    assert_eq!(req.mems[0].1.max_buf_size(), 48);
    assert_eq!(tsf.delta_cache().max_buf_size(), 48);
    assert_eq!(tsf.delta_cache().seq_no(), tsf.seq_no());
    tsf.switch_to_immutable();
    assert_eq!(tsf.cache().max_buf_size(), 500);
}

#[test]
fn recorded_sequence_numbers_do_not_fall() {
    let mut tsf = family(64, 2, 100);
    let mut x: u64 = 3;
    let mut last_mut = tsf.cache().seq_no();
    let mut last_delta = tsf.delta_cache().seq_no();
    for seq in 1..300_u64 {
        x = x.wrapping_mul(6364136223846793005).wrapping_add(1442695040888963407);
        let ts = 50 + (x >> 33) as i64 % 100;
        let late = ts < tsf.imut_ts_min();
        let before = if late { tsf.delta_cache().seq_no() } else { tsf.cache().seq_no() };
        assert!(before <= seq);
        let svid = tsf.super_version_id();
        put_f64(&mut tsf, 1, seq, ts);
        if tsf.super_version_id() == svid {
            assert!(tsf.cache().seq_no() >= last_mut);
            assert!(tsf.delta_cache().seq_no() >= last_delta);
            assert_eq!(if late { tsf.delta_cache().seq_no() } else { tsf.cache().seq_no() }, seq);
        }
        last_mut = tsf.cache().seq_no();
        last_delta = tsf.delta_cache().seq_no();
    }
}

#[test]
fn requests_are_queued_in_order_with_one_wake_each() {
    let mut tsf = family(0, 1, 100);
    let mut queue: Vec<FlushReq> = Vec::new();
    assert_eq!(enqueue(&mut queue, vec![]), 0);
    let wakes = enqueue(&mut queue, put_f64(&mut tsf, 1, 1, 50));
    assert_eq!(wakes, 2);
    let wakes = enqueue(&mut queue, put_f64(&mut tsf, 1, 2, 60));
    assert_eq!(wakes, 2);
    assert_eq!(queue.len(), 4);
    assert!(queue[0].mems[0].1.is_immutable());
    assert_eq!(stamps(&queue[1].mems[0].1, 1), vec![50]);
    assert!(queue[2].mems[0].1.is_immutable());
    assert!(queue[2].mems[0].1.is_empty());
    assert!(queue[3].mems[0].1.is_delta());
    assert_eq!(stamps(&queue[3].mems[0].1, 1), vec![60]);
}
