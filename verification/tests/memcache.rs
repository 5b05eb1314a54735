use rand::random;
use tskv::error::Error;
use tskv::memcache::{DataType, F64Cell, I64Cell, MemCache, MemEntry, StrCell, U64Cell, BoolCell};
use tskv::models::ValueType;
use tskv::sort::sort_cells;
use tskv::tseries_family::TimeRange;

fn get_memcache() -> MemCache {
    let mut c = MemCache::new(1, 1024, 0, false);
    for i in 1..1000 {
        c.insert(1, DataType::F64(F64Cell { ts: i, val: random::<f64>().to_bits() }), ValueType::Float)
            .unwrap();
    }
    c
}

fn timestamps(entry: &MemEntry) -> Vec<i64> {
    entry.cells().iter().map(|c| c.timestamp()).collect()
}

#[test]
fn test() {
    let mut memcache = get_memcache();
    if let Some(entry) = memcache.get(1_u64) {
        println!("{} {}", entry.ts_max(), entry.ts_min());
    }
    memcache.delete_range(&[1, 2, 3], &TimeRange { max_ts: 1, min_ts: 10 });
    assert_eq!(memcache.get(1).unwrap().cells().len(), 999);
}

#[test]
fn insert_widens_bounds_and_sets_type() {
    let mut c = MemCache::new(7, 1024, 3, false);
    assert!(c.get(5).is_none());
    assert!(c.is_empty());
    c.insert(5, DataType::I64(I64Cell { ts: 20, val: -4 }), ValueType::Integer).unwrap();
    c.insert(5, DataType::I64(I64Cell { ts: 10, val: 9 }), ValueType::Integer).unwrap();
    c.insert(5, DataType::I64(I64Cell { ts: 30, val: 1 }), ValueType::Integer).unwrap();
    let e = c.get(5).unwrap();
    assert_eq!(e.ts_min(), 10);
    assert_eq!(e.ts_max(), 30);
    assert_eq!(e.field_type(), ValueType::Integer);
    assert_eq!(timestamps(e), vec![20, 10, 30]);
    assert!(!c.is_empty());
    assert_eq!(c.tf_id(), 7);
    assert_eq!(c.seq_no(), 3);
    assert!(!c.is_delta());
    assert!(!c.is_immutable());
}

#[test]
fn every_cell_lies_within_the_bounds_of_its_entry() {
    let mut c = MemCache::new(1, u64::MAX, 0, false);
    let stamps = [5_i64, -3, 100, 42, i64::MIN, i64::MAX, 0];
    for (k, ts) in stamps.iter().enumerate() {
        c.insert((k % 2) as u64, DataType::U64(U64Cell { ts: *ts, val: k as u64 }), ValueType::Unsigned)
            .unwrap();
    }
    for fid in c.field_ids() {
        let e = c.get(fid).unwrap();
        for cell in e.cells() {
            assert!(e.ts_min() <= cell.timestamp() && cell.timestamp() <= e.ts_max());
            assert_eq!(cell.value_type(), e.field_type());
        }
    }
}

#[test]
fn insert_refuses_a_sample_of_another_type() {
    let mut c = MemCache::new(1, 1024, 0, false);
    c.insert(1, DataType::U64(U64Cell { ts: 1, val: 1 }), ValueType::Unsigned).unwrap();
    let r = c.insert(1, DataType::Bool(BoolCell { ts: 2, val: true }), ValueType::Boolean);
    assert_eq!(r, Err(Error::UnsupportedType));
    let r = c.insert(2, DataType::Bool(BoolCell { ts: 2, val: true }), ValueType::Integer);
    assert_eq!(r, Err(Error::UnsupportedType));
    let r = c.insert(2, DataType::Bool(BoolCell { ts: 2, val: true }), ValueType::Unknown);
    assert_eq!(r, Err(Error::UnsupportedType));
    assert_eq!(c.get(1).unwrap().cells().len(), 1);
    assert!(c.get(2).is_none());
    assert_eq!(c.cache_size(), 16);
}

#[test]
fn cache_size_counts_timestamp_and_value() {
    let mut c = MemCache::new(1, 64, 0, false);
    c.insert(1, DataType::U64(U64Cell { ts: 1, val: 1 }), ValueType::Unsigned).unwrap();
    assert_eq!(c.cache_size(), 16);
    c.insert(2, DataType::Bool(BoolCell { ts: 1, val: true }), ValueType::Boolean).unwrap();
    assert_eq!(c.cache_size(), 25);
    c.insert(3, DataType::Str(StrCell { ts: 1, val: vec![1, 2, 3, 4, 5] }), ValueType::String).unwrap();
    assert_eq!(c.cache_size(), 38);
    assert!(!c.is_full());
    c.insert(4, DataType::F64(F64Cell { ts: 1, val: 2.5_f64.to_bits() }), ValueType::Float).unwrap();
    c.insert(5, DataType::I64(I64Cell { ts: 1, val: -1 }), ValueType::Integer).unwrap();
    assert_eq!(c.cache_size(), 70);
    assert!(c.is_full());
    assert_eq!(c.max_buf_size(), 64);
    assert_eq!(DataType::Str(StrCell { ts: 0, val: vec![] }).size(), 8);
}

#[test]
fn insert_raw_decodes_big_endian() {
    let mut c = MemCache::new(1, 1024, 0, false);
    c.insert_raw(4, 1, 10, ValueType::Unsigned, &0x0102_0304_0506_0708_u64.to_be_bytes()).unwrap();
    c.insert_raw(5, 2, 11, ValueType::Integer, &(-2_i64).to_be_bytes()).unwrap();
    c.insert_raw(6, 3, 12, ValueType::Float, &1.5_f64.to_be_bytes()).unwrap();
    c.insert_raw(7, 4, 13, ValueType::Boolean, &[1]).unwrap();
    c.insert_raw(8, 5, 14, ValueType::Boolean, &[0, 1]).unwrap();
    c.insert_raw(9, 6, 15, ValueType::String, b"abc").unwrap();
    c.insert_raw(10, 7, 16, ValueType::Integer, &i64::MIN.to_be_bytes()).unwrap();
    c.insert_raw(11, 8, 17, ValueType::Unsigned, &[0xff, 0, 0, 0, 0, 0, 0, 1, 0xaa]).unwrap();
    assert_eq!(c.seq_no(), 11);
    match &c.get(1).unwrap().cells()[0] {
        DataType::U64(x) => assert_eq!((x.ts, x.val), (10, 0x0102_0304_0506_0708)),
        other => panic!("{:?}", other),
    }
    match &c.get(2).unwrap().cells()[0] {
        DataType::I64(x) => assert_eq!((x.ts, x.val), (11, -2)),
        other => panic!("{:?}", other),
    }
    match &c.get(3).unwrap().cells()[0] {
        DataType::F64(x) => assert_eq!((x.ts, f64::from_bits(x.val)), (12, 1.5)),
        other => panic!("{:?}", other),
    }
    match &c.get(4).unwrap().cells()[0] {
        DataType::Bool(x) => assert_eq!((x.ts, x.val), (13, true)),
        other => panic!("{:?}", other),
    }
    match &c.get(5).unwrap().cells()[0] {
        DataType::Bool(x) => assert_eq!((x.ts, x.val), (14, false)),
        other => panic!("{:?}", other),
    }
    match &c.get(6).unwrap().cells()[0] {
        DataType::Str(x) => assert_eq!((x.ts, x.val.clone()), (15, b"abc".to_vec())),
        other => panic!("{:?}", other),
    }
    match &c.get(7).unwrap().cells()[0] {
        DataType::I64(x) => assert_eq!((x.ts, x.val), (16, i64::MIN)),
        other => panic!("{:?}", other),
    }
    match &c.get(8).unwrap().cells()[0] {
        DataType::U64(x) => assert_eq!((x.ts, x.val), (17, 0xff00_0000_0000_0001)),
        other => panic!("{:?}", other),
    }
}

#[test]
fn insert_raw_reports_each_error_and_changes_nothing() {
    let mut c = MemCache::new(1, 1024, 2, false);
    assert_eq!(c.insert_raw(9, 1, 10, ValueType::Unknown, &[0; 8]), Err(Error::UnsupportedType));
    assert_eq!(c.insert_raw(9, 1, 10, ValueType::Unsigned, &[0; 7]), Err(Error::DecodeErr));
    assert_eq!(c.insert_raw(9, 1, 10, ValueType::Integer, &10_i32.to_be_bytes()), Err(Error::DecodeErr));
    assert_eq!(c.insert_raw(9, 1, 10, ValueType::Float, &[]), Err(Error::DecodeErr));
    assert_eq!(c.insert_raw(9, 1, 10, ValueType::Boolean, &[]), Err(Error::DecodeErr));
    assert!(c.is_empty());
    assert_eq!(c.seq_no(), 2);
    assert_eq!(c.cache_size(), 0);
    c.insert_raw(9, 1, 10, ValueType::String, &[]).unwrap();
    assert_eq!(c.seq_no(), 9);
    assert_eq!(c.insert_raw(10, 1, 11, ValueType::Unsigned, &[0; 8]), Err(Error::UnsupportedType));
    assert_eq!(c.seq_no(), 9);
    c.switch_to_immutable();
    assert_eq!(c.insert_raw(11, 1, 12, ValueType::String, &[]), Err(Error::CacheFrozen));
    assert_eq!(c.insert_raw(11, 1, 12, ValueType::Unknown, &[]), Err(Error::UnsupportedType));
    assert_eq!(
        c.insert(1, DataType::Str(StrCell { ts: 1, val: vec![] }), ValueType::String),
        Err(Error::CacheFrozen)
    );
    assert_eq!(c.get(1).unwrap().cells().len(), 1);
}

#[test]
fn seq_no_follows_the_writes() {
    let mut c = MemCache::new(1, 1024, 0, false);
    let mut last = c.seq_no();
    for seq in [1_u64, 1, 2, 5, 5, 9] {
        c.insert_raw(seq, 1, seq as i64, ValueType::Unsigned, &seq.to_be_bytes()).unwrap();
        assert_eq!(c.seq_no(), seq);
        assert!(c.seq_no() >= last);
        last = c.seq_no();
    }
}

#[test]
fn delete_range_is_inclusive() {
    let mut c = MemCache::new(1, u64::MAX, 0, false);
    for i in 1..=1000 {
        c.insert(1, DataType::F64(F64Cell { ts: i, val: (i as f64).to_bits() }), ValueType::Float)
            .unwrap();
    }
    c.delete_range(&[1, 9], &TimeRange { min_ts: 100, max_ts: 200 });
    let e = c.get(1).unwrap();
    assert_eq!(e.cells().len(), 899);
    assert!(e.cells().iter().all(|x| x.timestamp() < 100 || x.timestamp() > 200));
    assert_eq!(e.ts_min(), 1);
    assert_eq!(e.ts_max(), 1000);
    assert!(c.get(9).is_none());
    let expected: Vec<i64> = (1..100).chain(201..=1000).collect();
    assert_eq!(timestamps(c.get(1).unwrap()), expected);
}

#[test]
fn delete_range_twice_is_delete_range_once() {
    let mut once = MemCache::new(1, u64::MAX, 0, false);
    let mut twice = MemCache::new(1, u64::MAX, 0, false);
    for ts in [7_i64, 3, 9, 3, 5, 1, 8] {
        once.insert(1, DataType::I64(I64Cell { ts, val: ts }), ValueType::Integer).unwrap();
        twice.insert(1, DataType::I64(I64Cell { ts, val: ts }), ValueType::Integer).unwrap();
    }
    let r = TimeRange::new(7, 3);
    once.delete_range(&[1], &r);
    twice.delete_range(&[1, 1], &r);
    twice.delete_range(&[1], &r);
    assert_eq!(timestamps(once.get(1).unwrap()), vec![9, 1, 8]);
    assert_eq!(timestamps(twice.get(1).unwrap()), vec![9, 1, 8]);
    twice.delete_data(&r);
    assert_eq!(timestamps(twice.get(1).unwrap()), vec![9, 1, 8]);
}

#[test]
fn delete_data_reaches_every_field() {
    let mut c = MemCache::new(1, u64::MAX, 0, false);
    for fid in 0..4_u64 {
        for ts in 0..10_i64 {
            c.insert(fid, DataType::U64(U64Cell { ts, val: fid }), ValueType::Unsigned).unwrap();
        }
    }
    c.delete_data(&TimeRange { min_ts: 2, max_ts: 7 });
    let mut ids = c.field_ids();
    ids.sort();
    assert_eq!(ids, vec![0, 1, 2, 3]);
    for fid in ids {
        assert_eq!(timestamps(c.get(fid).unwrap()), vec![0, 1, 8, 9]);
    }
}

#[test]
fn switch_to_immutable_sorts_and_keeps_arrival_order_of_ties() {
    let mut c = MemCache::new(1, u64::MAX, 0, false);
    let samples = [(5_i64, 0_u64), (1, 1), (5, 2), (3, 3), (1, 4), (5, 5), (2, 6)];
    for (ts, val) in samples {
        c.insert(1, DataType::U64(U64Cell { ts, val }), ValueType::Unsigned).unwrap();
        c.insert(2, DataType::U64(U64Cell { ts: -ts, val }), ValueType::Unsigned).unwrap();
    }
    c.switch_to_immutable();
    assert!(c.is_immutable());
    let got: Vec<(i64, u64)> = c
        .get(1)
        .unwrap()
        .cells()
        .iter()
        .map(|x| match x {
            DataType::U64(x) => (x.ts, x.val),
            other => panic!("{:?}", other),
        })
        .collect();
    assert_eq!(got, vec![(1, 1), (1, 4), (2, 6), (3, 3), (5, 0), (5, 2), (5, 5)]);
    let stamps = timestamps(c.get(2).unwrap());
    assert_eq!(stamps, vec![-5, -5, -5, -3, -2, -1, -1]);
    c.switch_to_immutable();
    assert_eq!(timestamps(c.get(2).unwrap()), stamps);
    c.delete_data(&TimeRange { min_ts: -3, max_ts: -2 });
    assert_eq!(timestamps(c.get(2).unwrap()), vec![-5, -5, -5, -1, -1]);
}

#[test]
fn sort_of_many_cells_is_ascending() {
    let mut c = MemCache::new(1, u64::MAX, 0, false);
    let mut x: u64 = 1;
    for i in 0..5000_u64 {
        x = x.wrapping_mul(6364136223846793005).wrapping_add(1442695040888963407);
        let ts = (x >> 40) as i64 % 97;
        c.insert(1, DataType::U64(U64Cell { ts, val: i }), ValueType::Unsigned).unwrap();
    }
    c.switch_to_immutable();
    let cells = c.get(1).unwrap().cells();
    assert_eq!(cells.len(), 5000);
    for w in cells.windows(2) {
        let (a, b) = match (&w[0], &w[1]) {
            (DataType::U64(a), DataType::U64(b)) => (a, b),
            other => panic!("{:?}", other),
        };
        assert!(a.ts < b.ts || (a.ts == b.ts && a.val < b.val));
    }
}

#[test]
fn entry_operations() {
    let mut e = MemEntry::default();
    assert_eq!(e.ts_min(), i64::MAX);
    assert_eq!(e.ts_max(), i64::MIN);
    assert_eq!(e.field_type(), ValueType::Unknown);
    assert!(!e.overlap(&TimeRange { min_ts: 0, max_ts: 10 }));
    for ts in [4_i64, 2, 8, 6] {
        e.insert(DataType::I64(I64Cell { ts, val: ts * 10 })).unwrap();
    }
    assert_eq!(e.insert(DataType::U64(U64Cell { ts: 5, val: 0 })), Err(Error::UnsupportedType));
    assert!(e.overlap(&TimeRange { min_ts: 8, max_ts: 9 }));
    assert!(e.overlap(&TimeRange { min_ts: 0, max_ts: 2 }));
    assert!(!e.overlap(&TimeRange { min_ts: 9, max_ts: 20 }));
    assert!(!e.overlap(&TimeRange { min_ts: -5, max_ts: 1 }));
    let read: Vec<i64> = e.read_cell(&TimeRange { min_ts: 4, max_ts: 8 }).iter().map(|c| c.timestamp()).collect();
    assert_eq!(read, vec![4, 8, 6]);
    e.sort();
    assert_eq!(timestamps(&e), vec![2, 4, 6, 8]);
    e.delete_range(&TimeRange { min_ts: 4, max_ts: 6 });
    assert_eq!(timestamps(&e), vec![2, 8]);
    assert_eq!(e.ts_min(), 2);
    assert_eq!(e.ts_max(), 8);
    assert!(MemCache::flush().is_ok());
}

#[test]
fn sort_cells_is_stable() {
    let cells: Vec<DataType> = [(3_i64, 0_u64), (1, 1), (3, 2), (2, 3), (1, 4), (3, 5)]
        .iter()
        .map(|(ts, val)| DataType::U64(U64Cell { ts: *ts, val: *val }))
        .collect();
    let sorted: Vec<(i64, u64)> = sort_cells(cells)
        .iter()
        .map(|c| match c {
            DataType::U64(c) => (c.ts, c.val),
            other => panic!("{:?}", other),
        })
        .collect();
    assert_eq!(sorted, vec![(1, 1), (1, 4), (2, 3), (3, 0), (3, 2), (3, 5)]);
    assert!(sort_cells(vec![]).is_empty());
    assert_eq!(sort_cells(vec![DataType::Bool(BoolCell { ts: 9, val: true })]).len(), 1);
}
