use tskv::memcache::{BoolCell, DataType, F64Cell, I64Cell, StrCell, U64Cell};
use tskv::models::ValueType;
use tskv::tsm::DataBlock;

#[test]
fn test_merge_blocks() {
    let res = DataBlock::merge_blocks(vec![
        DataBlock::U64 { ts: vec![1, 2, 3, 4, 5], val: vec![10, 20, 30, 40, 50] },
        DataBlock::U64 { ts: vec![2, 3, 4], val: vec![12, 13, 15] },
    ]);

    assert_eq!(res, DataBlock::U64 { ts: vec![1, 2, 3, 4, 5], val: vec![10, 12, 13, 15, 50] },);
}

#[test]
fn test_append_block() {
    let mut b1 = DataBlock::U64 { ts: vec![1, 3, 5], val: vec![10, 30, 50] };
    let b2 = DataBlock::U64 { ts: vec![2, 3, 6], val: vec![21, 31, 61] };
    b1.append(&b2);
    assert_eq!(b1, DataBlock::U64 { ts: vec![1, 2, 3, 5, 6], val: vec![10, 21, 31, 50, 61] });
}

#[test]
fn append_of_another_type_changes_nothing() {
    let mut b1 = DataBlock::U64 { ts: vec![1, 3, 5], val: vec![10, 30, 50] };
    b1.append(&DataBlock::I64 { ts: vec![2], val: vec![-1] });
    assert_eq!(b1, DataBlock::U64 { ts: vec![1, 3, 5], val: vec![10, 30, 50] });
    b1.append(&DataBlock::U64 { ts: vec![], val: vec![] });
    assert_eq!(b1, DataBlock::U64 { ts: vec![1, 3, 5], val: vec![10, 30, 50] });
    let mut empty = DataBlock::new(0, ValueType::Unsigned);
    empty.append(&b1);
    assert_eq!(empty, b1);
}

#[test]
fn merge_of_one_block_gives_it_back() {
    let only = DataBlock::Str { ts: vec![3, 1, 3], val: vec![vec![1], vec![], vec![2, 2]] };
    assert_eq!(DataBlock::merge_blocks(vec![only.clone()]), only);
}

#[test]
fn merge_lets_the_last_block_win() {
    let a = DataBlock::I64 { ts: vec![1, 4, 7, 9], val: vec![1, 1, 1, 1] };
    let b = DataBlock::I64 { ts: vec![2, 4, 9], val: vec![2, 2, 2] };
    let c = DataBlock::I64 { ts: vec![0, 4, 7], val: vec![3, 3, 3] };
    let res = DataBlock::merge_blocks(vec![a, b, c]);
    assert_eq!(res, DataBlock::I64 { ts: vec![0, 1, 2, 4, 7, 9], val: vec![3, 1, 2, 3, 3, 2] });
    let ts = res.ts();
    assert!(ts.windows(2).all(|w| w[0] < w[1]));
}

#[test]
fn merge_of_two_is_the_second_where_both_have_a_sample() {
    let a = DataBlock::F64 { ts: vec![1, 2, 3], val: vec![1.0_f64.to_bits(), 2.0_f64.to_bits(), 3.0_f64.to_bits()] };
    let b = DataBlock::F64 { ts: vec![2, 5], val: vec![20.0_f64.to_bits(), 50.0_f64.to_bits()] };
    let ab = DataBlock::merge_blocks(vec![a.clone(), b.clone()]);
    let ba = DataBlock::merge_blocks(vec![b, a]);
    let values = |blk: &DataBlock| -> Vec<(i64, f64)> {
        (0..blk.len())
            .map(|i| match blk.get(i) {
                Some(DataType::F64(c)) => (c.ts, f64::from_bits(c.val)),
                other => panic!("{:?}", other),
            })
            .collect()
    };
    assert_eq!(values(&ab), vec![(1, 1.0), (2, 20.0), (3, 3.0), (5, 50.0)]);
    assert_eq!(values(&ba), vec![(1, 1.0), (2, 2.0), (3, 3.0), (5, 50.0)]);
}

#[test]
fn merge_drops_samples_of_another_type() {
    let res = DataBlock::merge_blocks(vec![
        DataBlock::Bool { ts: vec![1, 2, 3], val: vec![true, true, true] },
        DataBlock::U64 { ts: vec![2, 4], val: vec![7, 7] },
    ]);
    assert_eq!(res, DataBlock::Bool { ts: vec![1, 3], val: vec![true, true] });
}

#[test]
fn merge_of_empty_blocks_is_empty() {
    let res = DataBlock::merge_blocks(vec![
        DataBlock::new(4, ValueType::String),
        DataBlock::new(0, ValueType::String),
    ]);
    assert!(res.is_empty());
    assert_eq!(res.field_type(), ValueType::String);
}

#[test]
fn new_block_has_the_asked_type() {
    for (t, zero) in [
        (ValueType::Unsigned, DataBlock::U64 { ts: vec![], val: vec![] }),
        (ValueType::Integer, DataBlock::I64 { ts: vec![], val: vec![] }),
        (ValueType::Float, DataBlock::F64 { ts: vec![], val: vec![] }),
        (ValueType::String, DataBlock::Str { ts: vec![], val: vec![] }),
        (ValueType::Boolean, DataBlock::Bool { ts: vec![], val: vec![] }),
    ] {
        let b = DataBlock::new(16, t);
        assert_eq!(b, zero);
        assert_eq!(b.field_type(), t);
        assert_eq!(b.len(), 0);
        assert!(b.is_empty());
        assert!(b.get(0).is_none());
        assert_eq!(b.get_type().value_type(), t);
        assert_eq!(b.get_type().timestamp(), 0);
    }
}

#[test]
fn insert_ignores_a_sample_of_another_type() {
    let mut b = DataBlock::new(2, ValueType::Integer);
    b.insert(&DataType::I64(I64Cell { ts: 5, val: -5 }));
    b.insert(&DataType::U64(U64Cell { ts: 6, val: 6 }));
    b.insert(&DataType::Bool(BoolCell { ts: 7, val: true }));
    b.insert(&DataType::I64(I64Cell { ts: 3, val: 9 }));
    assert_eq!(b, DataBlock::I64 { ts: vec![5, 3], val: vec![-5, 9] });
    assert_eq!(b.len(), 2);
    assert!(!b.is_empty());
    assert_eq!(b.time_range(0, 2), (5, 3));
    assert_eq!(b.time_range(1, 1), (3, 5));
    assert_eq!(b.ts(), &[5, 3]);
}

#[test]
fn batch_insert_appends_in_order() {
    let mut b = DataBlock::new(0, ValueType::String);
    b.batch_insert(&[
        DataType::Str(StrCell { ts: 1, val: b"a".to_vec() }),
        DataType::F64(F64Cell { ts: 2, val: 0 }),
        DataType::Str(StrCell { ts: 3, val: b"bc".to_vec() }),
    ]);
    assert_eq!(b, DataBlock::Str { ts: vec![1, 3], val: vec![b"a".to_vec(), b"bc".to_vec()] });
    b.batch_insert(&[]);
    assert_eq!(b.len(), 2);
}

#[test]
fn get_and_set_address_one_slot() {
    let mut b = DataBlock::U64 { ts: vec![1, 2, 3], val: vec![10, 20, 30] };
    match b.get(1) {
        Some(DataType::U64(c)) => assert_eq!((c.ts, c.val), (2, 20)),
        other => panic!("{:?}", other),
    }
    assert!(b.get(3).is_none());
    b.set(1, DataType::U64(U64Cell { ts: 9, val: 99 }));
    assert_eq!(b, DataBlock::U64 { ts: vec![1, 9, 3], val: vec![10, 99, 30] });
    b.set(1, DataType::I64(I64Cell { ts: 0, val: 0 }));
    b.set(17, DataType::Bool(BoolCell { ts: 0, val: false }));
    assert_eq!(b, DataBlock::U64 { ts: vec![1, 9, 3], val: vec![10, 99, 30] });
}

#[test]
fn merge_agrees_with_writing_the_blocks_into_a_map_one_after_another() {
    let mut x: u64 = 99;
    let mut next = move || {
        x = x.wrapping_mul(6364136223846793005).wrapping_add(1442695040888963407);
        x >> 33
    };
    for round in 0..50 {
        let n_blocks = 1 + (next() % 5) as usize;
        let mut blocks = Vec::new();
        let mut expected = std::collections::BTreeMap::new();
        for b in 0..n_blocks {
            let mut ts = Vec::new();
            let mut val = Vec::new();
            let mut t = (next() % 7) as i64 - 3;
            for _ in 0..(next() % 12) {
                ts.push(t);
                val.push((round * 1000 + b * 100) as i64 + t);
                expected.insert(t, (round * 1000 + b * 100) as i64 + t);
                t += 1 + (next() % 3) as i64;
            }
            blocks.push(DataBlock::I64 { ts, val });
        }
        let merged = DataBlock::merge_blocks(blocks);
        let want = DataBlock::I64 {
            ts: expected.keys().copied().collect(),
            val: expected.values().copied().collect(),
        };
        assert_eq!(merged, want);
    }
}
