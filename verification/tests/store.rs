use statustracker::category::CategoryMap;
use statustracker::hour::{AbsRecord, Hour, HourDef, Record};
use statustracker::model::CodecError;
use statustracker::store::add_record;
use std::collections::HashSet;
use std::sync::Arc;

fn present(all: &[usize], staff: &[usize]) -> AbsRecord {
    let mut categories = CategoryMap::new();
    categories.insert("staff".to_string(), staff.iter().copied().collect::<HashSet<usize>>());
    AbsRecord {
        all: all.iter().copied().collect(),
        categories,
    }
}

#[test]
fn first_record_of_an_hour() {
    let block = add_record(None, 125, present(&[1, 2], &[1])).unwrap();
    assert_eq!(block._id, 2);
    for m in 0..60 {
        assert_eq!(block.tracked_mins.is_on(m), m == 5);
    }
    assert_eq!(block.deltas.len(), 1);
    assert_eq!(block.deltas.get(&5), Some(&Record::Abs(present(&[1, 2], &[1]))));
}

#[test]
fn next_record_of_an_hour_is_a_delta() {
    let first = add_record(None, 125, present(&[1, 2], &[1])).unwrap();
    let second = add_record(Some(&first), 126, present(&[2, 3], &[3])).unwrap();
    assert_eq!(second._id, 2);
    assert_eq!(second.deltas.len(), 2);
    let mut joined_staff = CategoryMap::new();
    joined_staff.insert("staff".to_string(), HashSet::from([3]));
    let mut left_staff = CategoryMap::new();
    left_staff.insert("staff".to_string(), HashSet::from([1]));
    assert_eq!(
        second.deltas.get(&6),
        Some(&Record::Delta {
            joined: HashSet::from([3]),
            joined_categories: joined_staff,
            left: HashSet::from([1]),
            left_categories: left_staff,
        })
    );
    let hour = second.decode().unwrap();
    let mut expected = Hour::new(2);
    expected.records[5] = Some(Arc::new(present(&[1, 2], &[1])));
    expected.records[6] = Some(Arc::new(present(&[2, 3], &[3])));
    assert_eq!(hour, expected);
}

#[test]
fn record_replaces_the_slot_of_its_minute() {
    let first = add_record(None, 60, present(&[1], &[])).unwrap();
    let second = add_record(Some(&first), 61, present(&[2], &[])).unwrap();
    let third = add_record(Some(&second), 60, present(&[9], &[9])).unwrap();
    let hour = third.decode().unwrap();
    let mut expected = Hour::new(1);
    expected.records[0] = Some(Arc::new(present(&[9], &[9])));
    expected.records[1] = Some(Arc::new(present(&[2], &[])));
    assert_eq!(hour, expected);
}

#[test]
fn record_after_a_gap_is_stored_whole() {
    let first = add_record(None, 0, present(&[1], &[])).unwrap();
    let second = add_record(Some(&first), 2, present(&[1], &[])).unwrap();
    assert_eq!(second.deltas.get(&2), Some(&Record::Abs(present(&[1], &[]))));
    assert!(!second.tracked_mins.is_on(1));
}

#[test]
fn record_that_breaks_the_subset_rule_is_refused() {
    assert_eq!(
        add_record(None, 0, present(&[1], &[2])),
        Err(CodecError::InvariantViolation)
    );
}

#[test]
fn record_into_a_corrupt_block_is_refused() {
    let mut block = HourDef::default();
    block.tracked_mins.turn_on(3);
    block.deltas.insert(
        3,
        Record::Delta {
            joined: HashSet::new(),
            joined_categories: CategoryMap::new(),
            left: HashSet::new(),
            left_categories: CategoryMap::new(),
        },
    );
    assert_eq!(
        add_record(Some(&block), 10, present(&[1], &[])),
        Err(CodecError::CorruptBlock)
    );
}

#[test]
fn last_hour_that_can_be_counted() {
    let min_ts = u32::MAX as u64 * 60 + 59;
    let block = add_record(None, min_ts, present(&[], &[])).unwrap();
    assert_eq!(block._id, u32::MAX);
    assert!(block.tracked_mins.is_on(59));
}
