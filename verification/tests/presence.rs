use statustracker::category::CategoryMap;
use statustracker::hour::{AbsRecord, Hour, HourDef, Record};
use statustracker::model::CodecError;
use statustracker::presence::{get_player_join_times, join_times};
use std::collections::HashSet;
use std::sync::Arc;

fn crowd(all: &[usize]) -> Option<Arc<AbsRecord>> {
    Some(Arc::new(AbsRecord {
        all: all.iter().copied().collect(),
        categories: CategoryMap::new(),
    }))
}

fn block_of(id: u32, slots: &[(usize, &[usize])]) -> HourDef {
    let mut hour = Hour::new(id);
    for (minute, all) in slots {
        hour.records[*minute] = crowd(all);
    }
    HourDef::encode(&hour).unwrap()
}

const E: usize = 4;

#[test]
fn single_run() {
    let mut slots: Vec<(usize, &[usize])> = vec![(3, &[1]), (4, &[1, 2])];
    for m in 5..=10 {
        slots.push((m, &[1, E]));
    }
    slots.push((11, &[1]));
    slots.push((13, &[2]));
    let blocks = vec![block_of(0, &slots)];
    assert_eq!(get_player_join_times(&blocks, 0, 59, E), Ok(vec![(5, 10)]));
}

#[test]
fn split_run() {
    let blocks = vec![block_of(
        0,
        &[
            (5, &[E]),
            (6, &[E, 9]),
            (7, &[E]),
            (8, &[9]),
            (9, &[E]),
            (10, &[E]),
        ],
    )];
    assert_eq!(
        get_player_join_times(&blocks, 0, 20, E),
        Ok(vec![(5, 7), (9, 10)])
    );
}

#[test]
fn run_split_by_a_minute_without_snapshot() {
    let blocks = vec![block_of(0, &[(5, &[E]), (6, &[E]), (8, &[E])])];
    assert_eq!(
        get_player_join_times(&blocks, 0, 20, E),
        Ok(vec![(5, 6), (8, 8)])
    );
}

#[test]
fn run_open_at_the_end_closes_at_the_last_minute() {
    let blocks = vec![block_of(2, &[(57, &[E]), (58, &[E]), (59, &[E])])];
    assert_eq!(
        get_player_join_times(&blocks, 120, 179, E),
        Ok(vec![(177, 179)])
    );
    assert_eq!(
        get_player_join_times(&blocks, 120, 178, E),
        Ok(vec![(177, 178)])
    );
}

#[test]
fn run_that_starts_before_the_range() {
    let blocks = vec![block_of(0, &[(0, &[E]), (1, &[E]), (2, &[E])])];
    assert_eq!(get_player_join_times(&blocks, 1, 10, E), Ok(vec![(1, 2)]));
    assert_eq!(get_player_join_times(&blocks, 2, 2, E), Ok(vec![(2, 2)]));
}

#[test]
fn run_across_two_hours() {
    let blocks = vec![
        block_of(1, &[(0, &[E]), (1, &[E])]),
        block_of(0, &[(58, &[E]), (59, &[E])]),
    ];
    assert_eq!(get_player_join_times(&blocks, 0, 119, E), Ok(vec![(58, 61)]));
}

#[test]
fn nobody_there() {
    let blocks = vec![block_of(0, &[(5, &[1]), (6, &[2])])];
    assert_eq!(get_player_join_times(&blocks, 0, 59, E), Ok(vec![]));
    assert_eq!(get_player_join_times(&vec![], 0, 59, E), Ok(vec![]));
}

#[test]
fn join_times_on_a_sequence() {
    let mins = vec![
        crowd(&[E]),
        None,
        crowd(&[1]),
        crowd(&[1, E]),
        crowd(&[E]),
        crowd(&[]),
        crowd(&[E]),
    ];
    assert_eq!(join_times(&mins, 100, E), vec![(100, 100), (103, 104), (106, 106)]);
    assert_eq!(join_times(&mins, 100, 1), vec![(102, 103)]);
    assert_eq!(join_times(&mins, 100, 77), vec![]);
    assert_eq!(join_times(&vec![], 0, E), vec![]);
    assert_eq!(join_times(&vec![crowd(&[E])], u64::MAX, E), vec![(u64::MAX, u64::MAX)]);
}

#[test]
fn corrupt_block_fails_the_intervals() {
    let mut block = HourDef::default();
    block.tracked_mins.turn_on(0);
    block.deltas.insert(
        0,
        Record::Delta {
            joined: HashSet::from([E]),
            joined_categories: CategoryMap::new(),
            left: HashSet::new(),
            left_categories: CategoryMap::new(),
        },
    );
    assert_eq!(
        get_player_join_times(&vec![block], 0, 59, E),
        Err(CodecError::CorruptBlock)
    );
}
