use statustracker::category::CategoryMap;
use statustracker::hour::{AbsRecord, Hour, HourDef, Record};
use statustracker::model::CodecError;
use statustracker::range::{assemble, get_minutes};
use statustracker::store::{get_hour, get_hours};
use std::collections::HashSet;
use std::sync::Arc;

fn people(all: &[usize]) -> AbsRecord {
    AbsRecord {
        all: all.iter().copied().collect(),
        categories: CategoryMap::new(),
    }
}

fn hour_with(id: u32, slots: &[(usize, &[usize])]) -> Hour {
    let mut hour = Hour::new(id);
    for (minute, all) in slots {
        hour.records[*minute] = Some(Arc::new(people(all)));
    }
    hour
}

fn block_with(id: u32, slots: &[(usize, &[usize])]) -> HourDef {
    HourDef::encode(&hour_with(id, slots)).unwrap()
}

fn heads(mins: &[Option<Arc<AbsRecord>>]) -> Vec<Option<Vec<usize>>> {
    mins.iter()
        .map(|slot| {
            slot.as_ref().map(|record| {
                let mut all: Vec<usize> = record.all.iter().copied().collect();
                all.sort();
                all
            })
        })
        .collect()
}

fn corrupt_block(id: u32) -> HourDef {
    let mut block = HourDef::default();
    block._id = id;
    block.tracked_mins.turn_on(0);
    block.deltas.insert(
        0,
        Record::Delta {
            joined: HashSet::new(),
            joined_categories: CategoryMap::new(),
            left: HashSet::new(),
            left_categories: CategoryMap::new(),
        },
    );
    block
}

#[test]
fn range_without_blocks_is_all_gaps() {
    let mins = get_minutes(&vec![], 100, 250).unwrap();
    assert_eq!(mins.len(), 151);
    assert!(mins.iter().all(|slot| slot.is_none()));
    let one = get_minutes(&vec![], 59, 59).unwrap();
    assert_eq!(one.len(), 1);
    assert!(one[0].is_none());
}

#[test]
fn blocks_outside_the_range_are_not_read() {
    let blocks = vec![block_with(0, &[(5, &[1])]), block_with(9, &[(5, &[2])])];
    let mins = get_minutes(&blocks, 60, 8 * 60 + 59).unwrap();
    assert_eq!(mins.len(), 8 * 60);
    assert!(mins.iter().all(|slot| slot.is_none()));
}

#[test]
fn range_is_cut_at_both_ends() {
    let blocks = vec![block_with(1, &[(0, &[1]), (4, &[2]), (5, &[3]), (10, &[4]), (11, &[5])])];
    let mins = get_minutes(&blocks, 65, 70).unwrap();
    assert_eq!(
        heads(&mins),
        vec![Some(vec![3]), None, None, None, None, Some(vec![4])]
    );
}

#[test]
fn hours_come_out_in_order_of_time() {
    let blocks = vec![
        block_with(2, &[(0, &[20]), (59, &[29])]),
        block_with(0, &[(0, &[0]), (59, &[9])]),
        block_with(1, &[(0, &[10]), (59, &[19])]),
    ];
    let mins = get_minutes(&blocks, 0, 179).unwrap();
    assert_eq!(mins.len(), 180);
    let found: Vec<(usize, Vec<usize>)> = heads(&mins)
        .into_iter()
        .enumerate()
        .filter_map(|(minute, all)| all.map(|all| (minute, all)))
        .collect();
    assert_eq!(
        found,
        vec![
            (0, vec![0]),
            (59, vec![9]),
            (60, vec![10]),
            (119, vec![19]),
            (120, vec![20]),
            (179, vec![29]),
        ]
    );
}

#[test]
fn missing_hour_between_two_blocks_is_a_gap() {
    let blocks = vec![block_with(5, &[(0, &[2])]), block_with(3, &[(59, &[1])])];
    let mins = get_minutes(&blocks, 3 * 60 + 58, 5 * 60 + 1).unwrap();
    assert_eq!(mins.len(), 64);
    let shown = heads(&mins);
    assert_eq!(shown[0], None);
    assert_eq!(shown[1], Some(vec![1]));
    assert!(shown[2..62].iter().all(|slot| slot.is_none()));
    assert_eq!(shown[62], Some(vec![2]));
    assert_eq!(shown[63], None);
}

#[test]
fn corrupt_block_fails_the_range() {
    let blocks = vec![block_with(0, &[(0, &[1])]), corrupt_block(1)];
    assert_eq!(get_minutes(&blocks, 0, 119), Err(CodecError::CorruptBlock));
    assert_eq!(get_hours(&blocks), Err(CodecError::CorruptBlock));
    assert_eq!(get_hour(Some(&blocks[1])), Err(CodecError::CorruptBlock));
}

#[test]
fn blocks_decode_in_order() {
    let blocks = vec![block_with(4, &[(1, &[1])]), block_with(2, &[(2, &[2])])];
    let hours = get_hours(&blocks).unwrap();
    assert_eq!(hours, vec![hour_with(4, &[(1, &[1])]), hour_with(2, &[(2, &[2])])]);
    assert_eq!(get_hour(Some(&blocks[1])), Ok(Some(hour_with(2, &[(2, &[2])]))));
    assert_eq!(get_hour(None), Ok(None));
    assert_eq!(get_hours(&vec![]), Ok(vec![]));
}

#[test]
fn assemble_reads_hours_in_any_order() {
    let hours = vec![
        hour_with(11, &[(3, &[7])]),
        hour_with(10, &[(58, &[5]), (59, &[6])]),
    ];
    let mins = assemble(hours, 10 * 60 + 58, 11 * 60 + 3);
    assert_eq!(
        heads(&mins),
        vec![Some(vec![5]), Some(vec![6]), None, None, None, Some(vec![7])]
    );
    let none = assemble(vec![], 7, 9);
    assert_eq!(heads(&none), vec![None, None, None]);
}

#[test]
fn range_at_the_end_of_time() {
    let mins = get_minutes(&vec![], u64::MAX - 2, u64::MAX).unwrap();
    assert_eq!(mins.len(), 3);
    assert!(mins.iter().all(|slot| slot.is_none()));
}

#[test]
fn first_of_two_blocks_with_one_id_is_read() {
    let blocks = vec![
        block_with(3, &[(0, &[1])]),
        block_with(1, &[(0, &[2])]),
        block_with(3, &[(0, &[3]), (1, &[4])]),
        block_with(1, &[(1, &[5])]),
    ];
    let mins = get_minutes(&blocks, 60, 4 * 60 - 1).unwrap();
    let shown = heads(&mins);
    assert_eq!(shown[0], Some(vec![2]));
    assert_eq!(shown[1], None);
    assert_eq!(shown[120], Some(vec![1]));
    assert_eq!(shown[121], None);
    assert_eq!(shown.iter().filter(|slot| slot.is_some()).count(), 2);
}
