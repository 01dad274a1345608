use statustracker::average::{
    get_rolling_avg, sample_windows, window_average, window_range, Mean, RollingAvgRecord,
};
use statustracker::category::CategoryMap;
use statustracker::hour::{AbsRecord, Hour, HourDef, Record};
use statustracker::model::CodecError;
use std::collections::HashSet;
use std::sync::Arc;

fn minute(all: &[usize], categories: &[(&str, &[usize])]) -> Option<Arc<AbsRecord>> {
    let mut map = CategoryMap::new();
    for (name, members) in categories {
        map.insert(name.to_string(), members.iter().copied().collect::<HashSet<usize>>());
    }
    Some(Arc::new(AbsRecord {
        all: all.iter().copied().collect(),
        categories: map,
    }))
}

fn stored(id: u32, slots: Vec<(usize, Option<Arc<AbsRecord>>)>) -> HourDef {
    let mut hour = Hour::new(id);
    for (m, slot) in slots {
        hour.records[m] = slot;
    }
    HourDef::encode(&hour).unwrap()
}

fn means(all: (u128, usize), categories: &[(&str, (u128, usize))]) -> Option<RollingAvgRecord> {
    let mut map = CategoryMap::new();
    for (name, (sum, len)) in categories {
        map.insert(name.to_string(), Mean { sum: *sum, len: *len });
    }
    Some(RollingAvgRecord {
        all: Mean { sum: all.0, len: all.1 },
        categories: map,
    })
}

#[test]
fn zero_window_gives_the_head_counts() {
    let blocks = vec![stored(
        0,
        vec![
            (0, minute(&[1, 2], &[("staff", &[1])])),
            (1, minute(&[1, 3, 4], &[("staff", &[1]), ("guest", &[3, 4])])),
            (3, minute(&[], &[])),
            (4, minute(&[7], &[("staff", &[])])),
        ],
    )];
    let out = get_rolling_avg(&blocks, 0, 5, 0).unwrap();
    assert_eq!(
        out,
        vec![
            means((2, 1), &[("staff", (1, 1))]),
            means((3, 1), &[("staff", (1, 1)), ("guest", (2, 1))]),
            None,
            means((0, 1), &[]),
            means((1, 1), &[]),
            None,
        ]
    );
}

#[test]
fn zero_window_over_a_long_range_is_not_thinned() {
    let out = get_rolling_avg(&vec![stored(0, vec![(59, minute(&[1], &[]))])], 0, 4999, 0).unwrap();
    assert_eq!(out.len(), 5000);
    assert_eq!(out[59], means((1, 1), &[]));
    assert_eq!(out.iter().filter(|sample| sample.is_some()).count(), 1);
}

#[test]
fn window_mean_pads_categories_to_the_longest() {
    let mins = vec![
        minute(&[1, 2], &[("staff", &[1])]),
        minute(&[1, 3], &[("staff", &[1]), ("vip", &[3])]),
        None,
        minute(&[1, 2, 3], &[("staff", &[1, 2]), ("guest", &[3])]),
        minute(&[], &[]),
    ];
    assert_eq!(
        window_average(&mins, 2, 2),
        means(
            (7, 4),
            &[("staff", (4, 3)), ("vip", (1, 3)), ("guest", (1, 3))]
        )
    );
    assert_eq!(
        window_average(&mins, 1, 1),
        means((4, 2), &[("staff", (2, 2)), ("vip", (1, 2))])
    );
    assert_eq!(
        window_average(&mins, 3, 1),
        means((3, 2), &[("staff", (2, 1)), ("guest", (1, 1))])
    );
    assert_eq!(window_average(&mins, 2, 0), None);
    assert_eq!(window_average(&mins, 4, 0), means((0, 1), &[]));
}

#[test]
fn empty_category_counts_as_a_term() {
    let mins = vec![
        minute(&[1], &[("staff", &[]), ("guest", &[1])]),
        minute(&[1], &[("staff", &[1])]),
    ];
    assert_eq!(
        sample_windows(&mins, 0, 1),
        vec![
            means((1, 1), &[("staff", (0, 1)), ("guest", (1, 1))]),
            means((1, 1), &[("staff", (1, 1))]),
        ]
    );
    let wide = vec![mins[0].clone(), mins[1].clone(), None];
    assert_eq!(
        sample_windows(&wide, 1, 1),
        vec![means((2, 2), &[("staff", (1, 2)), ("guest", (1, 2))])]
    );
}

#[test]
fn rolling_average_of_one_minute() {
    let blocks = vec![stored(
        0,
        vec![
            (0, minute(&[1, 2], &[("staff", &[1])])),
            (1, minute(&[1, 3], &[("staff", &[1]), ("vip", &[3])])),
        ],
    )];
    assert_eq!(
        get_rolling_avg(&blocks, 1, 1, 1),
        Ok(vec![means((4, 2), &[("staff", (2, 2)), ("vip", (1, 2))])])
    );
}

#[test]
fn window_without_snapshot_gives_no_sample() {
    let blocks = vec![stored(0, vec![(0, minute(&[1], &[]))])];
    assert_eq!(
        get_rolling_avg(&blocks, 10, 12, 2),
        Ok(vec![None, None, None])
    );
    assert_eq!(
        get_rolling_avg(&blocks, 1, 3, 1),
        Ok(vec![means((1, 1), &[]), None, None])
    );
}

#[test]
fn every_minute_with_room_is_sampled() {
    let mins = vec![
        minute(&[1], &[]),
        minute(&[1, 2], &[]),
        minute(&[1, 2, 3], &[]),
        None,
        minute(&[1, 2, 3, 4, 5], &[]),
    ];
    assert_eq!(
        sample_windows(&mins, 1, 1),
        vec![means((6, 3), &[]), means((5, 2), &[]), means((8, 2), &[])]
    );
    assert_eq!(sample_windows(&mins, 2, 1), vec![means((11, 4), &[])]);
    assert_eq!(sample_windows(&mins, 3, 1), vec![]);
    assert_eq!(sample_windows(&mins, 5, 1), vec![]);
    assert_eq!(sample_windows(&mins, 6, 1), vec![]);
    assert_eq!(sample_windows(&vec![], 0, 1), vec![]);
}

#[test]
fn samples_stand_a_step_apart_with_gaps_between() {
    let mins: Vec<Option<Arc<AbsRecord>>> = (0..12usize)
        .map(|m| minute(&(0..m).collect::<Vec<usize>>(), &[]))
        .collect();
    let by_three = sample_windows(&mins, 1, 3);
    assert_eq!(
        by_three,
        vec![
            means((3, 3), &[]),
            None,
            None,
            means((12, 3), &[]),
            None,
            None,
            means((21, 3), &[]),
            None,
            None,
            means((30, 3), &[]),
        ]
    );
    let by_four = sample_windows(&mins, 1, 4);
    assert_eq!(by_four.len(), 9);
    assert_eq!(by_four[4], means((15, 3), &[]));
    assert_eq!(by_four[8], means((27, 3), &[]));
    assert_eq!(by_four.iter().filter(|s| s.is_some()).count(), 3);
    let by_ten = sample_windows(&mins, 1, 10);
    assert_eq!(by_ten, vec![means((3, 3), &[])]);
    let whole = sample_windows(&mins, 0, 11);
    assert_eq!(whole.len(), 12);
    assert_eq!(whole[0], means((0, 1), &[]));
    assert_eq!(whole[11], means((11, 1), &[]));
    assert!(whole[1..11].iter().all(|s| s.is_none()));
}

#[test]
fn long_range_is_thinned_to_about_a_thousand_samples() {
    let blocks = vec![stored(
        0,
        vec![(1, minute(&[1], &[])), (2, minute(&[1, 2], &[])), (30, minute(&[1, 2, 3], &[]))],
    )];
    let out = get_rolling_avg(&blocks, 1, 2001, 1).unwrap();
    assert_eq!(out.len(), 1999);
    assert_eq!(out[0], means((3, 2), &[]));
    assert_eq!(out[1], None);
    assert_eq!(out[2], None);
    assert_eq!(out[3], None);
    assert_eq!(out[27], None);
    assert_eq!(out[30], means((3, 1), &[]));
    assert_eq!(out.iter().filter(|s| s.is_some()).count(), 2);
    for (p, sample) in out.iter().enumerate() {
        if p % 3 != 0 {
            assert_eq!(*sample, None);
        }
    }
}

#[test]
fn window_is_cut_at_minute_zero() {
    assert_eq!(window_range(10, 20, 3), (7, 23));
    assert_eq!(window_range(2, 20, 3), (0, 23));
    assert_eq!(window_range(0, u64::MAX - 1, 5), (0, u64::MAX));
    assert_eq!(window_range(7, 7, 0), (7, 7));
    let blocks = vec![stored(0, vec![(0, minute(&[1], &[])), (5, minute(&[1, 2], &[]))])];
    assert_eq!(get_rolling_avg(&blocks, 0, 0, 5), Ok(vec![]));
    assert_eq!(
        get_rolling_avg(&blocks, 0, 4, 2),
        Ok(vec![means((1, 1), &[]), means((2, 1), &[]), means((2, 1), &[])])
    );
}

#[test]
fn corrupt_block_fails_the_averages() {
    let mut block = HourDef::default();
    block.tracked_mins.turn_on(0);
    block.deltas.insert(
        0,
        Record::Delta {
            joined: HashSet::new(),
            joined_categories: CategoryMap::new(),
            left: HashSet::new(),
            left_categories: CategoryMap::new(),
        },
    );
    assert_eq!(
        get_rolling_avg(&vec![block], 0, 10, 0),
        Err(CodecError::CorruptBlock)
    );
}

#[test]
fn means_clone_and_compare() {
    let a = means((3, 2), &[("staff", (1, 2)), ("guest", (2, 2))]).unwrap();
    let b = means((3, 2), &[("guest", (2, 2)), ("staff", (1, 2))]).unwrap();
    assert_eq!(a, b);
    assert_eq!(a.clone(), a);
    assert_ne!(a, means((3, 2), &[("staff", (1, 2))]).unwrap());
    assert_ne!(a, means((3, 2), &[("staff", (1, 2)), ("guest", (2, 3))]).unwrap());
}
