//! The stretches of minutes during which one entity was present.

use crate::hour::{AbsRecord, HourDef};
use crate::model::{decode, CodecError, Snapshot};
use crate::range::{get_minutes, reads, snapshots_of};
use crate::utils::MinuteTimestamp;
use std::sync::Arc;
use vstd::prelude::*;

verus! {

broadcast use vstd::std_specs::hash::group_hash_axioms;

/// Whether `player` is present at minute `t`, where `mins` starts at minute
/// `from`. Outside `mins` nobody is present.
pub open spec fn here(mins: Seq<Option<Snapshot>>, from: int, player: usize, t: int) -> bool {
    from <= t < from + mins.len() && mins[t - from] is Some && mins[t - from]->0.all.contains(
        player,
    )
}

/// `player` is present all through `a..=b` and neither just before nor just after.
pub open spec fn is_run(
    mins: Seq<Option<Snapshot>>,
    from: int,
    player: usize,
    a: int,
    b: int,
) -> bool {
    &&& a <= b
    &&& forall|t: int| a <= t <= b ==> #[trigger] here(mins, from, player, t)
    &&& !here(mins, from, player, a - 1)
    &&& !here(mins, from, player, b + 1)
}

/// `runs` lists, in order of time, every stretch of presence of `player`.
pub open spec fn lists_runs(
    mins: Seq<Option<Snapshot>>,
    from: int,
    player: usize,
    runs: Seq<(MinuteTimestamp, MinuteTimestamp)>,
) -> bool {
    &&& forall|i: int|
        0 <= i < runs.len() ==> is_run(
            mins,
            from,
            player,
            (#[trigger] runs[i]).0 as int,
            runs[i].1 as int,
        )
    &&& forall|i: int, j: int|
        0 <= i < j < runs.len() ==> (#[trigger] runs[i]).1 < (#[trigger] runs[j]).0
    &&& forall|t: int| #[trigger]
        here(mins, from, player, t) ==> exists|i: int|
            0 <= i < runs.len() && (#[trigger] runs[i]).0 <= t <= runs[i].1
}

/// The stretches of presence of `player` in `mins`, whose first slot is minute
/// `from`: each as its first and last minute, in order of time.
pub fn join_times(
    mins: &Vec<Option<Arc<AbsRecord>>>,
    from: MinuteTimestamp,
    player: usize,
) -> (runs: Vec<(MinuteTimestamp, MinuteTimestamp)>)
    requires
        from + mins.len() <= u64::MAX + 1,
    ensures
        lists_runs(snapshots_of(mins@), from as int, player, runs@),
{
    let ghost seq = snapshots_of(mins@);
    let mut runs: Vec<(MinuteTimestamp, MinuteTimestamp)> = Vec::new();
    let mut start: Option<MinuteTimestamp> = None;
    let mut k: usize = 0;
    while k < mins.len()
        invariant
            k <= mins.len(),
            from + mins.len() <= u64::MAX + 1,
            seq == snapshots_of(mins@),
            forall|i: int|
                0 <= i < runs.len() ==> is_run(
                    seq,
                    from as int,
                    player,
                    (#[trigger] runs[i]).0 as int,
                    runs[i].1 as int,
                ),
            forall|i: int, j: int|
                0 <= i < j < runs.len() ==> (#[trigger] runs[i]).1 < (#[trigger] runs[j]).0,
            forall|i: int| 0 <= i < runs.len() ==> (#[trigger] runs[i]).1 < from + k,
            match start {
                Some(a) => {
                    &&& from <= a < from + k
                    &&& forall|t: int|
                        a <= t < from + k ==> #[trigger] here(seq, from as int, player, t)
                    &&& !here(seq, from as int, player, a - 1)
                    &&& forall|i: int| 0 <= i < runs.len() ==> (#[trigger] runs[i]).1 < a
                },
                None => !here(seq, from as int, player, from + k - 1),
            },
            forall|t: int|
                t < from + k && #[trigger] here(seq, from as int, player, t) ==> (start is Some
                    && start->0 <= t) || exists|i: int|
                    0 <= i < runs.len() && (#[trigger] runs[i]).0 <= t <= runs[i].1,
        decreases mins.len() - k,
    {
        let minute = from + k as u64;
        let inside = match &mins[k] {
            Some(record) => record.all.contains(&player),
            None => false,
        };
        assert(inside == here(seq, from as int, player, minute as int));
        if inside {
            if start.is_none() {
                start = Some(minute);
            }
        } else {
            if let Some(a) = start {
                let ghost closed = runs@;
                runs.push((a, minute - 1));
                start = None;
                proof {
                    assert forall|t: int|
                        t < from + k + 1 && #[trigger] here(
                            seq,
                            from as int,
                            player,
                            t,
                        ) implies exists|i: int|
                        0 <= i < runs.len() && (#[trigger] runs[i]).0 <= t <= runs[i].1 by {
                        if a <= t {
                            assert(runs[closed.len() as int].0 <= t <= runs[closed.len() as int].1);
                        } else {
                            let i = choose|i: int|
                                0 <= i < closed.len() && (#[trigger] closed[i]).0 <= t
                                    <= closed[i].1;
                            assert(runs[i] == closed[i]);
                        }
                    }
                }
            }
        }
        k += 1;
    }
    if let Some(a) = start {
        let ghost closed = runs@;
        let last = from + (mins.len() - 1) as u64;
        runs.push((a, last));
        proof {
            assert forall|t: int| #[trigger]
                here(seq, from as int, player, t) implies exists|i: int|
                0 <= i < runs.len() && (#[trigger] runs[i]).0 <= t <= runs[i].1 by {
                if a <= t {
                    assert(runs[closed.len() as int].0 <= t <= runs[closed.len() as int].1);
                } else {
                    let i = choose|i: int|
                        0 <= i < closed.len() && (#[trigger] closed[i]).0 <= t <= closed[i].1;
                    assert(runs[i] == closed[i]);
                }
            }
        }
    }
    runs
}

/// The stretches of presence of `player` during the minutes `from..=to`, read
/// out of the stored blocks of the hours that the range touches.
pub fn get_player_join_times(
    blocks: &Vec<HourDef>,
    from: MinuteTimestamp,
    to: MinuteTimestamp,
    player: usize,
) -> (r: Result<Vec<(MinuteTimestamp, MinuteTimestamp)>, CodecError>)
    requires
        from <= to,
        to - from < usize::MAX,
    ensures
        match r {
            Ok(runs) => exists|mins: Seq<Option<Snapshot>>| #[trigger]
                reads(blocks@, from as int, to as int, mins) && lists_runs(
                    mins,
                    from as int,
                    player,
                    runs@,
                ),
            Err(e) => e == CodecError::CorruptBlock && exists|j: int|
                0 <= j < blocks.len() && decode(#[trigger] blocks[j]@) is Err,
        },
{
    let mins = match get_minutes(blocks, from, to) {
        Ok(mins) => mins,
        Err(e) => {
            return Err(e);
        },
    };
    let runs = join_times(&mins, from, player);
    assert(reads(blocks@, from as int, to as int, snapshots_of(mins@)));
    Ok(runs)
}

} // verus!
