//! One flat sequence of minutes out of the hours that cover a range.

use crate::codec::share_slot;
use crate::hour::{snapshot_of, AbsRecord, Hour, HourDef};
use crate::model::{decode, CodecError, Snapshot};
use crate::store::get_hours;
use crate::utils::MinuteTimestamp;
use itertools::Itertools;
use std::sync::Arc;
use vstd::prelude::*;

verus! {

/// The test that picks the hours with the id `id`.
pub open spec fn has_id(id: u32) -> spec_fn(Hour) -> bool {
    |hour: Hour| hour._id == id
}

/// The hours in ascending order of their id. Wraps itertools'
/// `sorted_by_cached_key`, which collects the items, sorts them with the
/// slice's `sort_by_cached_key` by the key that the closure picks, and hands
/// them back: the same hours, each as often as before, with ids that never
/// decrease, and the hours of one id in the order they came in.
#[verifier::external_body]
fn sorted_by_id(hours: Vec<Hour>) -> (sorted: Vec<Hour>)
    ensures
        sorted@.to_multiset() == hours@.to_multiset(),
        forall|i: int, j: int| 0 <= i <= j < sorted.len() ==> sorted[i]._id <= sorted[j]._id,
        forall|id: u32| #[trigger] sorted@.filter(has_id(id)) == hours@.filter(has_id(id)),
{
    hours.into_iter().sorted_by_cached_key(|hour| hour._id).collect()
}

/// The snapshots behind a sequence of slots.
pub open spec fn snapshots_of(mins: Seq<Option<Arc<AbsRecord>>>) -> Seq<Option<Snapshot>> {
    Seq::new(mins.len(), |k: int| snapshot_of(mins[k]))
}

/// Hour `j` is the first of `hours` with the id `id`.
pub open spec fn first_with(hours: Seq<Hour>, id: int, j: int) -> bool {
    &&& 0 <= j < hours.len()
    &&& hours[j]._id == id
    &&& forall|i: int| 0 <= i < j ==> (#[trigger] hours[i])._id != id
}

/// `slot` is what `hours` hold for `minute`: the slot of that minute in the
/// first hour with the right id, or nothing where no hour has that id.
pub open spec fn held_at(hours: Seq<Hour>, minute: int, slot: Option<Arc<AbsRecord>>) -> bool {
    ||| exists|j: int| #[trigger]
        first_with(hours, minute / 60, j) && slot == hours[j].records[minute % 60]
    ||| slot is None && forall|j: int|
        0 <= j < hours.len() ==> (#[trigger] hours[j])._id != minute / 60
}

/// The slots of the minutes `from..=to`, in order, out of `hours`, which may
/// come in any order. An hour that `hours` lacks counts as an hour in which
/// nothing was recorded. Where several hours share an id, the first is read.
pub fn assemble(hours: Vec<Hour>, from: MinuteTimestamp, to: MinuteTimestamp) -> (mins: Vec<
    Option<Arc<AbsRecord>>,
>)
    requires
        from <= to,
        to - from < usize::MAX,
    ensures
        mins.len() == to - from + 1,
        forall|k: int| 0 <= k < mins.len() ==> held_at(hours@, from + k, #[trigger] mins[k]),
        (forall|j: int|
            0 <= j < hours.len() ==> !(from / 60 <= (#[trigger] hours[j])._id <= to / 60))
            ==> forall|k: int| 0 <= k < mins.len() ==> (#[trigger] mins[k]) is None,
{
    let ghost given = hours@;
    let sorted = sorted_by_id(hours);
    let n = (to - from) as usize + 1;
    let mut mins: Vec<Option<Arc<AbsRecord>>> = Vec::new();
    let mut j: usize = 0;
    let mut k: usize = 0;
    while k < n
        invariant
            n == to - from + 1,
            k <= n,
            j <= sorted.len(),
            mins.len() == k,
            forall|id: u32| #[trigger] sorted@.filter(has_id(id)) == given.filter(has_id(id)),
            forall|a: int, b: int| 0 <= a <= b < sorted.len() ==> sorted[a]._id <= sorted[b]._id,
            forall|i: int| 0 <= i < j ==> (#[trigger] sorted[i])._id < (from + k) / 60,
            forall|i: int| 0 <= i < k ==> held_at(given, from + i, #[trigger] mins[i]),
        decreases n - k,
    {
        let minute = from + k as u64;
        let id = minute / 60;
        while j < sorted.len() && (sorted[j]._id as u64) < id
            invariant
                j <= sorted.len(),
                id == (from + k) / 60,
                forall|i: int| 0 <= i < j ==> (#[trigger] sorted[i])._id < id,
            decreases sorted.len() - j,
        {
            j += 1;
        }
        let slot = if j < sorted.len() && sorted[j]._id as u64 == id {
            share_slot(&sorted[j].records[(minute % 60) as usize])
        } else {
            None
        };
        proof {
            if j < sorted.len() && sorted[j as int]._id == id {
                assert(first_with(sorted@, minute as int / 60, j as int));
                lemma_found(sorted@, given, j as int, minute as int, slot);
            } else {
                lemma_absent(sorted@, given, j as int, minute as int);
            }
        }
        mins.push(slot);
        k += 1;
    }
    proof {
        if forall|j: int|
            0 <= j < given.len() ==> !(from / 60 <= (#[trigger] given[j])._id <= to / 60) {
            assert forall|k: int| 0 <= k < mins.len() implies (#[trigger] mins[k]) is None by {
                assert(held_at(given, from + k, mins[k]));
                assert(from / 60 <= (from + k) / 60 <= to / 60);
            }
        }
    }
    mins
}

/// Among the hours up to one with the id `id`, one is the first with that id.
proof fn lemma_has_first(hours: Seq<Hour>, id: int, i: int)
    requires
        0 <= i < hours.len(),
        hours[i]._id == id,
    ensures
        exists|j: int| #[trigger] first_with(hours, id, j) && j <= i,
    decreases i,
{
    if exists|k: int| 0 <= k < i && (#[trigger] hours[k])._id == id {
        let k = choose|k: int| 0 <= k < i && (#[trigger] hours[k])._id == id;
        lemma_has_first(hours, id, k);
        let j = choose|j: int| #[trigger] first_with(hours, id, j) && j <= k;
        assert(first_with(hours, id, j) && j <= i);
    } else {
        assert(first_with(hours, id, i));
    }
}

/// Picking the hours with an id picks none where no hour has it, and picks
/// the first hour with it first.
proof fn lemma_picked(hours: Seq<Hour>, id: u32)
    ensures
        (forall|i: int| 0 <= i < hours.len() ==> (#[trigger] hours[i])._id != id)
            ==> hours.filter(has_id(id)).len() == 0,
        forall|j: int| #[trigger]
            first_with(hours, id as int, j) ==> hours.filter(has_id(id)).len() > 0
                && hours.filter(has_id(id))[0] == hours[j],
    decreases hours.len(),
{
    reveal(Seq::filter);
    if hours.len() > 0 {
        let rest = hours.drop_last();
        lemma_picked(rest, id);
        assert forall|j: int| #[trigger] first_with(hours, id as int, j) implies hours.filter(
            has_id(id),
        ).len() > 0 && hours.filter(has_id(id))[0] == hours[j] by {
            if j < rest.len() {
                assert(first_with(rest, id as int, j)) by {
                    assert forall|i: int| 0 <= i < j implies (#[trigger] rest[i])._id != id by {
                        assert(rest[i] == hours[i]);
                    }
                }
            } else {
                assert forall|i: int| 0 <= i < rest.len() implies (#[trigger] rest[i])._id
                    != id by {
                    assert(rest[i] == hours[i]);
                }
            }
        }
        if forall|i: int| 0 <= i < hours.len() ==> (#[trigger] hours[i])._id != id {
            assert forall|i: int| 0 <= i < rest.len() implies (#[trigger] rest[i])._id != id by {
                assert(rest[i] == hours[i]);
            }
        }
    }
}

/// The hour at place `j` of the sorted list is its first with the id of
/// `minute`: its slot is the one that the given hours hold.
proof fn lemma_found(
    sorted: Seq<Hour>,
    given: Seq<Hour>,
    j: int,
    minute: int,
    slot: Option<Arc<AbsRecord>>,
)
    requires
        forall|id: u32| #[trigger] sorted.filter(has_id(id)) == given.filter(has_id(id)),
        first_with(sorted, minute / 60, j),
        slot == sorted[j].records[minute % 60],
    ensures
        held_at(given, minute, slot),
{
    let id = sorted[j]._id;
    lemma_picked(sorted, id);
    lemma_picked(given, id);
    let picked = sorted.filter(has_id(id));
    assert(picked == given.filter(has_id(id)));
    assert(picked.len() > 0 && picked[0] == sorted[j]);
    let some = choose|i: int| 0 <= i < given.len() && (#[trigger] given[i])._id == id;
    lemma_has_first(given, id as int, some);
    let first = choose|first: int| #[trigger] first_with(given, id as int, first) && first <= some;
    assert(first_with(given, minute / 60, first));
    assert(given[first] == sorted[j]);
}

/// The sorted list passes from ids below that of `minute` to ids above it at
/// place `j`: no hour has the id.
proof fn lemma_absent(sorted: Seq<Hour>, given: Seq<Hour>, j: int, minute: int)
    requires
        forall|id: u32| #[trigger] sorted.filter(has_id(id)) == given.filter(has_id(id)),
        0 <= j <= sorted.len(),
        forall|a: int, b: int| 0 <= a <= b < sorted.len() ==> sorted[a]._id <= sorted[b]._id,
        forall|i: int| 0 <= i < j ==> (#[trigger] sorted[i])._id < minute / 60,
        j < sorted.len() ==> sorted[j]._id > minute / 60,
    ensures
        held_at(given, minute, None),
{
    if exists|i: int| 0 <= i < given.len() && (#[trigger] given[i])._id == minute / 60 {
        let i = choose|i: int| 0 <= i < given.len() && (#[trigger] given[i])._id == minute / 60;
        let id = given[i]._id;
        lemma_has_first(given, id as int, i);
        lemma_picked(given, id);
        lemma_picked(sorted, id);
        assert(sorted.filter(has_id(id)) == given.filter(has_id(id)));
        assert forall|k: int| 0 <= k < sorted.len() implies (#[trigger] sorted[k])._id != id by {
            if k >= j {
                assert(sorted[j]._id <= sorted[k]._id);
            }
        }
    }
}

/// Block `j` is the first of `blocks` with the id `id`.
pub open spec fn first_block(blocks: Seq<HourDef>, id: int, j: int) -> bool {
    &&& 0 <= j < blocks.len()
    &&& blocks[j]._id == id
    &&& forall|i: int| 0 <= i < j ==> (#[trigger] blocks[i])._id != id
}

/// `value` is what `blocks` store for `minute`: the value of that minute in
/// the first block with the right id, or nothing where no block has that id.
pub open spec fn stored_at(blocks: Seq<HourDef>, minute: int, value: Option<Snapshot>) -> bool {
    ||| exists|j: int| #[trigger]
        first_block(blocks, minute / 60, j) && decode(blocks[j]@) is Ok && value == decode(
            blocks[j]@,
        )->Ok_0[minute % 60]
    ||| value is None && forall|j: int|
        0 <= j < blocks.len() ==> (#[trigger] blocks[j])._id != minute / 60
}

/// `mins` gives, for each minute of `from..=to`, what `blocks` store for it.
pub open spec fn reads(
    blocks: Seq<HourDef>,
    from: int,
    to: int,
    mins: Seq<Option<Snapshot>>,
) -> bool {
    &&& mins.len() == to - from + 1
    &&& forall|k: int| 0 <= k < mins.len() ==> stored_at(blocks, from + k, #[trigger] mins[k])
}

/// The snapshots of the minutes `from..=to`, in order, out of the stored
/// blocks of the hours that the range touches. An hour without a block reads
/// as sixty empty minutes; of several blocks with one id the first is read.
/// One corrupt block fails the query.
pub fn get_minutes(blocks: &Vec<HourDef>, from: MinuteTimestamp, to: MinuteTimestamp) -> (r: Result<
    Vec<Option<Arc<AbsRecord>>>,
    CodecError,
>)
    requires
        from <= to,
        to - from < usize::MAX,
    ensures
        match r {
            Ok(mins) => {
                &&& forall|j: int| 0 <= j < blocks.len() ==> decode(#[trigger] blocks[j]@) is Ok
                &&& mins.len() == to - from + 1
                &&& reads(blocks@, from as int, to as int, snapshots_of(mins@))
                &&& (forall|j: int|
                    0 <= j < blocks.len() ==> !(from / 60 <= (#[trigger] blocks[j])._id <= to / 60))
                    ==> forall|k: int| 0 <= k < mins.len() ==> (#[trigger] mins[k]) is None
            },
            Err(e) => e == CodecError::CorruptBlock && exists|j: int|
                0 <= j < blocks.len() && decode(#[trigger] blocks[j]@) is Err,
        },
{
    let hours = match get_hours(blocks) {
        Ok(hours) => hours,
        Err(e) => {
            return Err(e);
        },
    };
    let ghost decoded = hours@;
    let mins = assemble(hours, from, to);
    proof {
        assert forall|j: int| 0 <= j < blocks.len() implies decode(#[trigger] blocks[j]@) is Ok by {
            assert(decoded[j]._id == blocks[j]._id);
        }
        assert forall|k: int| 0 <= k < mins.len() implies stored_at(
            blocks@,
            from + k,
            snapshot_of(#[trigger] mins[k]),
        ) by {
            let minute = from + k;
            assert(held_at(decoded, minute, mins[k]));
            if exists|j: int| #[trigger]
                first_with(decoded, minute / 60, j) && mins[k] == decoded[j].records[minute % 60] {
                let j = choose|j: int| #[trigger]
                    first_with(decoded, minute / 60, j) && mins[k] == decoded[j].records[minute
                        % 60];
                assert(first_block(blocks@, minute / 60, j)) by {
                    assert(decoded[j]._id == blocks[j]._id);
                    assert forall|i: int| 0 <= i < j implies (#[trigger] blocks[i])._id != minute
                        / 60 by {
                        assert(decoded[i]._id == blocks[i]._id);
                    }
                }
                assert(decoded[j]@[minute % 60] == snapshot_of(mins[k]));
            } else {
                assert forall|j: int| 0 <= j < blocks.len() implies (#[trigger] blocks[j])._id
                    != minute / 60 by {
                    assert(decoded[j]._id == blocks[j]._id);
                }
            }
        }
        assert forall|k: int| 0 <= k < mins.len() implies stored_at(
            blocks@,
            from + k,
            #[trigger] snapshots_of(mins@)[k],
        ) by {
            assert(stored_at(blocks@, from + k, snapshot_of(mins[k])));
        }
        if forall|j: int|
            0 <= j < blocks.len() ==> !(from / 60 <= (#[trigger] blocks[j])._id <= to / 60) {
            assert forall|j: int| 0 <= j < decoded.len() implies !(from / 60 <= (
            #[trigger] decoded[j])._id <= to / 60) by {
                assert(decoded[j]._id == blocks[j]._id);
            }
        }
    }
    Ok(mins)
}

} // verus!
