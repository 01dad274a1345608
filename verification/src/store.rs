//! Between the blocks that a store hands over and the hours that the queries read.

use crate::hour::{AbsRecord, Hour, HourDef};
use crate::model::{all_valid, decode, encode, CodecError, Snapshot};
use crate::utils::MinuteTimestamp;
use std::sync::Arc;
use vstd::prelude::*;

verus! {

/// The hour behind a block that may be missing.
pub fn get_hour(block: Option<&HourDef>) -> (r: Result<Option<Hour>, CodecError>)
    ensures
        match (block, r) {
            (None, Ok(None)) => true,
            (Some(b), Ok(Some(hour))) => hour._id == b._id && decode(b@) == Ok::<_, CodecError>(
                hour@,
            ),
            (Some(b), Err(e)) => e == CodecError::CorruptBlock && decode(b@) == Err::<
                Seq<Option<Snapshot>>,
                _,
            >(e),
            _ => false,
        },
{
    match block {
        None => Ok(None),
        Some(b) => match b.decode() {
            Ok(hour) => Ok(Some(hour)),
            Err(e) => Err(e),
        },
    }
}

/// The hours behind `blocks`, in the same order. One corrupt block fails them all.
pub fn get_hours(blocks: &Vec<HourDef>) -> (r: Result<Vec<Hour>, CodecError>)
    ensures
        match r {
            Ok(hours) => {
                &&& hours.len() == blocks.len()
                &&& forall|j: int|
                    0 <= j < blocks.len() ==> (#[trigger] hours[j])._id == blocks[j]._id && decode(
                        blocks[j]@,
                    ) == Ok::<_, CodecError>(hours[j]@)
            },
            Err(e) => e == CodecError::CorruptBlock && exists|j: int|
                0 <= j < blocks.len() && decode(#[trigger] blocks[j]@) is Err,
        },
{
    let mut hours: Vec<Hour> = Vec::new();
    let mut j: usize = 0;
    while j < blocks.len()
        invariant
            j <= blocks.len(),
            hours.len() == j,
            forall|i: int|
                0 <= i < j ==> (#[trigger] hours[i])._id == blocks[i]._id && decode(blocks[i]@)
                    == Ok::<_, CodecError>(hours[i]@),
        decreases blocks.len() - j,
    {
        match blocks[j].decode() {
            Ok(hour) => hours.push(hour),
            Err(e) => {
                return Err(e);
            },
        }
        j += 1;
    }
    Ok(hours)
}

/// The hour that `min_ts` falls in.
pub open spec fn hour_of(min_ts: MinuteTimestamp) -> int {
    min_ts as int / 60
}

/// The block of the hour of `min_ts` once `record` stands at that minute:
/// `block` decoded, or an empty hour where there is none, with the one slot
/// replaced, encoded again.
pub fn add_record(block: Option<&HourDef>, min_ts: MinuteTimestamp, record: AbsRecord) -> (r:
    Result<HourDef, CodecError>)
    requires
        hour_of(min_ts) <= u32::MAX,
    ensures
        match block {
            Some(b) => match decode(b@) {
                Ok(before) => stored_after(before, b._id, min_ts, record@, r),
                Err(e) => r matches Err(f) && e == f,
            },
            None => stored_after(
                Seq::new(60, |m: int| None::<Snapshot>),
                hour_of(min_ts) as u32,
                min_ts,
                record@,
                r,
            ),
        },
{
    let found = match get_hour(block) {
        Ok(found) => found,
        Err(e) => {
            return Err(e);
        },
    };
    let mut hour = match found {
        Some(hour) => hour,
        None => Hour::new((min_ts / 60) as u32),
    };
    let ghost before = hour@;
    assert(block is None ==> before =~= Seq::new(60, |m: int| None::<Snapshot>));
    let slot = (min_ts % 60) as usize;
    hour.records[slot] = Some(Arc::new(record));
    assert(hour@ =~= before.update(slot as int, Some(record@)));
    HourDef::encode(&hour)
}

/// What `add_record` returns for an hour `before`, with the id `id`, and the
/// snapshot `s` at minute `min_ts`.
pub open spec fn stored_after(
    before: Seq<Option<Snapshot>>,
    id: u32,
    min_ts: MinuteTimestamp,
    s: Snapshot,
    r: Result<HourDef, CodecError>,
) -> bool {
    let after = before.update(min_ts as int % 60, Some(s));
    match r {
        Ok(block) => all_valid(after) && block._id == id && block@ == encode(after)
            && block.tracked_mins.in_range(),
        Err(e) => e == CodecError::InvariantViolation && !all_valid(after),
    }
}

} // verus!
