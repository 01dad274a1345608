//! The codec between an expanded hour and its stored block.

use crate::hour::{snapshot_of, AbsRecord, Hour, HourDef, Record};
use crate::laws::{lemma_decode_fails, lemma_decode_fails_where};
use crate::model::{
    all_valid, corrupt, decode, decode_prefix, decode_slot, encode, encode_entry, CodecError,
    Snapshot,
};
use crate::utils::BitField64;
use std::collections::HashMap;
use std::sync::Arc;
use vstd::prelude::*;

verus! {

broadcast use vstd::std_specs::hash::group_hash_axioms;

/// Another handle on the snapshot behind `record`. Wraps `Arc::clone`, which
/// hands out a new pointer to the same allocation and leaves the value alone.
#[verifier::external_body]
fn share(record: &Arc<AbsRecord>) -> (shared: Arc<AbsRecord>)
    ensures
        shared == *record,
{
    Arc::clone(record)
}

/// The slot again, sharing the snapshot where there is one.
pub fn share_slot(slot: &Option<Arc<AbsRecord>>) -> (shared: Option<Arc<AbsRecord>>)
    ensures
        shared == *slot,
{
    match slot {
        Some(record) => Some(share(record)),
        None => None,
    }
}

impl HourDef {
    /// The stored form of `hour`. A minute with a snapshot is flagged and gets
    /// an entry: the snapshot itself where the minute before has none, the
    /// step from the minute before otherwise. An hour with a snapshot that
    /// breaks the subset rule is refused.
    pub fn encode(hour: &Hour) -> (r: Result<HourDef, CodecError>)
        ensures
            match r {
                Ok(block) => {
                    &&& all_valid(hour@)
                    &&& block._id == hour._id
                    &&& block@ == encode(hour@)
                    &&& block.tracked_mins.in_range()
                },
                Err(e) => e == CodecError::InvariantViolation && !all_valid(hour@),
            },
    {
        let mut block = HourDef {
            _id: hour._id,
            tracked_mins: BitField64::default(),
            deltas: HashMap::new(),
        };
        let mut m: usize = 0;
        while m < 60
            invariant
                m <= 60,
                block._id == hour._id,
                block.tracked_mins.in_range(),
                block.tracked_mins.minutes() == Set::new(|j: int| 0 <= j < m && hour@[j] is Some),
                forall|k: usize|
                    block.deltas@.contains_key(k) <==> k < m && hour@[k as int] is Some,
                forall|k: usize|
                    block.deltas@.contains_key(k) ==> (#[trigger] block.deltas@[k])@
                        == encode_entry(hour@, k as int),
                forall|j: int| 0 <= j < m && hour@[j] is Some ==> (#[trigger] hour@[j])->0.valid(),
            decreases 60 - m,
        {
            match &hour.records[m] {
                None => {},
                Some(record) => {
                    if !record.is_valid() {
                        assert(hour@[m as int] is Some && !hour@[m as int]->0.valid());
                        return Err(CodecError::InvariantViolation);
                    }
                    block.tracked_mins.turn_on(m as i32);
                    let entry = if m == 0 {
                        Record::Abs((**record).clone())
                    } else {
                        match &hour.records[m - 1] {
                            None => Record::Abs((**record).clone()),
                            Some(prev) => prev.delta_to(record),
                        }
                    };
                    block.deltas.insert(m, entry);
                },
            }
            proof {
                assert(block.tracked_mins.minutes() =~= Set::new(
                    |j: int| 0 <= j < m + 1 && hour@[j] is Some,
                ));
            }
            m += 1;
        }
        proof {
            assert(block@.mask =~= encode(hour@).mask);
            assert(block@.entries =~= encode(hour@).entries);
        }
        Ok(block)
    }

    /// The sixty slots that the block stands for. A minute that is not flagged
    /// is empty; a flagged minute holds its stored snapshot, or the snapshot
    /// of the minute before with the stored step applied, or, where nothing is
    /// stored for it, the value of the minute before. A step with no snapshot
    /// before it makes the block corrupt.
    pub fn decode(&self) -> (r: Result<Hour, CodecError>)
        ensures
            match r {
                Ok(hour) => hour._id == self._id && decode(self@) == Ok::<_, CodecError>(hour@),
                Err(e) => e == CodecError::CorruptBlock && decode(self@) == Err::<
                    Seq<Option<Snapshot>>,
                    _,
                >(e),
            },
            r is Err <==> corrupt(self@),
    {
        proof {
            lemma_decode_fails_where(self@);
        }
        let mut hour = Hour::new(self._id);
        let mut m: usize = 0;
        assert(hour@.take(0) =~= Seq::empty());
        while m < 60
            invariant
                m <= 60,
                hour._id == self._id,
                decode_prefix(self@, m as nat) == Ok::<_, CodecError>(hour@.take(m as int)),
                decode(self@) is Err <==> corrupt(self@),
                forall|j: int| m <= j < 60 ==> hour.records[j] is None,
            decreases 60 - m,
        {
            let ghost head = hour@.take(m as int);
            let ghost prev = if m == 0 {
                None
            } else {
                hour@[m - 1]
            };
            assert(m > 0 ==> head[m - 1] == hour@[m - 1]);
            if self.tracked_mins.is_on(m as i32) {
                let slot = match self.deltas.get(&m) {
                    Some(Record::Abs(record)) => Some(Arc::new(record.clone())),
                    Some(Record::Delta { joined, joined_categories, left, left_categories }) => {
                        if m == 0 {
                            proof {
                                lemma_decode_fails(self@, 1);
                            }
                            return Err(CodecError::CorruptBlock);
                        }
                        match &hour.records[m - 1] {
                            None => {
                                proof {
                                    lemma_decode_fails(self@, m as nat + 1);
                                }
                                return Err(CodecError::CorruptBlock);
                            },
                            Some(before) => Some(
                                Arc::new(
                                    before.apply(joined, joined_categories, left, left_categories),
                                ),
                            ),
                        }
                    },
                    None => if m == 0 {
                        None
                    } else {
                        share_slot(&hour.records[m - 1])
                    },
                };
                assert(decode_slot(self@, m as int, prev) == Ok::<_, CodecError>(
                    snapshot_of(slot),
                ));
                hour.records[m] = slot;
            }
            proof {
                assert(hour@.take(m + 1) =~= head.push(hour@[m as int]));
            }
            m += 1;
        }
        proof {
            assert(hour@.take(60) =~= hour@);
        }
        Ok(hour)
    }
}

} // verus!
