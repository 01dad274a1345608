//! Snapshots, hour blocks and expanded hours as the program holds them.

use crate::category::{
    lemma_all_labels, lemma_next_label, lemma_sets_insert, members_at, sets_of, CategoryMap,
};
use crate::laws::lemma_delta_tidy;
use crate::model::{gain_at, gained, members_of, stepped_at, Block, Delta, Entry, Snapshot};
use crate::sets::{copy_of, difference, is_subset, union};
use crate::utils::{BitField64, HourTimestamp};
use std::collections::{HashMap, HashSet};
use std::sync::Arc;
use vstd::prelude::*;

verus! {

broadcast use vstd::std_specs::hash::group_hash_axioms;

/// Who is present at one minute: everybody, and the members of each category.
#[derive(Debug, PartialEq, Eq)]
pub struct AbsRecord {
    pub all: HashSet<usize>,
    pub categories: CategoryMap<HashSet<usize>>,
}

impl View for AbsRecord {
    type V = Snapshot;

    open spec fn view(&self) -> Snapshot {
        Snapshot { all: self.all@, categories: sets_of(self.categories) }
    }
}

impl Clone for AbsRecord {
    fn clone(&self) -> (r: Self)
        ensures
            r@ == self@,
    {
        AbsRecord { all: copy_of(&self.all), categories: self.categories.clone() }
    }
}

impl Default for AbsRecord {
    /// The snapshot with nobody present.
    fn default() -> (r: Self)
        ensures
            r@ == (Snapshot { all: Set::empty(), categories: Map::empty() }),
    {
        let r = AbsRecord { all: HashSet::new(), categories: CategoryMap::new() };
        assert(r@.categories =~= Map::empty());
        r
    }
}

/// What an hour block stores for a minute: a snapshot, or the step from the minute before.
#[derive(Debug, PartialEq, Eq)]
pub enum Record {
    Abs(AbsRecord),
    Delta {
        joined: HashSet<usize>,
        joined_categories: CategoryMap<HashSet<usize>>,
        left: HashSet<usize>,
        left_categories: CategoryMap<HashSet<usize>>,
    },
}

impl View for Record {
    type V = Entry;

    open spec fn view(&self) -> Entry {
        match *self {
            Record::Abs(r) => Entry::Abs(r@),
            Record::Delta { joined, joined_categories, left, left_categories } => Entry::Delta(
                Delta {
                    joined: joined@,
                    joined_categories: sets_of(joined_categories),
                    left: left@,
                    left_categories: sets_of(left_categories),
                },
            ),
        }
    }
}

impl Clone for Record {
    fn clone(&self) -> (r: Self)
        ensures
            r@ == self@,
    {
        match self {
            Record::Abs(record) => Record::Abs(record.clone()),
            Record::Delta { joined, joined_categories, left, left_categories } => Record::Delta {
                joined: copy_of(joined),
                joined_categories: joined_categories.clone(),
                left: copy_of(left),
                left_categories: left_categories.clone(),
            },
        }
    }
}

impl Default for Record {
    /// The snapshot with nobody present.
    fn default() -> (r: Self)
        ensures
            r@ == Entry::Abs(Snapshot { all: Set::empty(), categories: Map::empty() }),
    {
        Record::Abs(AbsRecord::default())
    }
}

/// The snapshot behind a slot of an expanded hour.
pub open spec fn snapshot_of(slot: Option<Arc<AbsRecord>>) -> Option<Snapshot> {
    match slot {
        Some(r) => Some(r@),
        None => None,
    }
}

/// An hour in expanded form: one slot per minute, empty where nothing was recorded.
#[derive(Debug, Clone, PartialEq, Eq)]
pub struct Hour {
    pub _id: HourTimestamp,
    pub records: [Option<Arc<AbsRecord>>; 60],
}

impl View for Hour {
    type V = Seq<Option<Snapshot>>;

    open spec fn view(&self) -> Seq<Option<Snapshot>> {
        Seq::new(60, |m: int| snapshot_of(self.records[m]))
    }
}

impl Hour {
    /// The hour `timestamp` with nothing recorded.
    #[must_use]
    pub fn new(timestamp: HourTimestamp) -> (hour: Self)
        ensures
            hour._id == timestamp,
            forall|m: int| 0 <= m < 60 ==> hour.records[m] is None,
    {
        Hour {
            _id: timestamp,
            records: [
                None, None, None, None, None, None, None, None, None, None,
                None, None, None, None, None, None, None, None, None, None,
                None, None, None, None, None, None, None, None, None, None,
                None, None, None, None, None, None, None, None, None, None,
                None, None, None, None, None, None, None, None, None, None,
                None, None, None, None, None, None, None, None, None, None,
            ],
        }
    }
}

impl Default for Hour {
    /// Hour zero with nothing recorded.
    fn default() -> (hour: Self)
        ensures
            hour._id == 0,
            forall|m: int| 0 <= m < 60 ==> hour.records[m] is None,
    {
        Hour::new(0)
    }
}

/// An hour in stored form.
#[derive(Debug, Clone, PartialEq, Eq)]
pub struct HourDef {
    pub _id: HourTimestamp,
    pub tracked_mins: BitField64,
    pub deltas: HashMap<usize, Record>,
}

impl View for HourDef {
    type V = Block;

    open spec fn view(&self) -> Block {
        Block {
            mask: self.tracked_mins.minutes(),
            entries: Map::new(
                |m: int| 0 <= m <= usize::MAX && self.deltas@.contains_key(m as usize),
                |m: int| self.deltas@[m as usize]@,
            ),
        }
    }
}

impl Default for HourDef {
    /// The block of hour zero with nothing recorded.
    fn default() -> (block: Self)
        ensures
            block._id == 0,
            block@ == (Block { mask: Set::empty(), entries: Map::empty() }),
            block.tracked_mins.in_range(),
    {
        let block = HourDef { _id: 0, tracked_mins: BitField64::default(), deltas: HashMap::new() };
        assert(block@.entries =~= Map::empty());
        block
    }
}

impl AbsRecord {
    /// Whether every category is a subset of `all`.
    pub fn is_valid(&self) -> (ok: bool)
        ensures
            ok == self@.valid(),
    {
        let n = self.categories.len();
        let mut i: usize = 0;
        while i < n
            invariant
                self.categories.wf(),
                n == self.categories.names().len(),
                i <= n,
                forall|j: int|
                    0 <= j < i ==> (#[trigger] self.categories.values()[j])@.subset_of(self.all@),
            decreases n - i,
        {
            if !is_subset(self.categories.value(i), &self.all) {
                proof {
                    let c = self.categories.names()[i as int];
                    self.categories.lemma_entry(i as int);
                    assert(self@.categories.contains_key(c));
                    assert(self@.categories[c] == self.categories.values()[i as int]@);
                }
                return false;
            }
            i += 1;
        }
        proof {
            assert forall|c: Seq<char>| #[trigger]
                self@.categories.contains_key(c) implies self@.categories[c].subset_of(
                self@.all,
            ) by {
                self.categories.lemma_keys();
                let j = self.categories.names().index_of(c);
                self.categories.names().index_of_first_ensures(c);
                self.categories.lemma_entry(j);
                assert(self.categories.values()[j]@.subset_of(self.all@));
            }
        }
        true
    }

    /// The step that leads from `self` to `next`: who joined and who left,
    /// overall and in each category where somebody did.
    pub fn delta_to(&self, next: &AbsRecord) -> (step: Record)
        ensures
            step@ == Entry::Delta(self@.delta_to(next@)),
            self@.delta_to(next@).tidy(),
    {
        proof {
            lemma_delta_tidy(self@, next@);
        }
        Record::Delta {
            joined: difference(&next.all, &self.all),
            joined_categories: gained_sets(&self.categories, &next.categories),
            left: difference(&self.all, &next.all),
            left_categories: gained_sets(&next.categories, &self.categories),
        }
    }

    /// The snapshot that the step made of the four arguments leads to from `self`.
    pub fn apply(
        &self,
        joined: &HashSet<usize>,
        joined_categories: &CategoryMap<HashSet<usize>>,
        left: &HashSet<usize>,
        left_categories: &CategoryMap<HashSet<usize>>,
    ) -> (next: AbsRecord)
        ensures
            next@ == self@.apply(
                Delta {
                    joined: joined@,
                    joined_categories: sets_of(*joined_categories),
                    left: left@,
                    left_categories: sets_of(*left_categories),
                },
            ),
    {
        let all = difference(&union(&self.all, joined), left);
        let mut categories: CategoryMap<HashSet<usize>> = CategoryMap::new();
        extend_stepped(
            &mut categories,
            &self.categories,
            &self.categories,
            joined_categories,
            left_categories,
        );
        extend_stepped(
            &mut categories,
            joined_categories,
            &self.categories,
            joined_categories,
            left_categories,
        );
        extend_stepped(
            &mut categories,
            left_categories,
            &self.categories,
            joined_categories,
            left_categories,
        );
        let next = AbsRecord { all, categories };
        proof {
            let d = Delta {
                joined: joined@,
                joined_categories: sets_of(*joined_categories),
                left: left@,
                left_categories: sets_of(*left_categories),
            };
            assert(next@.categories =~= self@.apply(d).categories);
        }
        next
    }
}

/// For each label, the members that `after` holds under it and `before` does
/// not; the labels where there is none are left out.
pub fn gained_sets(
    before: &CategoryMap<HashSet<usize>>,
    after: &CategoryMap<HashSet<usize>>,
) -> (r: CategoryMap<HashSet<usize>>)
    ensures
        sets_of(r) == gained(sets_of(*before), sets_of(*after)),
{
    let mut out: CategoryMap<HashSet<usize>> = CategoryMap::new();
    let n = after.len();
    let mut i: usize = 0;
    while i < n
        invariant
            after.wf(),
            n == after.names().len(),
            i <= n,
            forall|c: Seq<char>|
                sets_of(out).contains_key(c) <==> after.names().take(i as int).contains(c)
                    && !gain_at(sets_of(*before), sets_of(*after), c).is_empty(),
            forall|c: Seq<char>|
                sets_of(out).contains_key(c) ==> sets_of(out)[c] == gain_at(
                    sets_of(*before),
                    sets_of(*after),
                    c,
                ),
        decreases n - i,
    {
        let name = after.name(i);
        let ghost earlier = out;
        let set = merged(after.members(name), None, before.members(name));
        proof {
            assert(set@ == gain_at(sets_of(*before), sets_of(*after), name@));
        }
        if !set.is_empty() {
            out.insert(name.clone(), set);
            proof {
                lemma_sets_insert(earlier, out, name@, set);
            }
        }
        proof {
            lemma_next_label(after.names(), i as int);
        }
        i += 1;
    }
    proof {
        lemma_all_labels(after.names());
        after.lemma_keys();
        assert forall|c: Seq<char>|
            !gain_at(sets_of(*before), sets_of(*after), c).is_empty() implies after@.contains_key(
            c,
        ) by {
            if !after@.contains_key(c) {
                assert(members_of(sets_of(*after), c) =~= Set::empty());
                assert(gain_at(sets_of(*before), sets_of(*after), c) =~= Set::empty());
            }
        }
        assert(sets_of(out) =~= gained(sets_of(*before), sets_of(*after)));
    }
    out
}

/// The members of `base` and `plus` that `minus` lacks; a set that is absent counts as empty.
fn merged(
    base: Option<&HashSet<usize>>,
    plus: Option<&HashSet<usize>>,
    minus: Option<&HashSet<usize>>,
) -> (r: HashSet<usize>)
    ensures
        r@ == members_at(base).union(members_at(plus)).difference(members_at(minus)),
{
    let mut out = match base {
        Some(set) => copy_of(set),
        None => HashSet::new(),
    };
    if let Some(set) = plus {
        out = union(&out, set);
    }
    if let Some(set) = minus {
        out = difference(&out, set);
    }
    out
}

/// Gives `out` an entry for each label of `labels` that it lacks: the members
/// that `base` and `plus` hold under the label and `minus` does not.
fn extend_stepped(
    out: &mut CategoryMap<HashSet<usize>>,
    labels: &CategoryMap<HashSet<usize>>,
    base: &CategoryMap<HashSet<usize>>,
    plus: &CategoryMap<HashSet<usize>>,
    minus: &CategoryMap<HashSet<usize>>,
)
    ensures
        forall|c: Seq<char>|
            sets_of(*final(out)).contains_key(c) <==> sets_of(*old(out)).contains_key(c) || sets_of(
                *labels,
            ).contains_key(c),
        forall|c: Seq<char>|
            sets_of(*old(out)).contains_key(c) ==> sets_of(*final(out))[c] == sets_of(*old(out))[c],
        forall|c: Seq<char>|
            !sets_of(*old(out)).contains_key(c) && sets_of(*labels).contains_key(c) ==> sets_of(
                *final(out),
            )[c] == stepped_at(sets_of(*base), sets_of(*plus), sets_of(*minus), c),
{
    let n = labels.len();
    let mut i: usize = 0;
    while i < n
        invariant
            labels.wf(),
            n == labels.names().len(),
            i <= n,
            forall|c: Seq<char>|
                sets_of(*out).contains_key(c) <==> sets_of(*old(out)).contains_key(c)
                    || labels.names().take(i as int).contains(c),
            forall|c: Seq<char>|
                sets_of(*old(out)).contains_key(c) ==> sets_of(*out)[c] == sets_of(*old(out))[c],
            forall|c: Seq<char>|
                !sets_of(*old(out)).contains_key(c) && labels.names().take(i as int).contains(c)
                    ==> sets_of(*out)[c] == stepped_at(
                    sets_of(*base),
                    sets_of(*plus),
                    sets_of(*minus),
                    c,
                ),
        decreases n - i,
    {
        let name = labels.name(i);
        let ghost before = *out;
        if !out.contains_key(name) {
            let set = merged(base.members(name), plus.members(name), minus.members(name));
            out.insert(name.clone(), set);
            proof {
                lemma_sets_insert(before, *out, name@, set);
            }
        }
        proof {
            lemma_next_label(labels.names(), i as int);
        }
        i += 1;
    }
    proof {
        lemma_all_labels(labels.names());
        labels.lemma_keys();
    }
}

} // verus!
