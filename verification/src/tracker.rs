//! The registry that numbers the entities, and the snapshot of one poll.

use crate::category::{
    lemma_all_labels, lemma_next_label, lemma_sets_insert, sets_of, CategoryMap,
};
use crate::hour::AbsRecord;
use crate::utils::MinuteTimestamp;
use std::collections::HashSet;
use vstd::prelude::*;

verus! {

broadcast use {vstd::std_specs::hash::group_hash_axioms, vstd::array::group_array_axioms};

/// The sixteen bytes that identify an entity outside this program.
pub type Identity = [u8; 16];

/// Whether two identities are the same sixteen bytes.
pub fn same_identity(a: &Identity, b: &Identity) -> (same: bool)
    ensures
        same == (*a == *b),
{
    let mut i: usize = 0;
    while i < 16
        invariant
            i <= 16,
            forall|j: int| 0 <= j < i ==> a[j] == b[j],
        decreases 16 - i,
    {
        if a[i] != b[i] {
            return false;
        }
        i += 1;
    }
    assert(a@ =~= b@);
    assert(*a =~= *b);
    true
}

/// Whether `id` is one of `list`.
pub open spec fn listed(list: Seq<Identity>, id: Identity) -> bool {
    exists|i: int| 0 <= i < list.len() && #[trigger] list[i] == id
}

/// Whether `id` is one of `list`.
pub fn is_listed(list: &Vec<Identity>, id: &Identity) -> (found: bool)
    ensures
        found == listed(list@, *id),
{
    let mut i: usize = 0;
    while i < list.len()
        invariant
            i <= list.len(),
            forall|j: int| 0 <= j < i ==> #[trigger] list[j] != *id,
        decreases list.len() - i,
    {
        if same_identity(&list[i], id) {
            return true;
        }
        i += 1;
    }
    false
}

/// The registry of entities: the index of an entity is the place of its
/// identity in `data`. Identities are only ever added at the end, so an index,
/// once given, stays.
#[derive(Debug, Clone, PartialEq, Eq)]
pub struct NameMapWrapper {
    pub _id: u32,
    pub data: Vec<Identity>,
}

impl Default for NameMapWrapper {
    /// The registry with nobody in it.
    fn default() -> (map: Self)
        ensures
            map._id == 0,
            map.data@ == Seq::<Identity>::empty(),
    {
        NameMapWrapper { _id: 0, data: Vec::new() }
    }
}

impl NameMapWrapper {
    /// `at` is the first place of `id` in `data`, or nothing where `data` lacks it.
    pub open spec fn first_at(data: Seq<Identity>, id: Identity, at: Option<usize>) -> bool {
        match at {
            Some(i) => i < data.len() && data[i as int] == id && forall|j: int|
                0 <= j < i ==> #[trigger] data[j] != id,
            None => forall|j: int| 0 <= j < data.len() ==> #[trigger] data[j] != id,
        }
    }

    /// The index of `id`, if it was registered.
    pub fn index_of(&self, id: &Identity) -> (at: Option<usize>)
        ensures
            Self::first_at(self.data@, *id, at),
    {
        let mut i: usize = 0;
        while i < self.data.len()
            invariant
                i <= self.data.len(),
                forall|j: int| 0 <= j < i ==> #[trigger] self.data[j] != *id,
            decreases self.data.len() - i,
        {
            if same_identity(&self.data[i], id) {
                return Some(i);
            }
            i += 1;
        }
        None
    }

    /// The index of `id`, which is registered at the end if it was not yet.
    /// Every index given before stays what it was.
    pub fn register(&mut self, id: Identity) -> (index: usize)
        ensures
            final(self)._id == old(self)._id,
            listed(old(self).data@, id) ==> Self::first_at(old(self).data@, id, Some(index))
                && final(self).data@ == old(self).data@,
            !listed(old(self).data@, id) ==> index == old(self).data@.len() && final(self).data@
                == old(self).data@.push(id),
            index < final(self).data@.len(),
            final(self).data@[index as int] == id,
            old(self).data@.is_prefix_of(final(self).data@),
    {
        match self.index_of(&id) {
            Some(i) => i,
            None => {
                self.data.push(id);
                self.data.len() - 1
            },
        }
    }
}

/// The indices of a poll.
pub open spec fn polled(ids: Seq<(Identity, usize)>) -> Set<usize> {
    Set::new(|e: usize| exists|k: int| 0 <= k < ids.len() && (#[trigger] ids[k]).1 == e)
}

/// The indices of a poll whose identity is one of `list`.
pub open spec fn polled_in(list: Seq<Identity>, ids: Seq<(Identity, usize)>) -> Set<usize> {
    Set::new(
        |e: usize|
            exists|k: int|
                0 <= k < ids.len() && (#[trigger] ids[k]).1 == e && listed(list, ids[k].0),
    )
}

/// The categories of a poll: each category of the roster that has somebody
/// in the poll, with those of the poll that it lists.
pub open spec fn polled_categories(
    roster: Map<Seq<char>, Vec<Identity>>,
    ids: Seq<(Identity, usize)>,
) -> Map<Seq<char>, Set<usize>> {
    Map::new(
        |c: Seq<char>| roster.contains_key(c) && !polled_in(roster[c]@, ids).is_empty(),
        |c: Seq<char>| polled_in(roster[c]@, ids),
    )
}

/// The indices of those of the poll that `list` lists.
fn members_in(list: &Vec<Identity>, ids: &Vec<(Identity, usize)>) -> (set: HashSet<usize>)
    ensures
        set@ == polled_in(list@, ids@),
{
    let mut set: HashSet<usize> = HashSet::new();
    let mut k: usize = 0;
    while k < ids.len()
        invariant
            k <= ids.len(),
            forall|e: usize|
                set@.contains(e) <==> exists|i: int|
                    0 <= i < k && (#[trigger] ids[i]).1 == e && listed(list@, ids[i].0),
        decreases ids.len() - k,
    {
        if is_listed(list, &ids[k].0) {
            set.insert(ids[k].1);
        }
        k += 1;
    }
    assert(set@ =~= polled_in(list@, ids@));
    set
}

/// The snapshot of a poll that found the entities `ids`, each with its
/// identity and its index: everybody in `all`, and in each category of the
/// roster those that it lists. A category that lists nobody of the poll is
/// left out.
pub fn split_into_categories(
    roster: &CategoryMap<Vec<Identity>>,
    ids: &Vec<(Identity, usize)>,
) -> (record: AbsRecord)
    ensures
        record@.all == polled(ids@),
        record@.categories == polled_categories(roster@, ids@),
        record@.valid(),
{
    let mut all: HashSet<usize> = HashSet::new();
    let mut k: usize = 0;
    while k < ids.len()
        invariant
            k <= ids.len(),
            forall|e: usize|
                all@.contains(e) <==> exists|i: int| 0 <= i < k && (#[trigger] ids[i]).1 == e,
        decreases ids.len() - k,
    {
        all.insert(ids[k].1);
        k += 1;
    }
    assert(all@ =~= polled(ids@));
    let mut categories: CategoryMap<HashSet<usize>> = CategoryMap::new();
    let n = roster.len();
    let mut j: usize = 0;
    while j < n
        invariant
            roster.wf(),
            n == roster.names().len(),
            j <= n,
            forall|c: Seq<char>|
                sets_of(categories).contains_key(c) <==> roster.names().take(j as int).contains(c)
                    && !polled_in(roster@[c]@, ids@).is_empty(),
            forall|c: Seq<char>|
                sets_of(categories).contains_key(c) ==> sets_of(categories)[c] == polled_in(
                    roster@[c]@,
                    ids@,
                ),
        decreases n - j,
    {
        let name = roster.name(j);
        let set = members_in(roster.value(j), ids);
        let ghost earlier = categories;
        if !set.is_empty() {
            categories.insert(name.clone(), set);
            proof {
                lemma_sets_insert(earlier, categories, name@, set);
            }
        }
        proof {
            lemma_next_label(roster.names(), j as int);
        }
        j += 1;
    }
    let record = AbsRecord { all, categories };
    proof {
        lemma_all_labels(roster.names());
        roster.lemma_keys();
        assert(record@.categories =~= polled_categories(roster@, ids@));
    }
    record
}

/// The label that stands for the whole population and that no category may take.
pub open spec fn reserved_label() -> Seq<char> {
    "all"@
}

/// Whether the roster has a category under the reserved label.
pub fn uses_reserved_label(roster: &CategoryMap<Vec<Identity>>) -> (used: bool)
    ensures
        used == roster@.contains_key(reserved_label()),
{
    let label = "all".to_owned();
    roster.contains_key(&label)
}

/// The longest range that a query may ask for: five years of minutes.
pub const MAX_RANGE: u64 = 60 * 24 * 365 * 5;

/// Whether `from..=to` is a range that a query may ask for: not backwards,
/// and not longer than `MAX_RANGE`.
pub fn range_allowed(from: MinuteTimestamp, to: MinuteTimestamp) -> (ok: bool)
    ensures
        ok == (from <= to && to - from <= MAX_RANGE),
{
    from <= to && to - from <= MAX_RANGE
}

} // verus!
