//! The mathematical model of presence data: snapshots, deltas and hour
//! blocks as sets and maps, and the codec between sixty snapshots and a block
//! as functions on them.

use vstd::prelude::*;

verus! {

/// Why an hour could not be encoded or decoded.
#[derive(Clone, Copy, Debug, PartialEq, Eq)]
pub enum CodecError {
    /// A delta entry stands where no earlier minute of the hour gives it a baseline.
    CorruptBlock,
    /// A snapshot lists, under some category, an entity that its `all` lacks.
    InvariantViolation,
}

/// Who is present at one minute: everybody, and the members of each category.
pub struct Snapshot {
    pub all: Set<usize>,
    pub categories: Map<Seq<char>, Set<usize>>,
}

/// The step from one minute's snapshot to the next.
pub struct Delta {
    pub joined: Set<usize>,
    pub joined_categories: Map<Seq<char>, Set<usize>>,
    pub left: Set<usize>,
    pub left_categories: Map<Seq<char>, Set<usize>>,
}

/// What an hour block stores for a minute.
pub enum Entry {
    Abs(Snapshot),
    Delta(Delta),
}

/// An hour block: the minutes that have a value, and the entries stored for them.
pub struct Block {
    pub mask: Set<int>,
    pub entries: Map<int, Entry>,
}

/// The set that `m` holds under `c`, empty where it holds none.
pub open spec fn members_of(m: Map<Seq<char>, Set<usize>>, c: Seq<char>) -> Set<usize> {
    if m.contains_key(c) {
        m[c]
    } else {
        Set::empty()
    }
}

/// The members of category `c` that `after` has and `before` lacks.
pub open spec fn gain_at(
    before: Map<Seq<char>, Set<usize>>,
    after: Map<Seq<char>, Set<usize>>,
    c: Seq<char>,
) -> Set<usize> {
    members_of(after, c).difference(members_of(before, c))
}

/// For each category, the members that `after` has and `before` lacks; the
/// categories where there is none are left out.
pub open spec fn gained(
    before: Map<Seq<char>, Set<usize>>,
    after: Map<Seq<char>, Set<usize>>,
) -> Map<Seq<char>, Set<usize>> {
    Map::new(
        |c: Seq<char>| !gain_at(before, after, c).is_empty(),
        |c: Seq<char>| gain_at(before, after, c),
    )
}

/// The members of category `c` once those of `plus` have joined `base` and
/// those of `minus` have left.
pub open spec fn stepped_at(
    base: Map<Seq<char>, Set<usize>>,
    plus: Map<Seq<char>, Set<usize>>,
    minus: Map<Seq<char>, Set<usize>>,
    c: Seq<char>,
) -> Set<usize> {
    members_of(base, c).union(members_of(plus, c)).difference(members_of(minus, c))
}

impl Snapshot {
    /// Every category is a subset of `all`.
    pub open spec fn valid(self) -> bool {
        forall|c: Seq<char>| #[trigger]
            self.categories.contains_key(c) ==> self.categories[c].subset_of(self.all)
    }

    /// The same people everywhere, a category that is absent counting as empty.
    pub open spec fn same_members(self, other: Snapshot) -> bool {
        &&& self.all == other.all
        &&& forall|c: Seq<char>| #[trigger]
            members_of(self.categories, c) == members_of(other.categories, c)
    }

    /// The step that leads from `self` to `next`.
    pub open spec fn delta_to(self, next: Snapshot) -> Delta {
        Delta {
            joined: next.all.difference(self.all),
            joined_categories: gained(self.categories, next.categories),
            left: self.all.difference(next.all),
            left_categories: gained(next.categories, self.categories),
        }
    }

    /// The snapshot that the step `d` leads to from `self`.
    pub open spec fn apply(self, d: Delta) -> Snapshot {
        Snapshot {
            all: self.all.union(d.joined).difference(d.left),
            categories: Map::new(
                |c: Seq<char>|
                    self.categories.contains_key(c) || d.joined_categories.contains_key(c)
                        || d.left_categories.contains_key(c),
                |c: Seq<char>|
                    stepped_at(self.categories, d.joined_categories, d.left_categories, c),
            ),
        }
    }
}

impl Delta {
    /// Nobody both joins and leaves, overall or in a category, and no
    /// category is listed with nobody in it.
    pub open spec fn tidy(self) -> bool {
        &&& self.joined.disjoint(self.left)
        &&& forall|c: Seq<char>| #[trigger]
            members_of(self.joined_categories, c).disjoint(members_of(self.left_categories, c))
        &&& forall|c: Seq<char>| #[trigger]
            self.joined_categories.contains_key(c) ==> !self.joined_categories[c].is_empty()
        &&& forall|c: Seq<char>| #[trigger]
            self.left_categories.contains_key(c) ==> !self.left_categories[c].is_empty()
    }
}

/// The entry stored for minute `m` of `h`, which has a snapshot there: the
/// snapshot itself at the start of a run, the step from the minute before inside one.
pub open spec fn encode_entry(h: Seq<Option<Snapshot>>, m: int) -> Entry {
    if m == 0 || h[m - 1] is None {
        Entry::Abs(h[m]->0)
    } else {
        Entry::Delta(h[m - 1]->0.delta_to(h[m]->0))
    }
}

/// The block of an hour: a minute is flagged, and has an entry, exactly where
/// the hour has a snapshot.
pub open spec fn encode(h: Seq<Option<Snapshot>>) -> Block {
    Block {
        mask: Set::new(|m: int| 0 <= m < h.len() && h[m] is Some),
        entries: Map::new(|m: int| 0 <= m < h.len() && h[m] is Some, |m: int| encode_entry(h, m)),
    }
}

/// The value of minute `m` of `b`, given the value `prev` of the minute before.
pub open spec fn decode_slot(b: Block, m: int, prev: Option<Snapshot>) -> Result<
    Option<Snapshot>,
    CodecError,
> {
    if !b.mask.contains(m) {
        Ok(None)
    } else if !b.entries.contains_key(m) {
        Ok(prev)
    } else {
        match b.entries[m] {
            Entry::Abs(s) => Ok(Some(s)),
            Entry::Delta(d) => match prev {
                Some(p) => Ok(Some(p.apply(d))),
                None => Err(CodecError::CorruptBlock),
            },
        }
    }
}

/// The values of the first `n` minutes of `b`.
pub open spec fn decode_prefix(b: Block, n: nat) -> Result<Seq<Option<Snapshot>>, CodecError>
    decreases n,
{
    if n == 0 {
        Ok(Seq::empty())
    } else {
        match decode_prefix(b, (n - 1) as nat) {
            Err(e) => Err(e),
            Ok(head) => {
                let prev = if n == 1 {
                    None
                } else {
                    head[n - 2]
                };
                match decode_slot(b, n - 1, prev) {
                    Err(e) => Err(e),
                    Ok(slot) => Ok(head.push(slot)),
                }
            },
        }
    }
}

/// The sixty values of an hour block.
pub open spec fn decode(b: Block) -> Result<Seq<Option<Snapshot>>, CodecError> {
    decode_prefix(b, 60)
}

/// The value of the minute before `m` in `d`, none before the first minute.
pub open spec fn before(d: Seq<Option<Snapshot>>, m: int) -> Option<Snapshot> {
    if m <= 0 {
        None
    } else {
        d[m - 1]
    }
}

/// `d` gives, minute by minute, the value that `b` stores for it.
pub open spec fn decodes_to(b: Block, d: Seq<Option<Snapshot>>) -> bool {
    forall|m: int|
        0 <= m < d.len() ==> #[trigger] decode_slot(b, m, before(d, m)) == Ok::<_, CodecError>(d[m])
}

/// From one snapshot to the next, no category disappears, and one that
/// appears has a member.
pub open spec fn keeps_labels(p: Snapshot, s: Snapshot) -> bool {
    forall|c: Seq<char>|
        {
            &&& (p.categories.contains_key(c) ==> #[trigger] s.categories.contains_key(c))
            &&& (s.categories.contains_key(c) && !p.categories.contains_key(c)
                ==> !s.categories[c].is_empty())
        }
}

/// `keeps_labels` holds between every two snapshots of `h` that follow one another.
pub open spec fn steady(h: Seq<Option<Snapshot>>) -> bool {
    forall|m: int|
        0 < m < h.len() && h[m - 1] is Some && (#[trigger] h[m]) is Some ==> keeps_labels(
            h[m - 1]->0,
            h[m]->0,
        )
}

/// Each slot of `d` is empty where that of `h` is, and has the same members where it is not.
pub open spec fn same_people(d: Seq<Option<Snapshot>>, h: Seq<Option<Snapshot>>) -> bool {
    &&& d.len() == h.len()
    &&& forall|m: int|
        0 <= m < h.len() ==> match (#[trigger] d[m], h[m]) {
            (Some(x), Some(y)) => x.same_members(y),
            (None, None) => true,
            _ => false,
        }
}

/// Every snapshot of the hour has its categories inside its `all`.
pub open spec fn all_valid(h: Seq<Option<Snapshot>>) -> bool {
    forall|m: int| 0 <= m < h.len() && h[m] is Some ==> (#[trigger] h[m])->0.valid()
}

/// Minute `m` of the block has a value: some minute `k` up to `m` has an
/// entry, and from `k` to `m` every minute is flagged and none after `k` has
/// an entry of its own.
pub open spec fn resolves(b: Block, m: int) -> bool {
    exists|k: int|
        0 <= k <= m && #[trigger] b.entries.contains_key(k) && (forall|j: int|
            k <= j <= m ==> #[trigger] b.mask.contains(j)) && (forall|j: int|
            k < j <= m ==> !#[trigger] b.entries.contains_key(j))
}

/// Minute `m` of the block is flagged and holds a step, and the minute before has no value.
pub open spec fn orphan(b: Block, m: int) -> bool {
    &&& b.mask.contains(m)
    &&& b.entries.contains_key(m)
    &&& b.entries[m] is Delta
    &&& !resolves(b, m - 1)
}

/// One of the sixty minutes of the block holds a step that has nothing to start from.
pub open spec fn corrupt(b: Block) -> bool {
    exists|m: int| 0 <= m < 60 && #[trigger] orphan(b, m)
}

} // verus!
