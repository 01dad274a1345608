//! What holds of the codec: an hour comes back from its block, and in which
//! sense.

use crate::model::{
    all_valid, before, corrupt, decode, decode_prefix, decode_slot, decodes_to, encode, gain_at,
    gained, keeps_labels, members_of, orphan, resolves, same_people, steady, stepped_at, Block,
    CodecError, Snapshot,
};
use vstd::prelude::*;

verus! {

/// The step between two snapshots is tidy, whatever the snapshots.
pub proof fn lemma_delta_tidy(p: Snapshot, s: Snapshot)
    ensures
        p.delta_to(s).tidy(),
{
    let d = p.delta_to(s);
    assert forall|c: Seq<char>| #[trigger]
        members_of(d.joined_categories, c).disjoint(members_of(d.left_categories, c)) by {
        let came = gain_at(p.categories, s.categories, c);
        let went = gain_at(s.categories, p.categories, c);
        assert(members_of(d.joined_categories, c).subset_of(came));
        assert(members_of(d.left_categories, c).subset_of(went));
    }
}

/// Once the first minutes of a block fail to decode, the whole block does, in the same way.
pub proof fn lemma_decode_fails(b: Block, n: nat)
    requires
        n <= 60,
        decode_prefix(b, n) is Err,
    ensures
        decode(b) == decode_prefix(b, n),
{
    lemma_prefix_fails(b, n, 60);
}

proof fn lemma_prefix_fails(b: Block, n: nat, k: nat)
    requires
        n <= k,
        decode_prefix(b, n) is Err,
    ensures
        decode_prefix(b, k) == decode_prefix(b, n),
    decreases k,
{
    if k > n {
        lemma_prefix_fails(b, n, (k - 1) as nat);
    }
}

proof fn lemma_prefix_slots(b: Block, n: nat)
    requires
        decode_prefix(b, n) is Ok,
    ensures
        decode_prefix(b, n)->Ok_0.len() == n,
        decodes_to(b, decode_prefix(b, n)->Ok_0),
        forall|k: nat|
            k <= n ==> #[trigger] decode_prefix(b, k) == Ok::<_, CodecError>(
                decode_prefix(b, n)->Ok_0.take(k as int),
            ),
    decreases n,
{
    let d = decode_prefix(b, n)->Ok_0;
    if n == 0 {
        assert forall|k: nat| k <= n implies #[trigger] decode_prefix(b, k) == Ok::<_, CodecError>(
            d.take(k as int),
        ) by {
            assert(d.take(0) =~= d);
        }
    } else {
        lemma_prefix_slots(b, (n - 1) as nat);
        let head = decode_prefix(b, (n - 1) as nat)->Ok_0;
        assert forall|m: int| 0 <= m < d.len() implies #[trigger] decode_slot(b, m, before(d, m))
            == Ok::<_, CodecError>(d[m]) by {
            if m < n - 1 {
                assert(decode_slot(b, m, before(head, m)) == Ok::<_, CodecError>(head[m]));
                assert(before(head, m) == before(d, m));
            }
        }
        assert forall|k: nat| k <= n implies #[trigger] decode_prefix(b, k) == Ok::<_, CodecError>(
            d.take(k as int),
        ) by {
            if k == n {
                assert(d.take(n as int) =~= d);
            } else {
                assert(head.take(k as int) =~= d.take(k as int));
            }
        }
    }
}

proof fn lemma_slots_prefix(b: Block, d: Seq<Option<Snapshot>>, n: nat)
    requires
        n <= d.len(),
        decodes_to(b, d),
    ensures
        decode_prefix(b, n) == Ok::<_, CodecError>(d.take(n as int)),
    decreases n,
{
    if n == 0 {
        assert(d.take(0) =~= Seq::empty());
    } else {
        lemma_slots_prefix(b, d, (n - 1) as nat);
        let head = d.take(n - 1);
        assert(decode_slot(b, n - 1, before(d, n - 1)) == Ok::<_, CodecError>(d[n - 1]));
        assert(n > 1 ==> head[n - 2] == d[n - 2]);
        assert(head.push(d[n - 1]) =~= d.take(n as int));
    }
}

/// Decoding gives the one sequence of sixty values in which every minute has
/// the value that the block stores for it, given the minute before.
pub proof fn lemma_decode_is(b: Block, d: Seq<Option<Snapshot>>)
    ensures
        decode(b) == Ok::<_, CodecError>(d) <==> d.len() == 60 && decodes_to(b, d),
{
    if decode(b) == Ok::<_, CodecError>(d) {
        lemma_prefix_slots(b, 60);
    }
    if d.len() == 60 && decodes_to(b, d) {
        lemma_slots_prefix(b, d, 60);
        assert(d.take(60) =~= d);
    }
}

/// A minute that is flagged and has no entry has a value where the minute before has one.
proof fn lemma_resolves_on(b: Block, m: int)
    requires
        b.mask.contains(m),
        !b.entries.contains_key(m),
    ensures
        resolves(b, m) <==> resolves(b, m - 1),
{
    if resolves(b, m) {
        let k = choose|k: int|
            0 <= k <= m && #[trigger] b.entries.contains_key(k) && (forall|j: int|
                k <= j <= m ==> #[trigger] b.mask.contains(j)) && (forall|j: int|
                k < j <= m ==> !#[trigger] b.entries.contains_key(j));
        assert(k <= m - 1);
        assert(b.entries.contains_key(k));
    }
    if resolves(b, m - 1) {
        let k = choose|k: int|
            0 <= k <= m - 1 && #[trigger] b.entries.contains_key(k) && (forall|j: int|
                k <= j <= m - 1 ==> #[trigger] b.mask.contains(j)) && (forall|j: int|
                k < j <= m - 1 ==> !#[trigger] b.entries.contains_key(j));
        assert(b.entries.contains_key(k));
    }
}

/// A minute that is flagged and has an entry has a value, as far as the entry can be read.
proof fn lemma_resolves_at(b: Block, m: int)
    requires
        0 <= m,
        b.mask.contains(m),
        b.entries.contains_key(m),
    ensures
        resolves(b, m),
{
}

/// As far as a block decodes, a minute has a snapshot exactly where it has a
/// value; and it stops decoding exactly at a step that has nothing to start from.
proof fn lemma_prefix_resolves(b: Block, n: nat)
    ensures
        decode_prefix(b, n) is Err <==> exists|m: int| 0 <= m < n && #[trigger] orphan(b, m),
        decode_prefix(b, n) is Ok ==> forall|m: int|
            0 <= m < n ==> ((#[trigger] decode_prefix(b, n)->Ok_0[m]) is Some <==> resolves(b, m)),
    decreases n,
{
    if n > 0 {
        lemma_prefix_resolves(b, (n - 1) as nat);
        let m = n - 1;
        if decode_prefix(b, m as nat) is Ok {
            lemma_prefix_slots(b, m as nat);
            let head = decode_prefix(b, m as nat)->Ok_0;
            let prev = if n == 1 {
                None
            } else {
                head[n - 2]
            };
            assert(prev is Some <==> resolves(b, m - 1)) by {
                if n == 1 {
                    assert(!resolves(b, -1));
                }
            }
            if b.mask.contains(m) {
                if b.entries.contains_key(m) {
                    lemma_resolves_at(b, m);
                } else {
                    lemma_resolves_on(b, m);
                }
            } else {
                assert(!resolves(b, m));
            }
            if decode_prefix(b, n) is Ok {
                let d = decode_prefix(b, n)->Ok_0;
                assert forall|j: int| 0 <= j < n implies ((#[trigger] d[j]) is Some <==> resolves(
                    b,
                    j,
                )) by {
                    if j < m {
                        assert(d[j] == head[j]);
                    }
                }
                assert forall|j: int| 0 <= j < n implies !#[trigger] orphan(b, j) by {}
            } else {
                assert(orphan(b, m));
            }
        } else {
            let j = choose|j: int| 0 <= j < m && #[trigger] orphan(b, j);
            assert(orphan(b, j));
        }
    }
}

/// A block fails to decode exactly where one of its minutes holds a step and
/// the minute before has no value; and where it decodes, a minute has a
/// snapshot exactly where it has a value.
pub proof fn lemma_decode_fails_where(b: Block)
    ensures
        decode(b) is Err <==> corrupt(b),
        decode(b) is Ok ==> forall|m: int|
            0 <= m < 60 ==> ((#[trigger] decode(b)->Ok_0[m]) is Some <==> resolves(b, m)),
{
    lemma_prefix_resolves(b, 60);
}

/// Applying the step between two snapshots to a snapshot with the members of
/// the first gives the members of the second.
pub proof fn lemma_step_members(q: Snapshot, p: Snapshot, s: Snapshot)
    requires
        q.same_members(p),
    ensures
        q.apply(p.delta_to(s)).same_members(s),
{
    let d = p.delta_to(s);
    let r = q.apply(d);
    assert(r.all =~= s.all);
    assert forall|c: Seq<char>| #[trigger]
        members_of(r.categories, c) == members_of(s.categories, c) by {
        lemma_step_at(q, p, s, c);
    }
}

proof fn lemma_step_at(q: Snapshot, p: Snapshot, s: Snapshot, c: Seq<char>)
    requires
        members_of(q.categories, c) == members_of(p.categories, c),
    ensures
        members_of(q.apply(p.delta_to(s)).categories, c) == members_of(s.categories, c),
        stepped_at(
            q.categories,
            gained(p.categories, s.categories),
            gained(s.categories, p.categories),
            c,
        ) == members_of(s.categories, c),
{
    let d = p.delta_to(s);
    let old_set = members_of(p.categories, c);
    let new_set = members_of(s.categories, c);
    assert(members_of(d.joined_categories, c) =~= new_set.difference(old_set));
    assert(members_of(d.left_categories, c) =~= old_set.difference(new_set));
    assert(stepped_at(q.categories, d.joined_categories, d.left_categories, c) =~= new_set);
    if !q.apply(d).categories.contains_key(c) {
        assert(new_set =~= Set::empty());
    }
}

/// Whatever the snapshots of an hour, its block decodes, to the same people
/// minute by minute: the same `all`, and in every category the same members,
/// an absent category counting as empty.
pub proof fn lemma_round_trip_members(h: Seq<Option<Snapshot>>)
    requires
        h.len() == 60,
    ensures
        decode(encode(h)) is Ok,
        same_people(decode(encode(h))->Ok_0, h),
{
    lemma_encoded_prefix(h, 60);
}

proof fn lemma_encoded_prefix(h: Seq<Option<Snapshot>>, n: nat)
    requires
        n <= h.len(),
    ensures
        decode_prefix(encode(h), n) is Ok,
        same_people(decode_prefix(encode(h), n)->Ok_0, h.take(n as int)),
    decreases n,
{
    if n > 0 {
        lemma_encoded_prefix(h, (n - 1) as nat);
        let b = encode(h);
        let head = decode_prefix(b, (n - 1) as nat)->Ok_0;
        let m = n - 1;
        let prev = if n == 1 {
            None
        } else {
            head[n - 2]
        };
        assert(n > 1 ==> h.take(n - 1)[n - 2] == h[n - 2]);
        if h[m] is Some && m > 0 && h[m - 1] is Some {
            lemma_step_members(prev->0, h[m - 1]->0, h[m]->0);
        }
        let d = decode_prefix(b, n)->Ok_0;
        assert forall|k: int| 0 <= k < n implies match (#[trigger] d[k], h.take(n as int)[k]) {
            (Some(x), Some(y)) => x.same_members(y),
            (None, None) => true,
            _ => false,
        } by {
            if k < n - 1 {
                assert(d[k] == head[k]);
                assert(h.take(n - 1)[k] == h[k]);
            }
        }
    }
}

/// An hour comes back from its block slot by slot, as long as no category
/// disappears from one minute to the next and none appears with nobody in it.
pub proof fn lemma_round_trip(h: Seq<Option<Snapshot>>)
    requires
        h.len() == 60,
        steady(h),
    ensures
        decode(encode(h)) == Ok::<_, CodecError>(h),
{
    let b = encode(h);
    lemma_decode_is(b, h);
    assert forall|m: int| 0 <= m < h.len() implies #[trigger] decode_slot(b, m, before(h, m))
        == Ok::<_, CodecError>(h[m]) by {
        if h[m] is Some && m > 0 && h[m - 1] is Some {
            lemma_step_exact(h[m - 1]->0, h[m]->0);
        }
    }
}

/// Only an hour in which no category disappears from one minute to the next,
/// and none appears with nobody in it, comes back from its block slot by slot.
pub proof fn lemma_round_trip_needs_steady(h: Seq<Option<Snapshot>>)
    requires
        h.len() == 60,
        decode(encode(h)) == Ok::<_, CodecError>(h),
    ensures
        steady(h),
{
    let b = encode(h);
    lemma_decode_is(b, h);
    assert forall|m: int|
        0 < m < h.len() && h[m - 1] is Some && (#[trigger] h[m]) is Some implies keeps_labels(
        h[m - 1]->0,
        h[m]->0,
    ) by {
        assert(decode_slot(b, m, before(h, m)) == Ok::<_, CodecError>(h[m]));
        lemma_step_exact(h[m - 1]->0, h[m]->0);
    }
}

/// The step between two snapshots leads from the first to the second exactly
/// where the second keeps the labels of the first, and only there.
pub proof fn lemma_step_exact(p: Snapshot, s: Snapshot)
    ensures
        keeps_labels(p, s) <==> p.apply(p.delta_to(s)) == s,
{
    let d = p.delta_to(s);
    let r = p.apply(d);
    assert(r.all =~= s.all);
    assert forall|c: Seq<char>|
        stepped_at(p.categories, d.joined_categories, d.left_categories, c) == members_of(
            s.categories,
            c,
        ) by {
        lemma_step_at(p, p, s, c);
    }
    if keeps_labels(p, s) {
        assert forall|c: Seq<char>| r.categories.contains_key(c) <==> s.categories.contains_key(
            c,
        ) by {
            if s.categories.contains_key(c) && !p.categories.contains_key(c) {
                assert(gain_at(p.categories, s.categories, c) =~= s.categories[c]);
            }
            if r.categories.contains_key(c) && !s.categories.contains_key(c) {
                assert(p.categories.contains_key(c) ==> s.categories.contains_key(c));
                assert(gain_at(p.categories, s.categories, c) =~= Set::empty());
                assert(gain_at(s.categories, p.categories, c) =~= Set::empty());
            }
        }
        assert(r.categories =~= s.categories);
    }
    if r == s {
        assert forall|c: Seq<char>|
            {
                &&& (p.categories.contains_key(c) ==> #[trigger] s.categories.contains_key(c))
                &&& (s.categories.contains_key(c) && !p.categories.contains_key(c)
                    ==> !s.categories[c].is_empty())
            } by {
            if p.categories.contains_key(c) {
                assert(r.categories.contains_key(c));
            }
            if s.categories.contains_key(c) && !p.categories.contains_key(c) {
                assert(r.categories.contains_key(c));
                assert(gain_at(s.categories, p.categories, c) =~= Set::empty());
                assert(gain_at(p.categories, s.categories, c) =~= s.categories[c]);
            }
        }
    }
}

/// Where every snapshot of an hour has its categories inside its `all`, so
/// has every snapshot that comes back from its block.
pub proof fn lemma_round_trip_valid(h: Seq<Option<Snapshot>>)
    requires
        h.len() == 60,
        all_valid(h),
    ensures
        decode(encode(h)) is Ok,
        all_valid(decode(encode(h))->Ok_0),
{
    lemma_round_trip_members(h);
    let d = decode(encode(h))->Ok_0;
    assert forall|m: int| 0 <= m < 60 && d[m] is Some implies (#[trigger] d[m])->0.valid() by {
        let x = d[m]->0;
        let y = h[m]->0;
        assert(h[m] is Some);
        assert(y.valid());
        assert forall|c: Seq<char>| #[trigger]
            x.categories.contains_key(c) implies x.categories[c].subset_of(x.all) by {
            assert(members_of(x.categories, c) == members_of(y.categories, c));
            if y.categories.contains_key(c) {
                assert(y.categories[c].subset_of(y.all));
            }
        }
    }
}

} // verus!
