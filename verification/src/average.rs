//! Mean head counts over a window of minutes, overall and per category.

use crate::category::{lemma_all_labels, lemma_next_label, CategoryMap};
use crate::hour::{AbsRecord, HourDef};
use crate::model::{decode, CodecError, Snapshot};
use crate::range::{get_minutes, reads, snapshots_of};
use crate::utils::MinuteTimestamp;
use rayon::iter::{IntoParallelRefIterator, ParallelIterator};
use std::sync::Arc;
use vstd::prelude::*;
use vstd::std_specs::cmp::PartialEqSpecImpl;

verus! {

broadcast use vstd::std_specs::hash::group_hash_axioms;

/// A mean as the sum of its terms and the number it is divided by.
pub struct Ratio {
    pub sum: nat,
    pub len: nat,
}

/// The means of one window: of the head count, and of each category's.
pub struct Averages {
    pub all: Ratio,
    pub categories: Map<Seq<char>, Ratio>,
}

/// The number of minutes of `w` that have a snapshot.
pub open spec fn present_count(w: Seq<Option<Snapshot>>) -> nat
    decreases w.len(),
{
    if w.len() == 0 {
        0
    } else {
        present_count(w.drop_last()) + if w.last() is Some {
            1nat
        } else {
            0nat
        }
    }
}

/// The head counts of the snapshots of `w`, added up.
pub open spec fn all_sum(w: Seq<Option<Snapshot>>) -> nat
    decreases w.len(),
{
    if w.len() == 0 {
        0
    } else {
        all_sum(w.drop_last()) + match w.last() {
            Some(s) => s.all.len(),
            None => 0nat,
        }
    }
}

/// Whether the slot has a snapshot with an entry for category `c`.
pub open spec fn lists(slot: Option<Snapshot>, c: Seq<char>) -> bool {
    slot is Some && slot->0.categories.contains_key(c)
}

/// The number of snapshots of `w` that have an entry for category `c`.
pub open spec fn label_count(w: Seq<Option<Snapshot>>, c: Seq<char>) -> nat
    decreases w.len(),
{
    if w.len() == 0 {
        0
    } else {
        label_count(w.drop_last(), c) + if lists(w.last(), c) {
            1nat
        } else {
            0nat
        }
    }
}

/// The head counts of category `c` in the snapshots of `w` that have an entry
/// for it, added up.
pub open spec fn label_sum(w: Seq<Option<Snapshot>>, c: Seq<char>) -> nat
    decreases w.len(),
{
    if w.len() == 0 {
        0
    } else {
        label_sum(w.drop_last(), c) + if lists(w.last(), c) {
            w.last()->0.categories[c].len()
        } else {
            0nat
        }
    }
}

/// `n` is the largest number of snapshots of `w` that any one category has an
/// entry in; zero where no snapshot has a category.
pub open spec fn is_longest(w: Seq<Option<Snapshot>>, n: nat) -> bool {
    &&& forall|c: Seq<char>| #[trigger] label_count(w, c) <= n
    &&& n == 0 || exists|c: Seq<char>| #[trigger] label_count(w, c) == n
}

/// The largest number of snapshots of `w` that any one category has an entry in.
pub open spec fn longest(w: Seq<Option<Snapshot>>) -> nat {
    choose|n: nat| is_longest(w, n)
}

/// Only one number is the largest.
pub proof fn lemma_longest(w: Seq<Option<Snapshot>>, n: nat)
    requires
        is_longest(w, n),
    ensures
        longest(w) == n,
{
    let m = longest(w);
    assert(is_longest(w, m));
    if m != 0 {
        let c = choose|c: Seq<char>| #[trigger] label_count(w, c) == m;
        assert(label_count(w, c) <= n);
    }
    if n != 0 {
        let c = choose|c: Seq<char>| #[trigger] label_count(w, c) == n;
        assert(label_count(w, c) <= m);
    }
}

/// The means of the window `w`, none where it has no snapshot. The head count
/// is averaged over the snapshots. A category is averaged over as many terms
/// as the category with the most entries has: its own head counts, and zeros
/// for the rest.
pub open spec fn window_mean(w: Seq<Option<Snapshot>>) -> Option<Averages> {
    if present_count(w) == 0 {
        None
    } else {
        Some(
            Averages {
                all: Ratio { sum: all_sum(w), len: present_count(w) },
                categories: Map::new(
                    |c: Seq<char>| label_count(w, c) > 0,
                    |c: Seq<char>| Ratio { sum: label_sum(w, c), len: longest(w) },
                ),
            },
        )
    }
}

/// The `2 * delta + 1` minutes of `mins` around `center`.
pub open spec fn window(mins: Seq<Option<Snapshot>>, center: int, delta: int) -> Seq<
    Option<Snapshot>,
> {
    mins.subrange(center - delta, center + delta + 1)
}

/// A mean as the program holds it: divide `sum` by `len` to have its value.
#[derive(Clone, Copy, Debug, PartialEq, Eq)]
pub struct Mean {
    pub sum: u128,
    pub len: usize,
}

impl View for Mean {
    type V = Ratio;

    open spec fn view(&self) -> Ratio {
        Ratio { sum: self.sum as nat, len: self.len as nat }
    }
}

/// The means of one window.
#[derive(Debug, Clone, PartialEq, Eq)]
pub struct RollingAvgRecord {
    pub all: Mean,
    pub categories: CategoryMap<Mean>,
}

impl View for RollingAvgRecord {
    type V = Averages;

    open spec fn view(&self) -> Averages {
        Averages { all: self.all@, categories: self.categories@.map_values(|m: Mean| m@) }
    }
}

/// The means behind a sample that may be missing.
pub open spec fn averages_of(sample: Option<RollingAvgRecord>) -> Option<Averages> {
    match sample {
        Some(r) => Some(r@),
        None => None,
    }
}

impl Clone for CategoryMap<Mean> {
    /// A map with the same labels and, under each, the same mean.
    fn clone(&self) -> (r: Self)
        ensures
            r@ == self@,
    {
        let mut out: CategoryMap<Mean> = CategoryMap::new();
        let n = self.len();
        let mut i: usize = 0;
        while i < n
            invariant
                self.wf(),
                n == self.names().len(),
                i <= n,
                forall|c: Seq<char>|
                    out@.contains_key(c) <==> self.names().take(i as int).contains(c),
                forall|c: Seq<char>| out@.contains_key(c) ==> out@[c] == self@[c],
            decreases n - i,
        {
            let name = self.name(i);
            let mean = *self.value(i);
            proof {
                lemma_next_label(self.names(), i as int);
            }
            out.insert(name.clone(), mean);
            i += 1;
        }
        proof {
            lemma_all_labels(self.names());
            self.lemma_keys();
            assert(out@ =~= self@);
        }
        out
    }
}

impl PartialEq for CategoryMap<Mean> {
    /// Two maps are equal when they hold the same labels and, under each, the same mean.
    fn eq(&self, other: &Self) -> (r: bool) {
        if self.len() != other.len() {
            return false;
        }
        let mut i: usize = 0;
        while i < self.len()
            invariant
                self.wf(),
                other.wf(),
                self@.dom().len() == other@.dom().len(),
                i <= self.names().len(),
                forall|j: int|
                    0 <= j < i ==> other@.contains_key(#[trigger] self.names()[j])
                        && other@[self.names()[j]] == self.values()[j],
            decreases self.names().len() - i,
        {
            let name = self.name(i);
            match other.get(name) {
                None => {
                    return false;
                },
                Some(theirs) => {
                    let mine = self.value(i);
                    if mine.sum != theirs.sum || mine.len != theirs.len {
                        return false;
                    }
                },
            }
            i += 1;
        }
        proof {
            self.lemma_keys();
            other.lemma_keys();
            assert forall|c: Seq<char>| self@.contains_key(c) implies other@.contains_key(c)
                && other@[c] == self@[c] by {
                let j = self.names().index_of(c);
                self.names().index_of_first_ensures(c);
                self.lemma_entry(j);
            }
            assert(self@.dom().subset_of(other@.dom()));
            vstd::set_lib::lemma_subset_equality(self@.dom(), other@.dom());
            assert(self@ =~= other@);
        }
        true
    }
}

impl PartialEqSpecImpl for CategoryMap<Mean> {
    open spec fn obeys_eq_spec() -> bool {
        true
    }

    open spec fn eq_spec(&self, other: &Self) -> bool {
        self@ == other@
    }
}

impl Eq for CategoryMap<Mean> {

}

/// What `tally` holds under `c`; a pair of zeros where it holds nothing.
spec fn counted(tally: Map<Seq<char>, Mean>, c: Seq<char>) -> Mean {
    if tally.contains_key(c) {
        tally[c]
    } else {
        Mean { sum: 0, len: 0 }
    }
}

/// No entry of `tally` has a sum beyond what its number of terms allows, so
/// that one more term fits.
spec fn roomy(tally: Map<Seq<char>, Mean>) -> bool {
    forall|c: Seq<char>| #[trigger]
        tally.contains_key(c) ==> tally[c].len < usize::MAX && tally[c].sum <= tally[c].len
            * usize::MAX
}

/// One more term fits a sum that its number of terms bounds.
proof fn lemma_room(sum: u128, len: usize, term: usize)
    requires
        len < usize::MAX,
        sum <= len * usize::MAX,
    ensures
        sum + term <= (len + 1) * usize::MAX,
        (len + 1) * usize::MAX <= u128::MAX,
{
    assert((len + 1) * usize::MAX == len * usize::MAX + usize::MAX) by (nonlinear_arith);
    assert((len + 1) * usize::MAX <= 0xffff_ffff_ffff_ffff * 0xffff_ffff_ffff_ffff)
        by (nonlinear_arith)
        requires
            len + 1 <= 0xffff_ffff_ffff_ffff,
            usize::MAX <= 0xffff_ffff_ffff_ffff,
    ;
}

/// Counts `record` into `tally`: each of its categories gets one more term,
/// the head count of the category in `record`.
fn tally_record(tally: &mut CategoryMap<Mean>, record: &AbsRecord)
    requires
        roomy(old(tally)@),
    ensures
        forall|c: Seq<char>|
            final(tally)@.contains_key(c) <==> old(tally)@.contains_key(c)
                || record@.categories.contains_key(c),
        forall|c: Seq<char>|
            record@.categories.contains_key(c) ==> (#[trigger] final(tally)@[c]).sum == counted(
                old(tally)@,
                c,
            ).sum + record@.categories[c].len() && final(tally)@[c].len == counted(
                old(tally)@,
                c,
            ).len + 1,
        forall|c: Seq<char>|
            !record@.categories.contains_key(c) && old(tally)@.contains_key(c)
                ==> #[trigger] final(tally)@[c] == old(tally)@[c],
        forall|c: Seq<char>| #[trigger]
            final(tally)@.contains_key(c) ==> final(tally)@[c].sum <= final(tally)@[c].len
                * usize::MAX,
{
    let n = record.categories.len();
    let ghost names = record.categories.names();
    let mut j: usize = 0;
    while j < n
        invariant
            record.categories.wf(),
            names == record.categories.names(),
            n == names.len(),
            j <= n,
            roomy(old(tally)@),
            forall|c: Seq<char>|
                tally@.contains_key(c) <==> old(tally)@.contains_key(c) || names.take(
                    j as int,
                ).contains(c),
            forall|c: Seq<char>|
                names.take(j as int).contains(c) ==> (#[trigger] tally@[c]).sum == counted(
                    old(tally)@,
                    c,
                ).sum + record@.categories[c].len() && tally@[c].len == counted(old(tally)@, c).len
                    + 1,
            forall|c: Seq<char>|
                !names.take(j as int).contains(c) && old(tally)@.contains_key(c)
                    ==> #[trigger] tally@[c] == old(tally)@[c],
            forall|c: Seq<char>| #[trigger]
                tally@.contains_key(c) ==> tally@[c].sum <= tally@[c].len * usize::MAX,
        decreases n - j,
    {
        let name = record.categories.name(j);
        let set = record.categories.value(j);
        proof {
            lemma_next_label(names, j as int);
            assert(record@.categories[name@] == set@);
        }
        let so_far = match tally.get(name) {
            Some(mean) => *mean,
            None => Mean { sum: 0, len: 0 },
        };
        assert(so_far == counted(old(tally)@, name@));
        proof {
            lemma_room(so_far.sum, so_far.len, set.len());
        }
        let mean = Mean { sum: so_far.sum + set.len() as u128, len: so_far.len + 1 };
        tally.insert(name.clone(), mean);
        j += 1;
    }
    proof {
        lemma_all_labels(names);
        record.categories.lemma_keys();
    }
}

/// `all` and `tally` count the snapshots of `w`.
spec fn tallied(w: Seq<Option<Snapshot>>, all: Mean, tally: Map<Seq<char>, Mean>) -> bool {
    &&& all.sum == all_sum(w)
    &&& all.len == present_count(w)
    &&& all.len <= w.len()
    &&& all.sum <= all.len * usize::MAX
    &&& forall|c: Seq<char>| #[trigger] tally.contains_key(c) <==> label_count(w, c) > 0
    &&& forall|c: Seq<char>| #[trigger]
        tally.contains_key(c) ==> {
            &&& tally[c].sum == label_sum(w, c)
            &&& tally[c].len == label_count(w, c)
            &&& tally[c].len <= w.len()
            &&& tally[c].sum <= tally[c].len * usize::MAX
        }
}

/// What one more minute adds to the counts of a window.
proof fn lemma_push(w: Seq<Option<Snapshot>>, slot: Option<Snapshot>)
    ensures
        present_count(w.push(slot)) == present_count(w) + if slot is Some {
            1nat
        } else {
            0nat
        },
        all_sum(w.push(slot)) == all_sum(w) + match slot {
            Some(s) => s.all.len(),
            None => 0nat,
        },
        forall|c: Seq<char>| #[trigger]
            label_count(w.push(slot), c) == label_count(w, c) + if lists(slot, c) {
                1nat
            } else {
                0nat
            },
        forall|c: Seq<char>| #[trigger]
            label_sum(w.push(slot), c) == label_sum(w, c) + if lists(slot, c) {
                slot->0.categories[c].len()
            } else {
                0nat
            },
{
    assert(w.push(slot).drop_last() =~= w);
}

/// A category without an entry in `w` has no head count in it.
proof fn lemma_unlisted(w: Seq<Option<Snapshot>>, c: Seq<char>)
    requires
        label_count(w, c) == 0,
    ensures
        label_sum(w, c) == 0,
    decreases w.len(),
{
    if w.len() > 0 {
        lemma_unlisted(w.drop_last(), c);
    }
}

/// The means of the `2 * delta + 1` minutes of `mins` around `center`, none
/// where none of them has a snapshot.
pub fn window_average(mins: &Vec<Option<Arc<AbsRecord>>>, center: usize, delta: usize) -> (sample:
    Option<RollingAvgRecord>)
    requires
        delta <= center,
        center + delta < mins.len(),
    ensures
        averages_of(sample) == window_mean(
            window(snapshots_of(mins@), center as int, delta as int),
        ),
{
    let lo = center - delta;
    let hi = center + delta;
    let ghost seq = snapshots_of(mins@);
    let mut all = Mean { sum: 0, len: 0 };
    let mut tally: CategoryMap<Mean> = CategoryMap::new();
    let mut i: usize = lo;
    assert(seq.subrange(lo as int, lo as int) =~= Seq::empty());
    while i <= hi
        invariant
            lo <= i <= hi + 1,
            hi < mins.len(),
            seq == snapshots_of(mins@),
            tallied(seq.subrange(lo as int, i as int), all, tally@),
        decreases hi + 1 - i,
    {
        let ghost w = seq.subrange(lo as int, i as int);
        proof {
            lemma_push(w, seq[i as int]);
            assert(seq.subrange(lo as int, i + 1) =~= w.push(seq[i as int]));
            assert(roomy(tally@)) by {
                assert forall|c: Seq<char>| #[trigger] tally@.contains_key(c) implies tally@[c].len
                    < usize::MAX && tally@[c].sum <= tally@[c].len * usize::MAX by {
                    assert(tally@[c].len <= w.len());
                }
            }
        }
        match &mins[i] {
            None => {},
            Some(record) => {
                proof {
                    lemma_room(all.sum, all.len, record.all.len());
                }
                all = Mean { sum: all.sum + record.all.len() as u128, len: all.len + 1 };
                let ghost before = tally@;
                tally_record(&mut tally, record);
                proof {
                    let next = w.push(seq[i as int]);
                    assert forall|c: Seq<char>| #[trigger]
                        tally@.contains_key(c) implies tally@[c].sum == label_sum(next, c)
                        && tally@[c].len == label_count(next, c) && tally@[c].len <= next.len() by {
                        assert(seq[i as int] == Some(record@));
                        if before.contains_key(c) {
                            assert(before[c].len == label_count(w, c));
                        } else {
                            lemma_unlisted(w, c);
                        }
                        if !record@.categories.contains_key(c) {
                            assert(tally@[c] == before[c]);
                        }
                    }
                }
            },
        }
        i += 1;
    }
    let ghost w = seq.subrange(lo as int, hi + 1);
    if all.len == 0 {
        return None;
    }
    let n = tally.len();
    let mut most: usize = 0;
    let mut j: usize = 0;
    while j < n
        invariant
            tally.wf(),
            n == tally.names().len(),
            j <= n,
            forall|k: int| 0 <= k < j ==> (#[trigger] tally.values()[k]).len <= most,
            most == 0 || exists|k: int| 0 <= k < j && (#[trigger] tally.values()[k]).len == most,
        decreases n - j,
    {
        let len = tally.value(j).len;
        if len > most {
            most = len;
        }
        j += 1;
    }
    proof {
        tally.lemma_keys();
        assert forall|c: Seq<char>| #[trigger] label_count(w, c) <= most by {
            if tally@.contains_key(c) {
                let k = tally.names().index_of(c);
                tally.names().index_of_first_ensures(c);
                tally.lemma_entry(k);
                assert(tally.values()[k].len <= most);
            }
        }
        if most != 0 {
            let k = choose|k: int| 0 <= k < n && (#[trigger] tally.values()[k]).len == most;
            tally.lemma_entry(k);
            assert(label_count(w, tally.names()[k]) == most);
        }
        lemma_longest(w, most as nat);
    }
    let mut categories: CategoryMap<Mean> = CategoryMap::new();
    let mut j: usize = 0;
    while j < n
        invariant
            tally.wf(),
            n == tally.names().len(),
            j <= n,
            forall|c: Seq<char>|
                categories@.contains_key(c) <==> tally.names().take(j as int).contains(c),
            forall|c: Seq<char>|
                categories@.contains_key(c) ==> (#[trigger] categories@[c]) == (Mean {
                    sum: tally@[c].sum,
                    len: most,
                }),
        decreases n - j,
    {
        let name = tally.name(j);
        let sum = tally.value(j).sum;
        proof {
            lemma_next_label(tally.names(), j as int);
        }
        categories.insert(name.clone(), Mean { sum, len: most });
        j += 1;
    }
    let sample = RollingAvgRecord { all, categories };
    proof {
        lemma_all_labels(tally.names());
        assert(sample@.categories =~= window_mean(w)->0.categories);
    }
    Some(sample)
}

/// The means of the windows of half-width `delta` around the given centers,
/// in the order of the centers. Wraps rayon's `par_iter`, `map` and `collect`:
/// the closure runs once for each center, on whatever thread, and `collect`
/// puts the results in the order of the items they came from.
#[verifier::external_body]
fn par_window_averages(
    mins: &Vec<Option<Arc<AbsRecord>>>,
    centers: &Vec<usize>,
    delta: usize,
) -> (samples: Vec<Option<RollingAvgRecord>>)
    requires
        forall|k: int|
            0 <= k < centers.len() ==> delta <= #[trigger] centers[k] && centers[k] + delta
                < mins.len(),
    ensures
        samples.len() == centers.len(),
        forall|k: int|
            0 <= k < centers.len() ==> averages_of(#[trigger] samples[k]) == window_mean(
                window(snapshots_of(mins@), centers[k] as int, delta as int),
            ),
{
    centers.par_iter().map(|center| window_average(mins, *center, delta)).collect()
}

/// The means behind a sequence of samples.
pub open spec fn means_of(samples: Seq<Option<RollingAvgRecord>>) -> Seq<Option<Averages>> {
    Seq::new(samples.len(), |p: int| averages_of(samples[p]))
}

/// How many slots sampling with step `step` gives for `len` minutes: none
/// where no minute has `delta` minutes on both sides; else one for the first
/// such minute and `step` for each further sample.
pub open spec fn sampled_len(len: int, delta: int, step: int) -> int {
    if len - delta > delta {
        (len - 2 * delta - 1) / step * step + 1
    } else {
        0
    }
}

/// `out` samples `mins`: slot `p` of `out` stands for minute `delta + p` of
/// `mins`; every `step`-th slot, from the first on, holds the means of the
/// window around its minute, and the slots between hold nothing.
pub open spec fn samples(
    mins: Seq<Option<Snapshot>>,
    delta: int,
    step: int,
    out: Seq<Option<Averages>>,
) -> bool {
    &&& out.len() == sampled_len(mins.len() as int, delta, step)
    &&& forall|p: int|
        0 <= p < out.len() ==> #[trigger] out[p] == if p % step == 0 {
            window_mean(window(mins, delta + p, delta))
        } else {
            None
        }
}

/// The place `k * step + r` is `r` past a multiple of `step`.
proof fn lemma_place(k: int, r: int, step: int)
    requires
        0 <= k,
        0 <= r < step,
    ensures
        (k * step + r) % step == r,
        (k * step + r) / step == k,
        0 <= k * step,
{
    vstd::arithmetic::div_mod::lemma_fundamental_div_mod_converse(k * step + r, step, k, r);
    assert(0 <= k * step) by (nonlinear_arith)
        requires
            0 <= k,
            0 <= step,
    ;
}

/// Sample `k` of `last + 1` samples stands inside a span that the last sample starts in.
proof fn lemma_sample_fits(k: int, last: int, step: int, span: int)
    requires
        0 <= k <= last,
        0 < step,
        0 < span,
        last == (span - 1) / step,
    ensures
        0 <= k * step <= last * step <= span - 1,
{
    vstd::arithmetic::div_mod::lemma_remainder_lower(span - 1, step);
    assert(k * step <= last * step) by (nonlinear_arith)
        requires
            0 <= k <= last,
            0 < step,
    ;
    assert(0 <= k * step) by (nonlinear_arith)
        requires
            0 <= k,
            0 < step,
    ;
}

/// Samples `mins` with half-width `delta` and step `step`.
pub fn sample_windows(mins: &Vec<Option<Arc<AbsRecord>>>, delta: usize, step: usize) -> (out: Vec<
    Option<RollingAvgRecord>,
>)
    requires
        step >= 1,
    ensures
        samples(snapshots_of(mins@), delta as int, step as int, means_of(out@)),
{
    let len = mins.len();
    if len < delta || len - delta <= delta {
        return Vec::new();
    }
    let span = len - delta - delta;
    let last = (span - 1) / step;
    let ghost seq = snapshots_of(mins@);
    let mut centers: Vec<usize> = Vec::new();
    let mut k: usize = 0;
    while k <= last
        invariant
            k <= last + 1,
            last == (span - 1) / step as int,
            0 < step,
            0 < span,
            span == len - 2 * delta,
            len == mins.len(),
            centers.len() == k,
            forall|i: int| 0 <= i < k ==> #[trigger] centers[i] == delta + i * step,
        decreases last + 1 - k,
    {
        proof {
            lemma_sample_fits(k as int, last as int, step as int, span as int);
        }
        centers.push(delta + k * step);
        k += 1;
    }
    proof {
        assert forall|i: int| 0 <= i < centers.len() implies delta <= #[trigger] centers[i]
            && centers[i] + delta < mins.len() by {
            lemma_sample_fits(i, last as int, step as int, span as int);
        }
    }
    let averages = par_window_averages(mins, &centers, delta);
    let ghost given = averages@;
    let mut out: Vec<Option<RollingAvgRecord>> = Vec::new();
    let mut k: usize = 0;
    for sample in it: averages
        invariant
            it.seq() == given,
            given.len() == last + 1,
            k == it.index(),
            0 < step,
            0 < span,
            last == (span - 1) / step as int,
            span == mins.len() - 2 * delta,
            seq == snapshots_of(mins@),
            forall|i: int|
                0 <= i < given.len() ==> averages_of(#[trigger] given[i]) == window_mean(
                    window(seq, delta + i * step, delta as int),
                ),
            k == 0 ==> out.len() == 0,
            k > 0 ==> out.len() == (k - 1) * step + 1,
            forall|p: int|
                0 <= p < out.len() ==> averages_of(#[trigger] out[p]) == if p % (step as int) == 0 {
                    window_mean(window(seq, delta + p, delta as int))
                } else {
                    None
                },
    {
        proof {
            lemma_sample_fits(k as int, last as int, step as int, span as int);
            if k > 0 {
                lemma_place(k - 1, 0, step as int);
                assert((k - 1) * step + step == k * step) by (nonlinear_arith);
            }
        }
        if k > 0 {
            let mut r: usize = 1;
            while r < step
                invariant
                    1 <= r <= step,
                    0 < k <= last,
                    out.len() == (k - 1) * step + r,
                    k * step <= span - 1,
                    (k - 1) * step + step == k * step,
                    0 <= (k - 1) * step,
                    forall|p: int|
                        0 <= p < out.len() ==> averages_of(#[trigger] out[p]) == if p % (
                        step as int) == 0 {
                            window_mean(window(seq, delta + p, delta as int))
                        } else {
                            None
                        },
                decreases step - r,
            {
                proof {
                    lemma_place(k - 1, r as int, step as int);
                }
                out.push(None);
                r += 1;
            }
        }
        proof {
            lemma_place(k as int, 0, step as int);
            assert(averages_of(sample) == averages_of(given[k as int]));
        }
        out.push(sample);
        let ghost done = k as int;
        assert(out.len() == done * step + 1) by {
            if k == 0 {
                assert(done * step == 0) by (nonlinear_arith)
                    requires
                        done == 0,
                ;
            }
        }
        k += 1;
        assert((k - 1) * step == done * step) by (nonlinear_arith)
            requires
                k - 1 == done,
        ;
    }
    proof {
        assert(k == last + 1);
        assert(means_of(out@).len() == sampled_len(seq.len() as int, delta as int, step as int));
        assert forall|p: int| 0 <= p < out.len() implies #[trigger] means_of(out@)[p] == if p % (
        step as int) == 0 {
            window_mean(window(seq, delta + p, delta as int))
        } else {
            None
        } by {
            assert(means_of(out@)[p] == averages_of(out[p]));
        }
    }
    out
}

/// The head counts of one minute, each as a mean of one term.
pub open spec fn head_counts(slot: Option<Snapshot>) -> Option<Averages> {
    match slot {
        Some(s) => Some(
            Averages {
                all: Ratio { sum: s.all.len(), len: 1 },
                categories: s.categories.map_values(
                    |members: Set<usize>| Ratio { sum: members.len(), len: 1 },
                ),
            },
        ),
        None => None,
    }
}

/// The window of one minute has the head counts of that minute for its means.
pub proof fn lemma_window_of_one(slot: Option<Snapshot>)
    ensures
        window_mean(seq![slot]) == head_counts(slot),
{
    let w = seq![slot];
    assert(w.drop_last() =~= Seq::<Option<Snapshot>>::empty());
    assert(w.last() == slot);
    assert(present_count(w.drop_last()) == 0);
    assert(all_sum(w.drop_last()) == 0);
    assert forall|c: Seq<char>|
        label_count(w, c) == (if lists(slot, c) {
            1nat
        } else {
            0nat
        }) && label_sum(w, c) == (if lists(slot, c) {
            slot->0.categories[c].len()
        } else {
            0nat
        }) by {
        assert(label_count(w.drop_last(), c) == 0);
        assert(label_sum(w.drop_last(), c) == 0);
    }
    if let Some(s) = slot {
        if exists|c: Seq<char>| s.categories.contains_key(c) {
            let c = choose|c: Seq<char>| s.categories.contains_key(c);
            assert(label_count(w, c) == 1);
            assert(is_longest(w, 1));
            lemma_longest(w, 1);
        }
        assert(window_mean(w)->0.categories =~= head_counts(slot)->0.categories);
    }
}

/// Sampling with no window and step one gives, minute by minute, the head
/// counts of that minute: nothing is smoothed, and no minute with a snapshot
/// comes out empty.
pub proof fn lemma_zero_window(mins: Seq<Option<Snapshot>>, out: Seq<Option<Averages>>)
    requires
        samples(mins, 0, 1, out),
    ensures
        out.len() == mins.len(),
        forall|k: int| 0 <= k < mins.len() ==> #[trigger] out[k] == head_counts(mins[k]),
{
    if mins.len() > 0 {
        assert((mins.len() - 1) / 1 * 1 + 1 == mins.len());
    }
    assert forall|k: int| 0 <= k < mins.len() implies #[trigger] out[k] == head_counts(mins[k]) by {
        assert(k % 1 == 0);
        assert(window(mins, k, 0) =~= seq![mins[k]]);
        lemma_window_of_one(mins[k]);
    }
}

/// Sampling a range with the step that goes with its length gives a thousand
/// samples at most, and no more slots than the range has minutes.
pub proof fn lemma_sample_bound(len: int, delta: int, span: int)
    requires
        0 <= span,
        0 <= delta,
        len - 2 * delta <= span + 1,
    ensures
        sampled_len(len, delta, span / 1000 + 1) <= 999 * (span / 1000 + 1) + 1,
        sampled_len(len, delta, span / 1000 + 1) <= span + 1,
{
    let step = span / 1000 + 1;
    if len - delta > delta {
        let room = len - 2 * delta - 1;
        let last = room / step;
        vstd::arithmetic::div_mod::lemma_remainder_lower(room, step);
        assert(room < step * 1000);
        vstd::arithmetic::div_mod::lemma_multiply_divide_lt(room, step, 1000);
        assert(last * step <= 999 * step) by (nonlinear_arith)
            requires
                last <= 999,
                0 < step,
        ;
    }
}

/// The first and the last minute that the averages of `from..=to` with
/// half-width `delta` read: `delta` minutes more on both sides, as far as the
/// minutes go.
pub fn window_range(from: MinuteTimestamp, to: MinuteTimestamp, delta: u64) -> (range: (
    MinuteTimestamp,
    MinuteTimestamp,
))
    ensures
        range.0 == range_start(from, delta),
        range.1 == range_end(to, delta),
{
    (from.saturating_sub(delta), to.saturating_add(delta))
}

/// `from - delta`, or minute zero where that would lie before it.
pub open spec fn range_start(from: MinuteTimestamp, delta: u64) -> MinuteTimestamp {
    if from >= delta {
        (from - delta) as u64
    } else {
        0
    }
}

/// `to + delta`, or the last minute that there is where that would lie after it.
pub open spec fn range_end(to: MinuteTimestamp, delta: u64) -> MinuteTimestamp {
    if to + delta <= u64::MAX {
        (to + delta) as u64
    } else {
        u64::MAX
    }
}

/// The step between two samples: one where nothing is smoothed, else so large
/// that a range gives about a thousand samples at most.
pub open spec fn step_for(from: MinuteTimestamp, to: MinuteTimestamp, delta: u64) -> int {
    if delta == 0 {
        1
    } else {
        (to - from) / 1000 + 1
    }
}

/// The rolling averages of the minutes `from..=to` with half-width `delta`,
/// read out of the stored blocks of the hours that `window_range` touches.
/// With `delta` zero every minute comes out with its own head counts.
/// Otherwise the minutes that have `delta` minutes on both sides are sampled,
/// a thousand of them at most.
pub fn get_rolling_avg(
    blocks: &Vec<HourDef>,
    from: MinuteTimestamp,
    to: MinuteTimestamp,
    delta: u64,
) -> (r: Result<Vec<Option<RollingAvgRecord>>, CodecError>)
    requires
        from <= to,
        range_end(to, delta) - range_start(from, delta) < usize::MAX,
    ensures
        match r {
            Ok(out) => exists|mins: Seq<Option<Snapshot>>|
                {
                    &&& #[trigger] reads(
                        blocks@,
                        range_start(from, delta) as int,
                        range_end(to, delta) as int,
                        mins,
                    )
                    &&& samples(mins, delta as int, step_for(from, to, delta), means_of(out@))
                    &&& delta == 0 ==> out.len() == to - from + 1 && forall|k: int|
                        0 <= k < out.len() ==> averages_of(#[trigger] out[k]) == head_counts(
                            mins[k],
                        )
                    &&& delta > 0 ==> out.len() <= 999 * step_for(from, to, delta) + 1
                    &&& out.len() <= to - from + 1
                },
            Err(e) => e == CodecError::CorruptBlock && exists|j: int|
                0 <= j < blocks.len() && decode(#[trigger] blocks[j]@) is Err,
        },
{
    let (lo, hi) = window_range(from, to, delta);
    let mins = match get_minutes(blocks, lo, hi) {
        Ok(mins) => mins,
        Err(e) => {
            return Err(e);
        },
    };
    let step = if delta == 0 {
        1
    } else {
        ((to - from) / 1000 + 1) as usize
    };
    let out = sample_windows(&mins, delta as usize, step);
    proof {
        let seq = snapshots_of(mins@);
        assert(reads(blocks@, lo as int, hi as int, seq));
        assert(means_of(out@).len() == out.len());
        if delta > 0 {
            lemma_sample_bound(seq.len() as int, delta as int, to - from);
        }
        if delta == 0 {
            lemma_zero_window(seq, means_of(out@));
            assert forall|k: int| 0 <= k < out.len() implies averages_of(#[trigger] out[k])
                == head_counts(seq[k]) by {
                assert(means_of(out@)[k] == averages_of(out[k]));
            }
        }
    }
    Ok(out)
}

} // verus!
