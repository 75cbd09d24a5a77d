//! Sparse signals: a first value and the samples at which the signal flips.

use vstd::prelude::*;

verus! {

/// Whether the entries never decrease.
pub open spec fn sorted(ts: Seq<u64>) -> bool {
    forall|i: int, j: int| 0 <= i <= j < ts.len() ==> ts[i] <= ts[j]
}

/// Whether the entries strictly increase.
pub open spec fn ascending(ts: Seq<u64>) -> bool {
    forall|i: int, j: int| 0 <= i < j < ts.len() ==> ts[i] < ts[j]
}

/// How many entries lie below `bound`.
pub open spec fn count_below(ts: Seq<u64>, bound: int) -> nat
    decreases ts.len(),
{
    if ts.len() == 0 {
        0
    } else {
        count_below(ts.drop_last(), bound) + if ts.last() < bound {
            1nat
        } else {
            0nat
        }
    }
}

/// Level at sample `s` of a signal that starts at `first_value` and flips at
/// each of `transitions`.
pub open spec fn level(first_value: u8, transitions: Seq<u64>, s: int) -> int {
    (first_value + count_below(transitions, s + 1)) % 2
}

/// An index that splits `ts` around `bound` is the number of entries below it.
pub proof fn lemma_count_below_split(ts: Seq<u64>, bound: int, k: int)
    requires
        0 <= k <= ts.len(),
        forall|i: int| 0 <= i < k ==> ts[i] < bound,
        forall|i: int| k <= i < ts.len() ==> ts[i] >= bound,
    ensures
        count_below(ts, bound) == k,
    decreases ts.len(),
{
    if ts.len() > 0 {
        let shorter = ts.drop_last();
        assert(forall|i: int| 0 <= i < shorter.len() ==> shorter[i] == ts[i]);
        if k == ts.len() {
            lemma_count_below_split(shorter, bound, k - 1);
        } else {
            lemma_count_below_split(shorter, bound, k);
        }
    }
}

/// Where the entries are sorted, the count splits the sequence.
pub proof fn lemma_count_below_sorted(ts: Seq<u64>, bound: int)
    requires
        sorted(ts),
    ensures
        count_below(ts, bound) <= ts.len(),
        forall|i: int| 0 <= i < count_below(ts, bound) ==> ts[i] < bound,
        forall|i: int| count_below(ts, bound) <= i < ts.len() ==> ts[i] >= bound,
    decreases ts.len(),
{
    if ts.len() > 0 {
        let shorter = ts.drop_last();
        assert(forall|i: int| 0 <= i < shorter.len() ==> shorter[i] == ts[i]);
        lemma_count_below_sorted(shorter, bound);
        if ts.last() < bound {
            assert(ts[ts.len() - 1] < bound);
            assert forall|i: int| 0 <= i < ts.len() implies ts[i] < bound by {
                assert(ts[i] <= ts[ts.len() - 1]);
            }
            lemma_count_below_split(shorter, bound, shorter.len() as int);
        }
    }
}

/// A larger bound counts at least as many entries.
pub proof fn lemma_count_below_monotone(ts: Seq<u64>, a: int, b: int)
    requires
        a <= b,
    ensures
        count_below(ts, a) <= count_below(ts, b) <= ts.len(),
    decreases ts.len(),
{
    if ts.len() > 0 {
        lemma_count_below_monotone(ts.drop_last(), a, b);
    }
}

/// Counts add up over a concatenation.
pub proof fn lemma_count_below_concat(a: Seq<u64>, b: Seq<u64>, bound: int)
    ensures
        count_below(a + b, bound) == count_below(a, bound) + count_below(b, bound),
    decreases b.len(),
{
    if b.len() == 0 {
        assert(a + b =~= a);
    } else {
        assert((a + b).drop_last() =~= a + b.drop_last());
        lemma_count_below_concat(a, b.drop_last(), bound);
    }
}

/// Strictly increasing entries are sorted.
pub proof fn lemma_ascending_sorted(ts: Seq<u64>)
    requires
        ascending(ts),
    ensures
        sorted(ts),
{
    assert forall|i: int, j: int| 0 <= i <= j < ts.len() implies ts[i] <= ts[j] by {
        if i < j {
            assert(ts[i] < ts[j]);
        }
    }
}

/// Whether the entries never decrease.
pub fn is_sorted(ts: &[u64]) -> (b: bool)
    ensures
        b == sorted(ts@),
{
    let mut i: usize = 1;
    while i < ts.len()
        invariant
            1 <= i,
            i <= ts@.len() || i == 1,
            forall|a: int, b: int| 0 <= a <= b < i && b < ts@.len() ==> ts@[a] <= ts@[b],
        decreases ts@.len() - i,
    {
        if ts[i] < ts[i - 1] {
            return false;
        }
        i = i + 1;
    }
    true
}

/// Number of entries below `bound`, found by bisection.
pub fn count_less(ts: &[u64], bound: u64) -> (n: usize)
    ensures
        n <= ts@.len(),
        sorted(ts@) ==> n == count_below(ts@, bound as int),
{
    let mut lo: usize = 0;
    let mut hi: usize = ts.len();
    while lo < hi
        invariant
            lo <= hi <= ts@.len(),
            sorted(ts@) ==> forall|i: int| 0 <= i < lo ==> ts@[i] < bound,
            sorted(ts@) ==> forall|i: int| hi <= i < ts@.len() ==> ts@[i] >= bound,
        decreases hi - lo,
    {
        let mid: usize = lo + (hi - lo) / 2;
        if ts[mid] < bound {
            lo = mid + 1;
        } else {
            hi = mid;
        }
    }
    proof {
        if sorted(ts@) {
            lemma_count_below_split(ts@, bound as int, lo as int);
        }
    }
    lo
}

/// Number of entries at or below `s`, found by bisection.
pub fn count_at_most(ts: &[u64], s: u64) -> (n: usize)
    ensures
        n <= ts@.len(),
        sorted(ts@) ==> n == count_below(ts@, s + 1),
{
    if s == u64::MAX {
        proof {
            if sorted(ts@) {
                lemma_count_below_split(ts@, s + 1, ts@.len() as int);
            }
        }
        ts.len()
    } else {
        count_less(ts, s + 1)
    }
}

/// Parity of a level after `flips` flips.
pub fn flipped(value: u8, flips: usize) -> (v: u8)
    ensures
        v == (value + flips) % 2,
{
    ((value % 2) + (flips % 2) as u8) % 2
}

/// Per-channel sparse signal representation.
/// `transitions` contains absolute sample indices where the signal flips.
pub struct SparseChannel {
    pub first_value: u8,
    pub transitions: Vec<u64>,
}

impl SparseChannel {
    pub fn new() -> (channel: Self)
        ensures
            channel.first_value == 0,
            channel.transitions@ == Seq::<u64>::empty(),
    {
        SparseChannel { first_value: 0, transitions: Vec::new() }
    }

    /// Signal value at absolute sample index `s`. The transitions must be
    /// sorted for the value to have a meaning.
    pub fn value_at(&self, s: u64) -> (v: u8)
        ensures
            v <= 1,
            sorted(self.transitions@) ==> v == level(
                self.first_value,
                self.transitions@,
                s as int,
            ),
    {
        let n: usize = count_at_most(self.transitions.as_slice(), s);
        flipped(self.first_value, n)
    }

    /// Transitions in [start, end) as a slice.
    pub fn transitions_in_range(&self, start: u64, end: u64) -> (slice: &[u64])
        requires
            sorted(self.transitions@),
            start <= end || count_below(self.transitions@, start as int) <= count_below(
                self.transitions@,
                end as int,
            ),
        ensures
            slice@ == self.transitions@.subrange(
                count_below(self.transitions@, start as int) as int,
                count_below(self.transitions@, end as int) as int,
            ),
    {
        let lo: usize = count_less(self.transitions.as_slice(), start);
        let hi: usize = count_less(self.transitions.as_slice(), end);
        proof {
            if start <= end {
                lemma_count_below_monotone(self.transitions@, start as int, end as int);
            }
        }
        &self.transitions[lo..hi]
    }

    /// Number of transitions in [start, end).
    pub fn transition_count_in_range(&self, start: u64, end: u64) -> (n: usize)
        requires
            sorted(self.transitions@),
            start <= end || count_below(self.transitions@, start as int) <= count_below(
                self.transitions@,
                end as int,
            ),
        ensures
            n == count_below(self.transitions@, end as int) - count_below(
                self.transitions@,
                start as int,
            ),
    {
        let lo: usize = count_less(self.transitions.as_slice(), start);
        let hi: usize = count_less(self.transitions.as_slice(), end);
        proof {
            if start <= end {
                lemma_count_below_monotone(self.transitions@, start as int, end as int);
            }
        }
        hi - lo
    }
}

/// Lightweight view into a channel's edge data with correct first_value.
pub struct ChannelView<'a> {
    pub first_value: u8,
    pub transitions: &'a [u64],
}

impl<'a> ChannelView<'a> {
    /// Signal value at absolute sample index `s`. The transitions must be
    /// sorted for the value to have a meaning.
    pub fn value_at(&self, s: u64) -> (v: u8)
        ensures
            v <= 1,
            sorted(self.transitions@) ==> v == level(
                self.first_value,
                self.transitions@,
                s as int,
            ),
    {
        let n: usize = count_at_most(self.transitions, s);
        flipped(self.first_value, n)
    }

    /// Signal value just before sample `s`.
    pub fn value_before(&self, s: u64) -> (v: u8)
        requires
            sorted(self.transitions@),
        ensures
            v == (self.first_value + count_below(self.transitions@, s as int)) % 2,
            s > 0 ==> v == level(self.first_value, self.transitions@, s - 1),
    {
        let n: usize = count_less(self.transitions, s);
        flipped(self.first_value, n)
    }

    /// Transitions in [start, end) as a slice.
    pub fn transitions_in_range(&self, start: u64, end: u64) -> (slice: &[u64])
        requires
            sorted(self.transitions@),
            start <= end || count_below(self.transitions@, start as int) <= count_below(
                self.transitions@,
                end as int,
            ),
        ensures
            slice@ == self.transitions@.subrange(
                count_below(self.transitions@, start as int) as int,
                count_below(self.transitions@, end as int) as int,
            ),
    {
        let lo: usize = count_less(self.transitions, start);
        let hi: usize = count_less(self.transitions, end);
        proof {
            if start <= end {
                lemma_count_below_monotone(self.transitions@, start as int, end as int);
            }
        }
        &self.transitions[lo..hi]
    }
}

/// Entries are counted one by one: those below a bound in two sequences together
/// are those of each, and a single entry counts if it lies below.
pub proof fn law_counts_add_up(a: Seq<u64>, b: Seq<u64>, t: u64, bound: int)
    ensures
        count_below(a + b, bound) == count_below(a, bound) + count_below(b, bound),
        count_below(Seq::empty(), bound) == 0,
        count_below(seq![t], bound) == if t < bound {
            1nat
        } else {
            0nat
        },
{
    lemma_count_below_concat(a, b, bound);
    reveal_with_fuel(count_below, 2);
    assert(seq![t].drop_last() =~= Seq::<u64>::empty());
}

/// Up to its first transition a signal has its first value.
pub proof fn law_signal_starts_at_first_value(first_value: u8, transitions: Seq<u64>, s: int)
    requires
        first_value <= 1,
        forall|i: int| 0 <= i < transitions.len() ==> #[trigger] transitions[i] > s,
    ensures
        level(first_value, transitions, s) == first_value,
{
    lemma_count_below_split(transitions, s + 1, 0);
}

/// The transitions of a range are those at or after its start and before its end.
pub proof fn law_range_holds_its_transitions(
    transitions: Seq<u64>,
    start: int,
    end: int,
    t: u64,
)
    requires
        sorted(transitions),
        start <= end,
    ensures
        count_below(transitions, start) <= count_below(transitions, end) <= transitions.len(),
        transitions.subrange(
            count_below(transitions, start) as int,
            count_below(transitions, end) as int,
        ).contains(t) <==> transitions.contains(t) && start <= t < end,
{
    lemma_count_below_monotone(transitions, start, end);
    lemma_count_below_sorted(transitions, start);
    lemma_count_below_sorted(transitions, end);
    let lo = count_below(transitions, start) as int;
    let hi = count_below(transitions, end) as int;
    let part = transitions.subrange(lo, hi);
    if part.contains(t) {
        let i = part.index_of(t);
        assert(transitions[lo + i] == t);
    }
    if transitions.contains(t) && start <= t < end {
        let i = transitions.index_of(t);
        assert(lo <= i < hi);
        assert(part[i - lo] == t);
    }
}

/// Of two runs of transitions, one after the other, all are in order where each
/// run is and the second begins no earlier than the first ends.
pub proof fn law_order_adds_up(a: Seq<u64>, b: Seq<u64>, t: u64)
    ensures
        sorted(Seq::empty()),
        sorted(seq![t]),
        a.len() > 0 && b.len() > 0 ==> (sorted(a + b) <==> sorted(a) && sorted(b) && a.last()
            <= b.first()),
{
    if a.len() > 0 && b.len() > 0 {
        let all = a + b;
        if sorted(all) {
            assert forall|i: int, j: int| 0 <= i <= j < a.len() implies a[i] <= a[j] by {
                assert(all[i] == a[i] && all[j] == a[j]);
            }
            assert forall|i: int, j: int| 0 <= i <= j < b.len() implies b[i] <= b[j] by {
                assert(all[a.len() + i] == b[i] && all[a.len() + j] == b[j]);
            }
            assert(all[a.len() - 1] == a.last() && all[a.len() as int] == b.first());
        }
        if sorted(a) && sorted(b) && a.last() <= b.first() {
            assert forall|i: int, j: int| 0 <= i <= j < all.len() implies all[i] <= all[j] by {
                if i < a.len() {
                    assert(all[i] == a[i] && a[i] <= a[a.len() - 1]);
                }
                if j >= a.len() {
                    assert(all[j] == b[j - a.len()] && b[0] <= b[j - a.len()]);
                }
            }
        }
    }
}

} // verus!
