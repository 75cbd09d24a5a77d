//! What the timing of transactions says of when they start.

use vstd::prelude::*;

use crate::micros;
use crate::order;
use crate::waveform::qspi::Transaction;
use crate::waveform::qspi_stats;
use crate::waveform::qspi_stats::TimingStats;

verus! {

/// Samples from the start of a transaction to the start of the next, none
/// where the next starts earlier.
pub open spec fn gap(transactions: Seq<Transaction>, i: int) -> u64 {
    if transactions[i + 1].start > transactions[i].start {
        (transactions[i + 1].start - transactions[i].start) as u64
    } else {
        0
    }
}

/// The gaps between all neighbouring transactions.
pub open spec fn gaps(transactions: Seq<Transaction>) -> Seq<u64> {
    Seq::new((transactions.len() - 1) as nat, |i: int| gap(transactions, i))
}

/// The intervals are the gaps between neighbouring starts, each as often as it
/// occurs, in ascending order.
pub proof fn law_intervals_are_the_gaps(
    stats: TimingStats,
    transactions: Seq<Transaction>,
    samplerate_hz: u64,
    exclude_outliers: bool,
)
    requires
        qspi_stats::timing_of(Some(stats), transactions, samplerate_hz, exclude_outliers),
    ensures
        stats.intervals@.len() == transactions.len() - 1,
        stats.intervals@.to_multiset() == gaps(transactions).to_multiset(),
        forall|i: int, j: int|
            0 <= i <= j < stats.intervals@.len() ==> stats.intervals@[i] <= stats.intervals@[j],
{
    order::lemma_in_order_exists(qspi_stats::intervals(transactions));
    assert(gaps(transactions) =~= qspi_stats::intervals(transactions));
}

/// There is timing exactly if there are two transactions and a sample rate,
/// unless the outliers are to be left out and half of the gaps are zero.
pub proof fn law_there_is_timing(
    stats: Option<TimingStats>,
    transactions: Seq<Transaction>,
    samplerate_hz: u64,
    exclude_outliers: bool,
)
    requires
        qspi_stats::timing_of(stats, transactions, samplerate_hz, exclude_outliers),
    ensures
        transactions.len() < 2 || samplerate_hz == 0 ==> stats is None,
        transactions.len() >= 2 && samplerate_hz > 0 && !exclude_outliers ==> stats is Some,
        transactions.len() >= 2 && samplerate_hz > 0 && exclude_outliers && order::in_order(
            gaps(transactions),
        )[(transactions.len() - 1) / 2] > 0 ==> stats is Some,
{
    if transactions.len() >= 2 && samplerate_hz > 0 {
        assert(gaps(transactions) =~= qspi_stats::intervals(transactions));
        qspi_stats::law_timing_empty_iff_median_zero(transactions, samplerate_hz);
    }
}

/// The outliers among the first `n` intervals, one by one.
proof fn lemma_outlier_periods(transactions: Seq<Transaction>, samplerate_hz: u64, n: int)
    requires
        0 <= n < transactions.len() <= usize::MAX,
    ensures
        forall|k: int|
            0 <= k < qspi_stats::outlier_periods(transactions, samplerate_hz, n).len() ==> {
                let o = #[trigger] qspi_stats::outlier_periods(transactions, samplerate_hz, n)[k];
                &&& o.0 < n
                &&& o.1 == o.0 + 1
                &&& o.2 == gap(transactions, o.0 as int)
                &&& micros::micros(o.2, samplerate_hz) >= qspi_stats::cutoff(
                    transactions,
                    samplerate_hz,
                )
            },
        forall|k: int, l: int|
            0 <= k < l < qspi_stats::outlier_periods(transactions, samplerate_hz, n).len() ==> (
            #[trigger] qspi_stats::outlier_periods(transactions, samplerate_hz, n)[k]).0 < (
            #[trigger] qspi_stats::outlier_periods(transactions, samplerate_hz, n)[l]).0,
        forall|i: int|
            0 <= i < n && micros::micros(#[trigger] gap(transactions, i), samplerate_hz)
                >= qspi_stats::cutoff(transactions, samplerate_hz) ==> listed(
                qspi_stats::outlier_periods(transactions, samplerate_hz, n),
                i,
            ),
    decreases n,
{
    if n > 0 {
        lemma_outlier_periods(transactions, samplerate_hz, n - 1);
        let before = qspi_stats::outlier_periods(transactions, samplerate_hz, n - 1);
        let after = qspi_stats::outlier_periods(transactions, samplerate_hz, n);
        assert(qspi_stats::interval(transactions, n - 1) == gap(transactions, n - 1));
        assert(forall|k: int| 0 <= k < before.len() ==> after[k] == before[k]);
        assert forall|i: int|
            0 <= i < n && micros::micros(#[trigger] gap(transactions, i), samplerate_hz)
                >= qspi_stats::cutoff(transactions, samplerate_hz) implies listed(after, i) by {
            if i == n - 1 {
                assert(after[before.len() as int].0 == i);
            } else {
                assert(listed(before, i));
                let k = choose|k: int| 0 <= k < before.len() && (#[trigger] before[k]).0 == i;
                assert(after[k].0 == i);
            }
        }
    }
}

/// Whether the gap behind transaction `i` is among the outliers.
pub open spec fn listed(outliers: Seq<(usize, usize, u64)>, i: int) -> bool {
    exists|k: int| 0 <= k < outliers.len() && (#[trigger] outliers[k]).0 == i
}

/// The outliers are the gaps of at least twice the median, in order, each with
/// the transactions on both sides. The median is the gap in the middle.
/// Microseconds in double precision decide; for a median below 2^49 samples
/// they decide as the numbers of samples do.
pub proof fn law_outliers_take_twice_the_median(
    stats: TimingStats,
    transactions: Seq<Transaction>,
    samplerate_hz: u64,
    exclude_outliers: bool,
    i: int,
)
    requires
        qspi_stats::timing_of(Some(stats), transactions, samplerate_hz, exclude_outliers),
        0 <= i < transactions.len() - 1,
        transactions.len() <= usize::MAX,
    ensures
        listed(stats.period_outliers@, i) <==> micros::micros(
            gap(transactions, i),
            samplerate_hz,
        ) >= 2 * micros::micros(
            stats.intervals@[(transactions.len() - 1) / 2],
            samplerate_hz,
        ),
        stats.intervals@[(transactions.len() - 1) / 2] < 0x2_0000_0000_0000 ==> (listed(
            stats.period_outliers@,
            i,
        ) <==> gap(transactions, i) >= 2 * stats.intervals@[(transactions.len() - 1) / 2]),
        forall|k: int|
            0 <= k < stats.period_outliers@.len() ==> {
                let o = #[trigger] stats.period_outliers@[k];
                &&& o.0 < transactions.len() - 1
                &&& o.1 == o.0 + 1
                &&& o.2 == gap(transactions, o.0 as int)
            },
        forall|k: int, l: int|
            0 <= k < l < stats.period_outliers@.len() ==> (#[trigger] stats.period_outliers@[k]).0
                < (#[trigger] stats.period_outliers@[l]).0,
{
    lemma_outlier_periods(transactions, samplerate_hz, transactions.len() - 1);
    let outliers = stats.period_outliers@;
    let m = stats.intervals@[(transactions.len() - 1) / 2];
    let g = gap(transactions, i);
    if listed(outliers, i) {
        let k = choose|k: int| 0 <= k < outliers.len() && (#[trigger] outliers[k]).0 == i;
        assert(outliers[k].2 == g);
    }
    if m < 0x2_0000_0000_0000 {
        micros::law_micros_double(m, samplerate_hz);
        if g >= 2 * m {
            micros::law_micros_keep_order((2 * m) as u64, g, samplerate_hz);
        } else {
            micros::law_micros_tell_samples_apart(g, (2 * m) as u64, samplerate_hz);
        }
    }
}

/// Where outliers are to be left out, the values rest on the intervals below
/// twice the median; otherwise, or where there are no outliers, on all of them.
/// The smallest, the largest and the middle one of these are given.
pub proof fn law_values_rest_on_the_counted(
    stats: TimingStats,
    transactions: Seq<Transaction>,
    samplerate_hz: u64,
    exclude_outliers: bool,
)
    requires
        qspi_stats::timing_of(Some(stats), transactions, samplerate_hz, exclude_outliers),
    ensures
        0 < stats.counted <= stats.intervals@.len(),
        !exclude_outliers || stats.period_outliers@.len() == 0 ==> stats.counted
            == stats.intervals@.len(),
        exclude_outliers && stats.period_outliers@.len() > 0 ==> forall|j: int|
            0 <= j < stats.intervals@.len() ==> (j < stats.counted <==> micros::micros(
                #[trigger] stats.intervals@[j],
                samplerate_hz,
            ) < 2 * micros::micros(
                stats.intervals@[(transactions.len() - 1) / 2],
                samplerate_hz,
            )),
        stats.min == stats.intervals@[0],
        stats.max == stats.intervals@[stats.counted - 1],
        stats.p50 == stats.intervals@[stats.counted as int / 2],
        stats.excludes_outliers == exclude_outliers,
{
    qspi_stats::lemma_sorted_intervals(transactions);
    if exclude_outliers && stats.period_outliers@.len() > 0 {
        assert forall|j: int| 0 <= j < stats.intervals@.len() implies (j < stats.counted
            <==> micros::micros(#[trigger] stats.intervals@[j], samplerate_hz) < 2 * micros::micros(
            stats.intervals@[(transactions.len() - 1) / 2],
            samplerate_hz,
        )) by {
            qspi_stats::law_outliers_are_left_out(transactions, samplerate_hz, j);
        }
        if stats.counted > stats.intervals@.len() {
            qspi_stats::lemma_count_within(
                stats.intervals@,
                qspi_stats::cutoff(transactions, samplerate_hz),
                samplerate_hz,
            );
        }
    }
}

/// The percentiles stand 95 and 99 percent of the way through the counted
/// intervals, rounded down to a whole place.
pub proof fn law_percentiles_stand_near_the_end(
    stats: TimingStats,
    transactions: Seq<Transaction>,
    samplerate_hz: u64,
    exclude_outliers: bool,
)
    requires
        qspi_stats::timing_of(Some(stats), transactions, samplerate_hz, exclude_outliers),
        stats.counted < 0x2000_0000_0000,
    ensures
        stats.p95 == stats.intervals@[95 * stats.counted / 100],
        stats.p99 == stats.intervals@[99 * stats.counted / 100],
{
    micros::law_percentiles_are_exact(stats.counted as nat);
}

/// Entries add up to the same in any order.
proof fn lemma_total_of_multiset(a: Seq<u64>, b: Seq<u64>)
    requires
        a.to_multiset() == b.to_multiset(),
    ensures
        qspi_stats::total(a) == qspi_stats::total(b),
    decreases a.len(),
{
    broadcast use vstd::seq_lib::group_to_multiset_ensures;

    assert(a.len() == a.to_multiset().len());
    assert(b.len() == b.to_multiset().len());
    if a.len() > 0 {
        let x = a.last();
        assert(a[a.len() - 1] == x);
        assert(a.contains(x));
        assert(a.to_multiset().contains(x));
        assert(b.to_multiset().contains(x));
        assert(b.contains(x));
        let k = b.index_of(x);
        assert(b[k] == x);
        lemma_total_without(b, k);
        vstd::seq_lib::to_multiset_remove(b, k);
        vstd::seq_lib::to_multiset_remove(a, a.len() - 1);
        assert(a.remove(a.len() - 1) =~= a.drop_last());
        lemma_total_of_multiset(a.drop_last(), b.remove(k));
    }
}

/// Taking an entry out takes it off the total.
proof fn lemma_total_without(s: Seq<u64>, k: int)
    requires
        0 <= k < s.len(),
    ensures
        qspi_stats::total(s) == qspi_stats::total(s.remove(k)) + s[k],
    decreases s.len(),
{
    if k == s.len() - 1 {
        assert(s.remove(k) =~= s.drop_last());
    } else {
        lemma_total_without(s.drop_last(), k);
        assert(s.remove(k).drop_last() =~= s.drop_last().remove(k));
        assert(s.remove(k).last() == s.last());
    }
}

/// Gaps between ascending starts add up to the distance from first to last.
proof fn lemma_gaps_telescope(transactions: Seq<Transaction>)
    requires
        transactions.len() >= 1,
        forall|i: int, j: int|
            0 <= i <= j < transactions.len() ==> (#[trigger] transactions[i]).start <= (
            #[trigger] transactions[j]).start,
    ensures
        qspi_stats::total(gaps(transactions)) == transactions.last().start
            - transactions.first().start,
    decreases transactions.len(),
{
    let all = gaps(transactions);
    if transactions.len() > 1 {
        let shorter = transactions.drop_last();
        lemma_gaps_telescope(shorter);
        assert(all.drop_last() =~= gaps(shorter));
        assert(all.last() == gap(transactions, transactions.len() - 2));
    }
}

/// Where transactions start in order and none is left out, the counted
/// intervals together last from the first start to the last.
pub proof fn law_intervals_add_up(
    stats: TimingStats,
    transactions: Seq<Transaction>,
    samplerate_hz: u64,
)
    requires
        qspi_stats::timing_of(Some(stats), transactions, samplerate_hz, false),
        forall|i: int, j: int|
            0 <= i <= j < transactions.len() ==> (#[trigger] transactions[i]).start <= (
            #[trigger] transactions[j]).start,
    ensures
        stats.sum == transactions.last().start - transactions.first().start,
{
    law_intervals_are_the_gaps(stats, transactions, samplerate_hz, false);
    law_values_rest_on_the_counted(stats, transactions, samplerate_hz, false);
    lemma_total_of_multiset(stats.intervals@, gaps(transactions));
    lemma_gaps_telescope(transactions);
    assert(stats.intervals@.take(stats.counted as int) =~= stats.intervals@);
}

/// The sum of sequences put together is the sum of their sums, and that of one
/// entry is the entry.
pub proof fn law_totals_add_up(a: Seq<u64>, b: Seq<u64>, x: u64)
    ensures
        qspi_stats::total(a + b) == qspi_stats::total(a) + qspi_stats::total(b),
        qspi_stats::total(seq![x]) == x,
        qspi_stats::total(Seq::empty()) == 0,
    decreases b.len(),
{
    reveal_with_fuel(qspi_stats::total, 2);
    assert(seq![x].drop_last() =~= Seq::<u64>::empty());
    if b.len() == 0 {
        assert(a + b =~= a);
    } else {
        law_totals_add_up(a, b.drop_last(), x);
        assert((a + b).drop_last() =~= a + b.drop_last());
    }
}

/// The values rest on the intervals that are counted, the sum included.
pub proof fn law_sum_is_of_the_counted(
    stats: TimingStats,
    transactions: Seq<Transaction>,
    samplerate_hz: u64,
    exclude_outliers: bool,
)
    requires
        qspi_stats::timing_of(Some(stats), transactions, samplerate_hz, exclude_outliers),
    ensures
        stats.sum == qspi_stats::total(stats.intervals@.take(stats.counted as int)),
{
}

/// When transactions end makes no difference to their timing.
pub proof fn law_timing_rests_on_starts(
    stats: Option<TimingStats>,
    a: Seq<Transaction>,
    b: Seq<Transaction>,
    samplerate_hz: u64,
    exclude_outliers: bool,
)
    requires
        a.len() == b.len(),
        forall|i: int| 0 <= i < a.len() ==> (#[trigger] a[i]).start == b[i].start,
    ensures
        qspi_stats::timing_of(stats, a, samplerate_hz, exclude_outliers) <==> qspi_stats::timing_of(
            stats,
            b,
            samplerate_hz,
            exclude_outliers,
        ),
{
    if a.len() > 0 {
        assert forall|i: int| 0 <= i < a.len() - 1 implies qspi_stats::interval(a, i)
            == qspi_stats::interval(b, i) by {
            assert(a[i].start == b[i].start && a[i + 1].start == b[i + 1].start);
        }
        assert(qspi_stats::intervals(a) =~= qspi_stats::intervals(b));
        lemma_outliers_of_starts(a, b, samplerate_hz, a.len() - 1);
    }
}

/// When transactions end makes no difference to which gaps are outliers.
proof fn lemma_outliers_of_starts(
    a: Seq<Transaction>,
    b: Seq<Transaction>,
    samplerate_hz: u64,
    n: int,
)
    requires
        a.len() == b.len(),
        n < a.len(),
        qspi_stats::intervals(a) == qspi_stats::intervals(b),
    ensures
        qspi_stats::outlier_periods(a, samplerate_hz, n) == qspi_stats::outlier_periods(
            b,
            samplerate_hz,
            n,
        ),
    decreases n,
{
    if n > 0 {
        lemma_outliers_of_starts(a, b, samplerate_hz, n - 1);
        assert(qspi_stats::intervals(a)[n - 1] == qspi_stats::interval(a, n - 1));
        assert(qspi_stats::intervals(b)[n - 1] == qspi_stats::interval(b, n - 1));
    }
}

} // verus!
