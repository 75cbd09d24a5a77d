//! What the packet statistics show: rare groups, groups by size, where to jump.

use vstd::prelude::*;

use crate::binary;
use crate::binary::round_bits;
use crate::waveform::qspi::Transaction;
use crate::waveform::qspi_stats;
use crate::waveform::qspi_stats::{PacketGroup, PacketGroups};

verus! {

/// Significant binary digits of single precision.
pub const SINGLE_DIGITS: u32 = 24;

/// Six percent in single precision, in units of 2^-28.
pub const SIX_PERCENT: u128 = 16_106_127;

/// `SIX_PERCENT` is six percent rounded to single precision.
pub proof fn lemma_six_percent()
    ensures
        binary::two_to(28) == 268_435_456,
        SIX_PERCENT == binary::nearest(6 * binary::two_to(28) as int, 100),
        binary::two_to(23) <= SIX_PERCENT < binary::two_to(24),
{
    reveal_with_fuel(binary::two_to, 29);
    assert(binary::two_to(28) == 268_435_456);
}

/// Size below which a group of packets is rare: six percent of the total, in
/// single precision, cut to a whole number, and at least one.
pub open spec fn rare_below(total: nat) -> nat {
    let share = binary::rounded(
        binary::rounded(total, SINGLE_DIGITS as nat) * SIX_PERCENT as nat,
        SINGLE_DIGITS as nat,
    ) / binary::two_to(28);
    if share > 1 {
        share
    } else {
        1
    }
}

/// Rounding does not double a number.
proof fn lemma_rounded_double(n: nat, p: nat)
    requires
        p > 0,
    ensures
        binary::rounded(n, p) <= 2 * n,
{
    let k = binary::excess_bits(n, p);
    let unit = binary::two_to(k);
    let w = binary::two_to((p - 1) as nat);
    binary::lemma_two_to_pos(k);
    binary::lemma_two_to_pos((p - 1) as nat);
    binary::lemma_excess_bits(n, p);
    binary::lemma_nearest_bounds(n as int, unit as int);
    let m = binary::nearest(n as int, unit as int);
    if k == 0 {
        assert(n as int / 1 == n as int);
        assert(n as int % 1 == 0);
        assert(m * unit == n) by (nonlinear_arith)
            requires
                m == n,
                unit == 1,
        ;
    } else {
        assert(m * unit <= 2 * n) by (nonlinear_arith)
            requires
                m <= n as int / unit as int + 1,
                unit > 0,
                unit * w <= n,
                w >= 1,
        ;
    }
}

/// Size below which a group of packets is rare.
pub fn outlier_threshold(total: usize) -> (threshold: usize)
    ensures
        threshold == rare_below(total as nat),
        threshold >= 1,
{
    proof {
        lemma_six_percent();
        lemma_rounded_double(total as nat, 24);
    }
    let single: u128 = round_bits(total as u128, SINGLE_DIGITS);
    proof {
        assert(single * SIX_PERCENT <= 0x1_0000_0000_0000_0000_0000_0000 - 1);
        lemma_rounded_double(single as nat * SIX_PERCENT as nat, 24);
    }
    let product: u128 = round_bits(single * SIX_PERCENT, SINGLE_DIGITS);
    let share: u128 = product / 268_435_456;
    assert(share <= total);
    if share > 1 {
        share as usize
    } else {
        1
    }
}

/// How many packets are in those of the first `n` groups that are smaller than `threshold`.
pub open spec fn rare_packets(groups: Seq<PacketGroup>, threshold: int, n: int) -> int
    decreases n,
{
    if n <= 0 {
        0
    } else {
        let size = groups[n - 1].tx_indices@.len();
        rare_packets(groups, threshold, n - 1) + if size < threshold {
            size as int
        } else {
            0
        }
    }
}

/// Rare packets are packets.
proof fn lemma_rare_packets(groups: Seq<PacketGroup>, threshold: int, n: int, all: int)
    requires
        n <= all,
    ensures
        0 <= rare_packets(groups, threshold, n) <= qspi_stats::packets_in(groups, n),
        qspi_stats::packets_in(groups, n) <= qspi_stats::packets_in(groups, all),
    decreases all,
{
    if n < all && all > 0 {
        lemma_rare_packets(groups, threshold, n, all - 1);
    } else if n > 0 {
        lemma_rare_packets(groups, threshold, n - 1, n - 1);
    }
}

/// Whether `rows` lists all groups, larger ones first, and groups of equal size
/// in their own order.
pub open spec fn ranks(rows: Seq<usize>, groups: Seq<PacketGroup>) -> bool {
    &&& rows.len() == groups.len()
    &&& forall|g: usize| g < groups.len() ==> #[trigger] rows.contains(g)
    &&& ordered_rows(rows, groups)
}

/// Whether larger groups come first, and groups of equal size in their own order.
pub open spec fn ordered_rows(rows: Seq<usize>, groups: Seq<PacketGroup>) -> bool {
    forall|i: int, j: int| 0 <= i < j < rows.len() ==> before_row(rows[i], rows[j], groups)
}

/// Whether group `a` comes before group `b`.
pub open spec fn before_row(a: usize, b: usize, groups: Seq<PacketGroup>) -> bool {
    let size_a = groups[a as int].tx_indices@.len();
    let size_b = groups[b as int].tx_indices@.len();
    size_a > size_b || (size_a == size_b && a < b)
}

impl PacketGroups {
    /// How many packets are in groups smaller than `threshold`.
    pub fn outliers(&self, threshold: usize) -> (count: usize)
        requires
            qspi_stats::packets_in(self.groups@, self.groups@.len() as int) <= usize::MAX,
        ensures
            count == rare_packets(self.groups@, threshold as int, self.groups@.len() as int),
    {
        let mut count: usize = 0;
        let mut i: usize = 0;
        while i < self.groups.len()
            invariant
                i <= self.groups@.len(),
                qspi_stats::packets_in(self.groups@, self.groups@.len() as int) <= usize::MAX,
                count == rare_packets(self.groups@, threshold as int, i as int),
            decreases self.groups@.len() - i,
        {
            let size: usize = self.groups[i].tx_indices.len();
            proof {
                lemma_rare_packets(
                    self.groups@,
                    threshold as int,
                    i + 1,
                    self.groups@.len() as int,
                );
            }
            if size < threshold {
                count = count + size;
            }
            i = i + 1;
        }
        count
    }

    /// The groups by size, largest first.
    pub fn rows(&self) -> (rows: Vec<usize>)
        ensures
            ranks(rows@, self.groups@),
    {
        let ghost groups = self.groups@;
        let mut rows: Vec<usize> = Vec::new();
        let mut g: usize = 0;
        while g < self.groups.len()
            invariant
                g <= self.groups@.len(),
                groups == self.groups@,
                rows@.len() == g,
                forall|i: int| 0 <= i < rows@.len() ==> #[trigger] rows@[i] < g,
                forall|k: usize| k < g ==> #[trigger] rows@.contains(k),
                ordered_rows(rows@, groups),
            decreases self.groups@.len() - g,
        {
            let size: usize = self.groups[g].tx_indices.len();
            let mut pos: usize = rows.len();
            while pos > 0 && self.groups[rows[pos - 1]].tx_indices.len() < size
                invariant
                    g < self.groups@.len(),
                    groups == self.groups@,
                    size == groups[g as int].tx_indices@.len(),
                    pos <= rows@.len(),
                    forall|i: int| 0 <= i < rows@.len() ==> #[trigger] rows@[i] < g,
                    forall|i: int|
                        pos <= i < rows@.len() ==> groups[#[trigger] rows@[i] as int].tx_indices@.len()
                            < size,
                decreases pos,
            {
                pos = pos - 1;
            }
            let ghost before = rows@;
            rows.insert(pos, g);
            proof {
                let after = rows@;
                assert forall|k: usize| k < g + 1 implies #[trigger] after.contains(k) by {
                    if k == g {
                        assert(after[pos as int] == k);
                    } else {
                        assert(before.contains(k));
                        let i = before.index_of(k);
                        if i < pos {
                            assert(after[i] == k);
                        } else {
                            assert(after[i + 1] == k);
                        }
                    }
                }
                assert forall|i: int, j: int| 0 <= i < j < after.len() implies before_row(
                    after[i],
                    after[j],
                    groups,
                ) by {
                    let oi = if i <= pos {
                        i
                    } else {
                        i - 1
                    };
                    let oj = if j <= pos {
                        j
                    } else {
                        j - 1
                    };
                    if i != pos {
                        assert(after[i] == before[oi]);
                    }
                    if j != pos {
                        assert(after[j] == before[oj]);
                    }
                    if i != pos && j != pos {
                        assert(before_row(before[oi], before[oj], groups));
                    } else if j == pos {
                        if oi < pos - 1 {
                            assert(before_row(before[oi], before[pos - 1], groups));
                        }
                        assert(before[oi] < g);
                    }
                }
            }
            g = g + 1;
        }
        rows
    }
}

/// Start of the first transaction of a group, from its `from`-th on, that
/// starts after `bound`.
pub open spec fn start_after(
    transactions: Seq<Transaction>,
    group: Seq<usize>,
    bound: int,
    from: int,
) -> Option<u64>
    decreases group.len() - from,
{
    if from < 0 || from >= group.len() {
        None
    } else if transactions[group[from] as int].start > bound {
        Some(transactions[group[from] as int].start)
    } else {
        start_after(transactions, group, bound, from + 1)
    }
}

/// Where a jump within a group goes: to its next transaction after `bound`, or
/// to its first.
pub open spec fn group_target(
    transactions: Seq<Transaction>,
    group: Seq<usize>,
    bound: int,
) -> Option<u64> {
    match start_after(transactions, group, bound, 0) {
        Some(start) => Some(start),
        None => if group.len() > 0 {
            Some(transactions[group[0] as int].start)
        } else {
            None
        },
    }
}

/// Finds the next packet of a group that starts more than `margin` samples
/// after `position`, or the first of the group.
pub fn next_in_group(
    transactions: &[Transaction],
    group: &[usize],
    position: u64,
    margin: u64,
) -> (start: Option<u64>)
    requires
        forall|i: int| 0 <= i < group@.len() ==> #[trigger] group@[i] < transactions@.len(),
        position + margin <= u64::MAX,
    ensures
        start == group_target(transactions@, group@, position + margin),
{
    let bound: u64 = position + margin;
    let mut i: usize = 0;
    while i < group.len()
        invariant
            i <= group@.len(),
            bound == position + margin,
            forall|k: int| 0 <= k < group@.len() ==> #[trigger] group@[k] < transactions@.len(),
            start_after(transactions@, group@, bound as int, 0) == start_after(
                transactions@,
                group@,
                bound as int,
                i as int,
            ),
        decreases group@.len() - i,
    {
        let start: u64 = transactions[group[i]].start;
        if start > bound {
            return Some(start);
        }
        i = i + 1;
    }
    if group.len() > 0 {
        Some(transactions[group[0]].start)
    } else {
        None
    }
}

/// A jump within a group always lands on a transaction of that group, and goes
/// forward whenever the group has one ahead.
pub proof fn law_group_jump_lands(transactions: Seq<Transaction>, group: Seq<usize>, bound: int)
    ensures
        group_target(transactions, group, bound) matches Some(start) ==> exists|i: int|
            0 <= i < group.len() && start == (#[trigger] transactions[group[i] as int]).start,
        group_target(transactions, group, bound) is Some <==> group.len() > 0,
        (exists|i: int|
            0 <= i < group.len() && (#[trigger] transactions[group[i] as int]).start > bound) ==> (
        group_target(transactions, group, bound) matches Some(start) && start > bound),
{
    lemma_start_after(transactions, group, bound, 0);
    if start_after(transactions, group, bound, 0) is None && group.len() > 0 {
        assert(transactions[group[0] as int].start == transactions[group[0] as int].start);
    }
}

/// What is found after `bound` is in the group and after `bound`, and nothing
/// is passed over.
proof fn lemma_start_after(
    transactions: Seq<Transaction>,
    group: Seq<usize>,
    bound: int,
    from: int,
)
    requires
        0 <= from <= group.len(),
    ensures
        match start_after(transactions, group, bound, from) {
            Some(start) => start > bound && exists|i: int|
                from <= i < group.len() && start == (
                #[trigger] transactions[group[i] as int]).start,
            None => forall|i: int|
                from <= i < group.len() ==> (#[trigger] transactions[group[i] as int]).start
                    <= bound,
        },
    decreases group.len() - from,
{
    if from < group.len() && transactions[group[from] as int].start <= bound {
        lemma_start_after(transactions, group, bound, from + 1);
    }
}

/// The rows list every group once, larger groups before smaller ones, and
/// groups of one size in their own order.
pub proof fn law_rows_go_from_large_to_small(rows: Seq<usize>, groups: Seq<PacketGroup>)
    requires
        ranks(rows, groups),
    ensures
        rows.len() == groups.len(),
        forall|g: usize| g < groups.len() ==> #[trigger] rows.contains(g),
        forall|i: int, j: int|
            0 <= i < j < rows.len() ==> {
                ||| groups[#[trigger] rows[i] as int].tx_indices@.len()
                    > groups[#[trigger] rows[j] as int].tx_indices@.len()
                ||| groups[rows[i] as int].tx_indices@.len()
                    == groups[rows[j] as int].tx_indices@.len() && rows[i] < rows[j]
            },
{
    assert forall|i: int, j: int| 0 <= i < j < rows.len() implies {
        ||| groups[#[trigger] rows[i] as int].tx_indices@.len()
            > groups[#[trigger] rows[j] as int].tx_indices@.len()
        ||| groups[rows[i] as int].tx_indices@.len() == groups[rows[j] as int].tx_indices@.len()
            && rows[i] < rows[j]
    } by {
        assert(before_row(rows[i], rows[j], groups));
    }
}

/// Rare packets are counted group by group: a group below the threshold with
/// all its packets, any other not at all.
pub proof fn law_rare_packets_are_counted_by_group(
    groups: Seq<PacketGroup>,
    threshold: int,
    n: int,
)
    requires
        0 <= n < groups.len(),
    ensures
        rare_packets(groups, threshold, 0) == 0,
        groups[n].tx_indices@.len() < threshold ==> rare_packets(groups, threshold, n + 1)
            == rare_packets(groups, threshold, n) + groups[n].tx_indices@.len(),
        groups[n].tx_indices@.len() >= threshold ==> rare_packets(groups, threshold, n + 1)
            == rare_packets(groups, threshold, n),
{
}

/// The limit below which a group is rare grows with the number of packets.
pub proof fn law_rare_limit_grows(a: nat, b: nat)
    requires
        a <= b,
    ensures
        1 <= rare_below(a) <= rare_below(b),
{
    lemma_six_percent();
    let x = binary::rounded(a, 24);
    let y = binary::rounded(b, 24);
    let s = SIX_PERCENT as nat;
    binary::lemma_rounded_monotone(a, b, 24);
    assert(x * s <= y * s) by (nonlinear_arith)
        requires
            x <= y,
    ;
    binary::lemma_rounded_monotone(x * s, y * s, 24);
    let p = binary::rounded(x * s, 24);
    let q = binary::rounded(y * s, 24);
    assert(p / 268_435_456 <= q / 268_435_456);
}

/// Up to 2^24 packets the limit is six percent of them, but for less than two.
pub proof fn law_rare_limit_is_six_percent(total: nat)
    requires
        total < 0x100_0000,
    ensures
        100 * rare_below(total) <= 6 * total + 116,
        6 * total <= 100 * rare_below(total) + 200,
{
    lemma_six_percent();
    binary::lemma_two_to_values();
    let d: nat = 268_435_456;
    let w: nat = 8_388_608;
    let s = SIX_PERCENT as nat;
    reveal_with_fuel(binary::two_to, 25);
    assert(binary::two_to(23) == 8_388_608);
    assert(binary::two_to(24) == 16_777_216);
    binary::lemma_short_numbers_stay(total, 24);
    let p = total * s;
    let q = binary::rounded(p, 24);
    binary::lemma_rounded_near(p, 24);
    assert(p / w <= 2 * total) by (nonlinear_arith)
        requires
            p == total * s,
            s <= 2 * w,
            w > 0,
    ;
    assert(6 * total * d <= 100 * p + 50 * total && 100 * p <= 6 * total * d);
    let share = q / d;
    assert(d * share <= q < d * share + d);
}

/// Twice as many packets have twice the limit, but for less than two.
pub proof fn law_rare_limit_doubles(total: nat)
    ensures
        rare_below(2 * total) <= 2 * rare_below(total) + 1,
        rare_below(total) > 1 ==> 2 * rare_below(total) <= rare_below(2 * total),
{
    lemma_six_percent();
    let s = SIX_PERCENT as nat;
    let x = binary::rounded(total, 24);
    binary::lemma_rounded_doubles(total, 24);
    assert((2 * x) * s == 2 * (x * s)) by (nonlinear_arith);
    binary::lemma_rounded_doubles(x * s, 24);
    let q = binary::rounded(x * s, 24);
    let share = q / 268_435_456;
    assert(2 * share <= (2 * q) / 268_435_456 <= 2 * share + 1);
}

/// Where a group lists transactions that start one after the other, a jump goes
/// to the nearest one ahead, or to the first where none is ahead.
pub proof fn law_group_jump_takes_the_next(
    transactions: Seq<Transaction>,
    group: Seq<usize>,
    bound: int,
    i: int,
)
    requires
        forall|a: int, b: int|
            0 <= a <= b < group.len() ==> (#[trigger] transactions[group[a] as int]).start <= (
            #[trigger] transactions[group[b] as int]).start,
        0 <= i < group.len(),
    ensures
        transactions[group[i] as int].start > bound ==> (group_target(
            transactions,
            group,
            bound,
        ) matches Some(start) && bound < start <= transactions[group[i] as int].start),
        (forall|k: int|
            0 <= k < group.len() ==> (#[trigger] transactions[group[k] as int]).start <= bound)
            ==> group_target(transactions, group, bound) == Some(
            transactions[group[0] as int].start,
        ),
{
    lemma_start_after(transactions, group, bound, 0);
    lemma_first_start_after(transactions, group, bound, 0);
}

/// What is found after `bound` is the first of the group that is.
proof fn lemma_first_start_after(
    transactions: Seq<Transaction>,
    group: Seq<usize>,
    bound: int,
    from: int,
)
    requires
        0 <= from <= group.len(),
        forall|a: int, b: int|
            0 <= a <= b < group.len() ==> (#[trigger] transactions[group[a] as int]).start <= (
            #[trigger] transactions[group[b] as int]).start,
    ensures
        start_after(transactions, group, bound, from) matches Some(start) ==> forall|i: int|
            from <= i < group.len() && (#[trigger] transactions[group[i] as int]).start > bound
                ==> start <= transactions[group[i] as int].start,
    decreases group.len() - from,
{
    if from < group.len() && transactions[group[from] as int].start <= bound {
        lemma_first_start_after(transactions, group, bound, from + 1);
    }
}

} // verus!
