//! Statistics over decoded packets: fingerprints, groups and timing.

use vstd::prelude::*;

use crate::micros;
use crate::micros::{micros_mantissa, percentile_index, scaled_micros, P95, P99};
use crate::order::sorted_copy;
use crate::waveform::edges::EdgeStore;
use crate::waveform::qspi;
use crate::waveform::qspi::{rising_edges, DataLines, QspiConfig, QspiRole, Transaction};
use crate::waveform::signal;
use crate::waveform::signal::{count_less, ChannelView};

verus! {

/// One bit of the reflected CRC-32 register.
pub open spec fn crc_bit(crc: u32) -> u32 {
    if crc & 1 != 0 {
        (crc >> 1) ^ 0xEDB8_8320
    } else {
        crc >> 1
    }
}

/// The register after `n` more bits.
pub open spec fn crc_bits(crc: u32, n: nat) -> u32
    decreases n,
{
    if n == 0 {
        crc
    } else {
        crc_bit(crc_bits(crc, (n - 1) as nat))
    }
}

/// The register after the given bytes, from all ones.
pub open spec fn crc_register(data: Seq<u8>) -> u32
    decreases data.len(),
{
    if data.len() == 0 {
        0xFFFF_FFFF
    } else {
        crc_bits(crc_register(data.drop_last()) ^ (data.last() as u32), 8)
    }
}

/// CRC-32 of IEEE 802.3.
pub open spec fn crc_of(data: Seq<u8>) -> u32 {
    crc_register(data) ^ 0xFFFF_FFFF
}

/// CRC32 IEEE 802.3 used as a content fingerprint.
pub fn crc32(data: &[u8]) -> (crc: u32)
    ensures
        crc == crc_of(data@),
{
    let mut crc: u32 = 0xFFFF_FFFF;
    let mut i: usize = 0;
    assert(data@.take(0) =~= Seq::<u8>::empty());
    while i < data.len()
        invariant
            i <= data@.len(),
            crc == crc_register(data@.take(i as int)),
        decreases data@.len() - i,
    {
        assert(data@.take(i + 1).drop_last() =~= data@.take(i as int));
        crc = crc ^ (data[i] as u32);
        let ghost start = crc;
        let mut bit: u32 = 0;
        while bit < 8
            invariant
                bit <= 8,
                crc == crc_bits(start, bit as nat),
            decreases 8 - bit,
        {
            if crc & 1 != 0 {
                crc = (crc >> 1) ^ 0xEDB8_8320;
            } else {
                crc = crc >> 1;
            }
            bit = bit + 1;
        }
        i = i + 1;
    }
    assert(data@.take(i as int) =~= data@);
    crc ^ 0xFFFF_FFFF
}

/// No two registers have the same successor.
proof fn lemma_crc_bits_injective(a: u32, b: u32, n: nat)
    requires
        a != b,
    ensures
        crc_bits(a, n) != crc_bits(b, n),
    decreases n,
{
    if n > 0 {
        lemma_crc_bits_injective(a, b, (n - 1) as nat);
        let x = crc_bits(a, (n - 1) as nat);
        let y = crc_bits(b, (n - 1) as nat);
        assert(x != y ==> crc_bit(x) != crc_bit(y)) by (bit_vector);
    }
}

/// The register after a message changes with any one of its bytes.
proof fn lemma_crc_register_differs(data: Seq<u8>, i: int, b: u8)
    requires
        0 <= i < data.len(),
        b != data[i],
    ensures
        crc_register(data.update(i, b)) != crc_register(data),
    decreases data.len(),
{
    let other = data.update(i, b);
    let head = crc_register(data.drop_last());
    let last = data.last();
    if i == data.len() - 1 {
        assert(other.drop_last() =~= data.drop_last());
        assert(b != last ==> (head ^ (b as u32)) != (head ^ (last as u32))) by (bit_vector);
        lemma_crc_bits_injective(head ^ (b as u32), head ^ (last as u32), 8);
    } else {
        assert(other.drop_last() =~= data.drop_last().update(i, b));
        lemma_crc_register_differs(data.drop_last(), i, b);
        let moved = crc_register(other.drop_last());
        assert(moved != head ==> (moved ^ (last as u32)) != (head ^ (last as u32))) by (bit_vector);
        lemma_crc_bits_injective(moved ^ (last as u32), head ^ (last as u32), 8);
    }
}

/// The fingerprint tells apart two messages that differ in one byte.
pub proof fn law_crc_sees_every_byte(data: Seq<u8>, i: int, b: u8)
    requires
        0 <= i < data.len(),
        b != data[i],
    ensures
        crc_of(data.update(i, b)) != crc_of(data),
{
    lemma_crc_register_differs(data, i, b);
    let x = crc_register(data.update(i, b));
    let y = crc_register(data);
    assert(x != y ==> (x ^ 0xFFFF_FFFF) != (y ^ 0xFFFF_FFFF)) by (bit_vector);
}

/// A decoded transaction.
pub struct DecodedPacket {
    pub bytes: Vec<u8>,
    pub crc: u32,
    /// Index into the list of transactions
    pub tx_idx: usize,
}

/// Bytes clocked between two samples: two rising edges per byte.
pub open spec fn clocked_bytes(clk: qspi::Line, bus: qspi::Bus, start: u64, end: u64) -> Seq<u8> {
    let edges = qspi::rising(
        clk.first_value,
        clk.transitions,
        signal::count_below(clk.transitions, start as int) as int,
        signal::count_below(clk.transitions, end as int) as int,
    );
    Seq::new(edges.len() / 2, |i: int| bus.byte(edges[2 * i], edges[2 * i + 1]))
}

/// Decodes the bytes that are clocked within a transaction.
pub fn decode_transaction_bytes(
    clk: &ChannelView<'_>,
    data: &DataLines<'_>,
    tx_start: u64,
    tx_end: u64,
) -> (bytes: Vec<u8>)
    requires
        signal::sorted(clk.transitions@),
        data.sorted(),
        tx_start <= tx_end || signal::count_below(clk.transitions@, tx_start as int)
            <= signal::count_below(clk.transitions@, tx_end as int),
    ensures
        bytes@ == clocked_bytes(
            (qspi::Line { first_value: clk.first_value, transitions: clk.transitions@ }),
            data.bus(),
            tx_start,
            tx_end,
        ),
{
    let lo: usize = count_less(clk.transitions, tx_start);
    let hi: usize = count_less(clk.transitions, tx_end);
    proof {
        if tx_start <= tx_end {
            signal::lemma_count_below_monotone(
                clk.transitions@,
                tx_start as int,
                tx_end as int,
            );
        }
    }
    let edges: Vec<u64> = rising_edges(clk, lo, hi);
    let mut bytes: Vec<u8> = Vec::new();
    let mut n: usize = 0;
    while n < edges.len() / 2
        invariant
            n <= edges@.len() / 2,
            data.sorted(),
            bytes@ == Seq::new(
                n as nat,
                |i: int| data.bus().byte(edges@[2 * i], edges@[2 * i + 1]),
            ),
        decreases edges@.len() / 2 - n,
    {
        bytes.push(data.byte(edges[2 * n], edges[2 * n + 1]));
        n = n + 1;
        assert(bytes@ =~= Seq::new(
            n as nat,
            |i: int| data.bus().byte(edges@[2 * i], edges@[2 * i + 1]),
        ));
    }
    bytes
}

/// Interval between the starts of transaction `i` and the one after.
pub open spec fn interval(transactions: Seq<Transaction>, i: int) -> u64 {
    if transactions[i].start <= transactions[i + 1].start {
        (transactions[i + 1].start - transactions[i].start) as u64
    } else {
        0
    }
}

/// All inter-frame intervals, in the order of the transactions.
pub open spec fn intervals(transactions: Seq<Transaction>) -> Seq<u64> {
    Seq::new((transactions.len() - 1) as nat, |i: int| interval(transactions, i))
}

/// The intervals in ascending order.
pub open spec fn sorted_intervals(transactions: Seq<Transaction>) -> Seq<u64> {
    crate::order::in_order(intervals(transactions))
}

/// The interval in the middle.
pub open spec fn median_interval(transactions: Seq<Transaction>) -> u64 {
    sorted_intervals(transactions)[(transactions.len() - 1) / 2]
}

/// Twice the median interval, in the microseconds of `micros`.
pub open spec fn cutoff(transactions: Seq<Transaction>, samplerate_hz: u64) -> nat {
    2 * micros::micros(median_interval(transactions), samplerate_hz)
}

/// Among the first `n` intervals, those of at least twice the median in
/// microseconds, each with the indices of its two transactions.
pub open spec fn outlier_periods(
    transactions: Seq<Transaction>,
    samplerate_hz: u64,
    n: int,
) -> Seq<(usize, usize, u64)>
    decreases n,
{
    if n <= 0 {
        Seq::empty()
    } else if micros::micros(interval(transactions, n - 1), samplerate_hz) >= cutoff(
        transactions,
        samplerate_hz,
    ) {
        outlier_periods(transactions, samplerate_hz, n - 1).push(
            ((n - 1) as usize, n as usize, interval(transactions, n - 1)),
        )
    } else {
        outlier_periods(transactions, samplerate_hz, n - 1)
    }
}

/// How many of the intervals are below `bound` in microseconds.
pub open spec fn count_within(ts: Seq<u64>, bound: nat, samplerate_hz: u64) -> nat
    decreases ts.len(),
{
    if ts.len() == 0 {
        0
    } else {
        count_within(ts.drop_last(), bound, samplerate_hz) + if micros::micros(
            ts.last(),
            samplerate_hz,
        ) < bound {
            1nat
        } else {
            0
        }
    }
}

/// How many of the shortest intervals the statistics rest on: all of them, or
/// those below twice the median in microseconds.
pub open spec fn counted_intervals(
    transactions: Seq<Transaction>,
    samplerate_hz: u64,
    exclude_outliers: bool,
) -> int {
    if exclude_outliers && outlier_periods(
        transactions,
        samplerate_hz,
        transactions.len() - 1,
    ).len() > 0 {
        count_within(
            sorted_intervals(transactions),
            cutoff(transactions, samplerate_hz),
            samplerate_hz,
        ) as int
    } else {
        transactions.len() - 1
    }
}

/// All of the intervals together.
pub open spec fn total(ts: Seq<u64>) -> nat
    decreases ts.len(),
{
    if ts.len() == 0 {
        0
    } else {
        total(ts.drop_last()) + ts.last() as nat
    }
}

/// Timing of the transactions, in samples.
pub struct TimingStats {
    /// All inter-frame intervals in samples, sorted ascending.
    pub intervals: Vec<u64>,
    /// Transaction index pairs whose interval is an outlier (at least twice the median).
    /// Each entry: (tx_index_a, tx_index_b, interval), the gap between tx_a and tx_b.
    pub period_outliers: Vec<(usize, usize, u64)>,
    /// How many of the shortest intervals the values below rest on.
    pub counted: usize,
    pub min: u64,
    pub max: u64,
    /// The counted intervals together; divided by `counted` it is their mean.
    pub sum: u128,
    pub p50: u64,
    pub p95: u64,
    pub p99: u64,
    /// Whether outliers were to be left out of the values.
    pub excludes_outliers: bool,
}

/// Whether `stats` is the timing of the transactions. There is none for fewer
/// than two transactions, without a sample rate, or where every interval is
/// left out.
pub open spec fn timing_of(
    stats: Option<TimingStats>,
    transactions: Seq<Transaction>,
    samplerate_hz: u64,
    exclude_outliers: bool,
) -> bool {
    let sorted = sorted_intervals(transactions);
    let n = counted_intervals(transactions, samplerate_hz, exclude_outliers);
    match stats {
        None => transactions.len() < 2 || samplerate_hz == 0 || n == 0,
        Some(t) => {
            &&& transactions.len() >= 2
            &&& samplerate_hz != 0
            &&& n > 0
            &&& t.intervals@ == sorted
            &&& t.period_outliers@ == outlier_periods(
                transactions,
                samplerate_hz,
                transactions.len() - 1,
            )
            &&& t.counted == n
            &&& t.min == sorted[0]
            &&& t.max == sorted[n - 1]
            &&& t.sum == total(sorted.take(n))
            &&& t.p50 == sorted[n / 2]
            &&& t.p95 == sorted[micros::share_of(n as nat, micros::P95 as nat) as int]
            &&& t.p99 == sorted[micros::share_of(n as nat, micros::P99 as nat) as int]
            &&& t.excludes_outliers == exclude_outliers
        },
    }
}

/// Adds up the first `n` intervals.
pub fn sum_of_first(ts: &[u64], n: usize) -> (sum: u128)
    requires
        n <= ts@.len(),
    ensures
        sum == total(ts@.take(n as int)),
{
    let mut sum: u128 = 0;
    let mut i: usize = 0;
    while i < n
        invariant
            i <= n <= ts@.len(),
            n <= usize::MAX,
            sum == total(ts@.take(i as int)),
            sum <= i * u64::MAX,
        decreases n - i,
    {
        assert(ts@.take(i + 1).drop_last() =~= ts@.take(i as int));
        assert(i * u64::MAX + u64::MAX <= u128::MAX) by (nonlinear_arith)
            requires
                0 <= i <= u64::MAX,
        ;
        sum = sum + ts[i] as u128;
        i = i + 1;
    }
    sum
}

impl TimingStats {
    pub fn compute(
        transactions: &[Transaction],
        samplerate_hz: u64,
        exclude_outliers: bool,
    ) -> (stats: Option<TimingStats>)
        ensures
            timing_of(stats, transactions@, samplerate_hz, exclude_outliers),
    {
        if transactions.len() < 2 || samplerate_hz == 0 {
            return None;
        }
        let total: usize = transactions.len() - 1;
        let mut raw: Vec<u64> = Vec::new();
        let mut i: usize = 0;
        while i < total
            invariant
                i <= total,
                total == transactions@.len() - 1,
                raw@ == intervals(transactions@).take(i as int),
            decreases total - i,
        {
            raw.push(transactions[i + 1].start.saturating_sub(transactions[i].start));
            i = i + 1;
            assert(raw@ =~= intervals(transactions@).take(i as int));
        }
        assert(raw@ =~= intervals(transactions@));
        let sorted: Vec<u64> = sorted_copy(raw.as_slice());
        let mant: u128 = micros_mantissa(samplerate_hz);
        let bound: u128 = scaled_micros(sorted[total / 2], mant) * 2;
        let mut period_outliers: Vec<(usize, usize, u64)> = Vec::new();
        let mut k: usize = 0;
        while k < total
            invariant
                k <= total,
                total == transactions@.len() - 1,
                raw@ == intervals(transactions@),
                mant == micros::micros_per_sample(samplerate_hz).mant,
                mant <= 0x20_0000_0000_0000,
                bound == cutoff(transactions@, samplerate_hz),
                period_outliers@ == outlier_periods(transactions@, samplerate_hz, k as int),
            decreases total - k,
        {
            if scaled_micros(raw[k], mant) >= bound {
                period_outliers.push((k, k + 1, raw[k]));
            }
            k = k + 1;
        }
        let mut counted: usize = total;
        if exclude_outliers && period_outliers.len() > 0 {
            counted = 0;
            let mut j: usize = 0;
            while j < total
                invariant
                    j <= total,
                    total == sorted@.len(),
                    mant == micros::micros_per_sample(samplerate_hz).mant,
                    mant <= 0x20_0000_0000_0000,
                    counted == count_within(sorted@.take(j as int), bound as nat, samplerate_hz),
                    counted <= j,
                decreases total - j,
            {
                assert(sorted@.take(j + 1).drop_last() =~= sorted@.take(j as int));
                if scaled_micros(sorted[j], mant) < bound {
                    counted = counted + 1;
                }
                j = j + 1;
            }
            assert(sorted@.take(total as int) =~= sorted@);
        }
        if counted == 0 {
            return None;
        }
        let p95: usize = percentile_index(counted, P95);
        let p99: usize = percentile_index(counted, P99);
        Some(
            TimingStats {
                min: sorted[0],
                max: sorted[counted - 1],
                sum: sum_of_first(sorted.as_slice(), counted),
                p50: sorted[counted / 2],
                p95: sorted[p95],
                p99: sorted[p99],
                intervals: sorted,
                period_outliers,
                counted,
                excludes_outliers: exclude_outliers,
            },
        )
    }
}

/// Leaving outliers out leaves nothing exactly where the median interval is zero.
pub proof fn law_timing_empty_iff_median_zero(transactions: Seq<Transaction>, samplerate_hz: u64)
    requires
        transactions.len() >= 2,
        samplerate_hz > 0,
    ensures
        counted_intervals(transactions, samplerate_hz, true) == 0 <==> median_interval(transactions)
            == 0,
{
    let sorted = sorted_intervals(transactions);
    lemma_sorted_intervals(transactions);
    let m = median_interval(transactions);
    let n = transactions.len() - 1;
    let bound = cutoff(transactions, samplerate_hz);
    micros::law_micros_keep_order(m, m, samplerate_hz);
    lemma_count_within(sorted, bound, samplerate_hz);
    if m == 0 {
        lemma_all_outliers(transactions, samplerate_hz, n as int);
        assert(micros::micros(sorted[0], samplerate_hz) >= bound);
    } else {
        assert(micros::micros(sorted[n / 2], samplerate_hz) < bound);
    }
}

/// The intervals that the statistics rest on when they leave outliers out are
/// those below twice the median, and they come before the outliers.
pub proof fn law_outliers_are_left_out(transactions: Seq<Transaction>, samplerate_hz: u64, i: int)
    requires
        samplerate_hz > 0,
        0 <= i < transactions.len() - 1,
        outlier_periods(transactions, samplerate_hz, transactions.len() - 1).len() > 0,
    ensures
        i < counted_intervals(transactions, samplerate_hz, true) <==> micros::micros(
            sorted_intervals(transactions)[i],
            samplerate_hz,
        ) < cutoff(transactions, samplerate_hz),
{
    lemma_sorted_intervals(transactions);
    lemma_count_within(
        sorted_intervals(transactions),
        cutoff(transactions, samplerate_hz),
        samplerate_hz,
    );
}

/// The mean of sorted intervals lies between the first and the last.
pub proof fn law_mean_between_ends(ts: Seq<u64>)
    requires
        ts.len() > 0,
        signal::sorted(ts),
    ensures
        ts[0] * ts.len() <= total(ts) <= ts.last() * ts.len(),
    decreases ts.len(),
{
    if ts.len() == 1 {
        assert(total(ts.drop_last()) == 0);
    } else {
        let shorter = ts.drop_last();
        let n = shorter.len() as int;
        law_mean_between_ends(shorter);
        assert(ts[0] * (n + 1) == ts[0] * n + ts[0]) by (nonlinear_arith);
        let (x, y) = (shorter.last() as int, ts.last() as int);
        assert(shorter.last() <= ts.last() && ts[0] <= ts.last());
        assert(x * n + y <= y * (n + 1)) by (nonlinear_arith)
            requires
                x <= y,
                n >= 0,
        ;
    }
}

/// Where the median is zero every interval is an outlier.
proof fn lemma_all_outliers(transactions: Seq<Transaction>, samplerate_hz: u64, n: int)
    requires
        cutoff(transactions, samplerate_hz) == 0,
        n >= 0,
    ensures
        outlier_periods(transactions, samplerate_hz, n).len() == n,
    decreases n,
{
    if n > 0 {
        lemma_all_outliers(transactions, samplerate_hz, n - 1);
    }
}

/// Of sorted intervals, those below a bound in microseconds come first.
pub proof fn lemma_count_within(ts: Seq<u64>, bound: nat, samplerate_hz: u64)
    requires
        signal::sorted(ts),
        samplerate_hz > 0,
    ensures
        count_within(ts, bound, samplerate_hz) <= ts.len(),
        forall|i: int|
            0 <= i < ts.len() ==> (i < count_within(ts, bound, samplerate_hz) <==> micros::micros(
                #[trigger] ts[i],
                samplerate_hz,
            ) < bound),
    decreases ts.len(),
{
    if ts.len() > 0 {
        let shorter = ts.drop_last();
        let c = count_within(shorter, bound, samplerate_hz);
        lemma_count_within(shorter, bound, samplerate_hz);
        assert forall|i: int| 0 <= i < ts.len() implies (i < count_within(
            ts,
            bound,
            samplerate_hz,
        ) <==> micros::micros(#[trigger] ts[i], samplerate_hz) < bound) by {
            if i < shorter.len() {
                assert(shorter[i] == ts[i]);
                micros::law_micros_keep_order(ts[i], ts.last(), samplerate_hz);
            }
            if c < shorter.len() {
                assert(shorter[c as int] == ts[c as int]);
                micros::law_micros_keep_order(ts[c as int], ts.last(), samplerate_hz);
            }
        }
    }
}

/// How often `b` occurs.
pub open spec fn occurrences(buckets: Seq<usize>, b: int) -> nat
    decreases buckets.len(),
{
    if buckets.len() == 0 {
        0
    } else {
        occurrences(buckets.drop_last(), b) + if buckets.last() == b {
            1nat
        } else {
            0
        }
    }
}

/// How many entries are below `n`, bucket by bucket.
pub open spec fn occurrences_below(buckets: Seq<usize>, n: nat) -> nat
    decreases n,
{
    if n == 0 {
        0
    } else {
        occurrences_below(buckets, (n - 1) as nat) + occurrences(buckets, n - 1)
    }
}

/// Counts how many entries fall into each of `n` buckets.
pub fn tally(buckets: &Vec<usize>, n: usize) -> (counts: Vec<usize>)
    requires
        forall|i: int| 0 <= i < buckets@.len() ==> #[trigger] buckets@[i] < n,
    ensures
        counts@.len() == n,
        forall|b: int| 0 <= b < n ==> #[trigger] counts@[b] == occurrences(buckets@, b),
{
    let mut counts: Vec<usize> = Vec::new();
    let mut b: usize = 0;
    while b < n
        invariant
            b <= n,
            counts@.len() == b,
            forall|c: int| 0 <= c < b ==> #[trigger] counts@[c] == 0,
        decreases n - b,
    {
        counts.push(0);
        b = b + 1;
    }
    let mut i: usize = 0;
    while i < buckets.len()
        invariant
            i <= buckets@.len(),
            counts@.len() == n,
            forall|k: int| 0 <= k < buckets@.len() ==> #[trigger] buckets@[k] < n,
            forall|c: int|
                0 <= c < n ==> #[trigger] counts@[c] == occurrences(buckets@.take(i as int), c)
                    && counts@[c] <= i,
        decreases buckets@.len() - i,
    {
        let bucket: usize = buckets[i];
        assert(buckets@.take(i + 1).drop_last() =~= buckets@.take(i as int));
        let count: usize = counts[bucket] + 1;
        counts.set(bucket, count);
        i = i + 1;
    }
    assert(buckets@.take(i as int) =~= buckets@);
    counts
}

/// The buckets hold every entry once.
pub proof fn law_tally_holds_every_entry(buckets: Seq<usize>, n: nat)
    requires
        forall|i: int| 0 <= i < buckets.len() ==> #[trigger] buckets[i] < n,
    ensures
        occurrences_below(buckets, n) == buckets.len(),
    decreases buckets.len(),
{
    lemma_occurrences_below(buckets, n);
    if buckets.len() > 0 {
        law_tally_holds_every_entry(buckets.drop_last(), n);
    }
}

/// The last entry adds one to the buckets that hold it.
proof fn lemma_occurrences_below(buckets: Seq<usize>, n: nat)
    ensures
        buckets.len() == 0 ==> occurrences_below(buckets, n) == 0,
        buckets.len() > 0 ==> occurrences_below(buckets, n) == occurrences_below(
            buckets.drop_last(),
            n,
        ) + if buckets.last() < n {
            1nat
        } else {
            0
        },
    decreases n,
{
    if n > 0 {
        lemma_occurrences_below(buckets, (n - 1) as nat);
    }
}

/// The intervals in ascending order are sorted and as many as the intervals.
pub proof fn lemma_sorted_intervals(transactions: Seq<Transaction>)
    requires
        transactions.len() >= 1,
    ensures
        signal::sorted(sorted_intervals(transactions)),
        sorted_intervals(transactions).len() == transactions.len() - 1,
{
    crate::order::lemma_in_order_exists(intervals(transactions));
}

/// Size and fingerprint of a packet.
pub open spec fn packet_key(packet: DecodedPacket) -> (usize, u32) {
    (packet.bytes@.len() as usize, packet.crc)
}

/// Sizes and fingerprints of packets.
pub open spec fn packet_keys(packets: Seq<DecodedPacket>) -> Seq<(usize, u32)> {
    Seq::new(packets.len(), |i: int| packet_key(packets[i]))
}

/// Where `key` occurs among the keys, in ascending order.
pub open spec fn positions(keys: Seq<(usize, u32)>, key: (usize, u32)) -> Seq<usize>
    decreases keys.len(),
{
    if keys.len() == 0 {
        Seq::empty()
    } else if keys.last() == key {
        positions(keys.drop_last(), key).push((keys.len() - 1) as usize)
    } else {
        positions(keys.drop_last(), key)
    }
}

/// Order of groups: by size, then by fingerprint.
pub open spec fn key_less(a: (usize, u32), b: (usize, u32)) -> bool {
    a.0 < b.0 || (a.0 == b.0 && a.1 < b.1)
}

/// Packets of one size and fingerprint.
pub struct PacketGroup {
    pub byte_count: usize,
    pub crc: u32,
    /// Indices of the packets, ascending.
    pub tx_indices: Vec<usize>,
}

impl PacketGroup {
    /// Size and fingerprint of the packets.
    pub open spec fn key(&self) -> (usize, u32) {
        (self.byte_count, self.crc)
    }
}

/// Packets by size and fingerprint.
pub struct PacketGroups {
    pub groups: Vec<PacketGroup>,
}

/// Whether one of the groups has the key.
pub open spec fn has_group(groups: Seq<PacketGroup>, key: (usize, u32)) -> bool {
    exists|i: int| 0 <= i < groups.len() && (#[trigger] groups[i]).key() == key
}

/// Whether the groups are those of packets with the given keys: one group per
/// key that occurs, in the order of the keys, each with all positions of its key.
pub open spec fn groups_of(groups: Seq<PacketGroup>, keys: Seq<(usize, u32)>) -> bool {
    &&& forall|i: int, j: int|
        0 <= i < j < groups.len() ==> key_less(
            (#[trigger] groups[i]).key(),
            (#[trigger] groups[j]).key(),
        )
    &&& forall|i: int|
        0 <= i < groups.len() ==> {
            &&& (#[trigger] groups[i]).tx_indices@ == positions(keys, groups[i].key())
            &&& groups[i].tx_indices@.len() > 0
        }
    &&& forall|k: int| 0 <= k < keys.len() ==> has_group(groups, #[trigger] keys[k])
}

/// How many packets the first `n` groups hold.
pub open spec fn packets_in(groups: Seq<PacketGroup>, n: int) -> int
    decreases n,
{
    if n <= 0 {
        0
    } else {
        packets_in(groups, n - 1) + groups[n - 1].tx_indices@.len()
    }
}

/// A key that does not occur has no positions; one that occurs has some.
proof fn lemma_positions_occur(keys: Seq<(usize, u32)>, key: (usize, u32))
    ensures
        keys.contains(key) <==> positions(keys, key).len() > 0,
    decreases keys.len(),
{
    if keys.len() > 0 {
        let shorter = keys.drop_last();
        lemma_positions_occur(shorter, key);
        if keys.last() == key {
            assert(keys[keys.len() - 1] == key);
        } else if keys.contains(key) {
            let k = keys.index_of(key);
            assert(shorter[k] == key);
        } else if shorter.contains(key) {
            let k = shorter.index_of(key);
            assert(keys[k] == key);
        }
    }
}

/// The positions of a key are exactly the indices at which it stands.
pub proof fn lemma_positions(keys: Seq<(usize, u32)>, key: (usize, u32))
    requires
        keys.len() <= usize::MAX,
    ensures
        forall|i: usize|
            #[trigger] positions(keys, key).contains(i) <==> i < keys.len() && keys[i as int]
                == key,
        forall|a: int, b: int|
            0 <= a < b < positions(keys, key).len() ==> positions(keys, key)[a] < positions(
                keys,
                key,
            )[b],
    decreases keys.len(),
{
    if keys.len() > 0 {
        let shorter = keys.drop_last();
        lemma_positions(shorter, key);
        let p = positions(keys, key);
        let q = positions(shorter, key);
        let last = (keys.len() - 1) as usize;
        if keys.last() == key {
            assert(p == q.push(last));
            assert(p[q.len() as int] == last);
            assert forall|i: usize| #[trigger] p.contains(i) <==> i < keys.len() && keys[i as int]
                == key by {
                assert(q.contains(i) <==> i < shorter.len() && shorter[i as int] == key);
                if q.contains(i) {
                    let a = q.index_of(i);
                    assert(p[a] == i);
                }
                if p.contains(i) && i != last {
                    let a = p.index_of(i);
                    assert(q[a] == i);
                }
            }
            assert forall|a: int, b: int| 0 <= a < b < p.len() implies p[a] < p[b] by {
                assert(p[a] == q[a]);
                assert(q.contains(q[a]));
                if b < q.len() {
                    assert(p[b] == q[b]);
                }
            }
        }
    }
}

impl PacketGroups {
    /// First group whose key is not below the given one.
    fn lower_bound(&self, byte_count: usize, crc: u32) -> (pos: usize)
        requires
            forall|i: int, j: int|
                0 <= i < j < self.groups@.len() ==> key_less(
                    (#[trigger] self.groups@[i]).key(),
                    (#[trigger] self.groups@[j]).key(),
                ),
        ensures
            pos <= self.groups@.len(),
            forall|i: int|
                0 <= i < pos ==> key_less((#[trigger] self.groups@[i]).key(), (byte_count, crc)),
            forall|i: int|
                pos <= i < self.groups@.len() ==> !key_less(
                    (#[trigger] self.groups@[i]).key(),
                    (byte_count, crc),
                ),
    {
        let mut lo: usize = 0;
        let mut hi: usize = self.groups.len();
        while lo < hi
            invariant
                lo <= hi <= self.groups@.len(),
                forall|i: int, j: int|
                    0 <= i < j < self.groups@.len() ==> key_less(
                        (#[trigger] self.groups@[i]).key(),
                        (#[trigger] self.groups@[j]).key(),
                    ),
                forall|i: int|
                    0 <= i < lo ==> key_less((#[trigger] self.groups@[i]).key(), (byte_count, crc)),
                forall|i: int|
                    hi <= i < self.groups@.len() ==> !key_less(
                        (#[trigger] self.groups@[i]).key(),
                        (byte_count, crc),
                    ),
            decreases hi - lo,
        {
            let mid: usize = lo + (hi - lo) / 2;
            let size: usize = self.groups[mid].byte_count;
            if size < byte_count || (size == byte_count && self.groups[mid].crc < crc) {
                lo = mid + 1;
            } else {
                hi = mid;
            }
        }
        lo
    }

    /// Groups packets by size and fingerprint.
    pub fn of(packets: &Vec<DecodedPacket>) -> (groups: PacketGroups)
        ensures
            groups_of(groups.groups@, packet_keys(packets@)),
    {
        let mut groups = PacketGroups { groups: Vec::new() };
        let mut n: usize = 0;
        while n < packets.len()
            invariant
                n <= packets@.len(),
                groups_of(groups.groups@, packet_keys(packets@).take(n as int)),
            decreases packets@.len() - n,
        {
            let byte_count: usize = packets[n].bytes.len();
            let crc: u32 = packets[n].crc;
            let ghost key = (byte_count, crc);
            let ghost before = groups.groups@;
            let ghost keys = packet_keys(packets@).take(n as int);
            let ghost more = packet_keys(packets@).take(n + 1);
            let pos: usize = groups.lower_bound(byte_count, crc);
            let found: bool = pos < groups.groups.len() && groups.groups[pos].byte_count
                == byte_count && groups.groups[pos].crc == crc;
            if found {
                groups.groups[pos].tx_indices.push(n);
            } else {
                let mut tx_indices: Vec<usize> = Vec::new();
                tx_indices.push(n);
                groups.groups.insert(pos, PacketGroup { byte_count, crc, tx_indices });
            }
            proof {
                assert(more.drop_last() =~= keys);
                assert(more.last() == key);
                let after = groups.groups@;
                if !found {
                    assert(!keys.contains(key)) by {
                        if keys.contains(key) {
                            let k = keys.index_of(key);
                            assert(has_group(before, keys[k]));
                            let i = choose|i: int|
                                0 <= i < before.len() && (#[trigger] before[i]).key() == keys[k];
                            assert(before[i].key() == key);
                        }
                    }
                    lemma_positions_occur(keys, key);
                    assert(positions(keys, key) =~= Seq::<usize>::empty());
                    assert(after[pos as int].tx_indices@ =~= positions(more, key));
                }
                assert forall|i: int| 0 <= i < after.len() implies {
                    &&& (#[trigger] after[i]).tx_indices@ == positions(more, after[i].key())
                    &&& after[i].tx_indices@.len() > 0
                } by {
                    if i < pos {
                        assert(after[i] == before[i]);
                    } else if i == pos {
                        if found {
                            assert(after[i].key() == before[i].key());
                        }
                    } else if found {
                        assert(after[i] == before[i]);
                    } else {
                        assert(after[i] == before[i - 1]);
                    }
                }
                assert forall|i: int, j: int| 0 <= i < j < after.len() implies key_less(
                    (#[trigger] after[i]).key(),
                    (#[trigger] after[j]).key(),
                ) by {
                    let oi = if found || i <= pos {
                        i
                    } else {
                        i - 1
                    };
                    let oj = if found || j <= pos {
                        j
                    } else {
                        j - 1
                    };
                    if found || i != pos {
                        assert(after[i].key() == before[oi].key());
                    }
                    if found || j != pos {
                        assert(after[j].key() == before[oj].key());
                    }
                }
                assert forall|k: int| 0 <= k < more.len() implies has_group(
                    after,
                    #[trigger] more[k],
                ) by {
                    if k == n {
                        assert(after[pos as int].key() == more[k]);
                    } else {
                        assert(keys[k] == more[k]);
                        let i = choose|i: int|
                            0 <= i < before.len() && (#[trigger] before[i]).key() == keys[k];
                        if found || i < pos {
                            assert(after[i].key() == more[k]);
                        } else {
                            assert(after[i + 1].key() == more[k]);
                        }
                    }
                }
            }
            n = n + 1;
        }
        assert(packet_keys(packets@).take(n as int) =~= packet_keys(packets@));
        groups
    }
}

/// How many positions the keys of the first `n` groups have.
spec fn position_total(groups: Seq<PacketGroup>, keys: Seq<(usize, u32)>, n: int) -> int
    decreases n,
{
    if n <= 0 {
        0
    } else {
        position_total(groups, keys, n - 1) + positions(keys, groups[n - 1].key()).len()
    }
}

/// One more key adds one position, in the group of that key.
proof fn lemma_position_total_step(
    groups: Seq<PacketGroup>,
    keys: Seq<(usize, u32)>,
    n: int,
    at: int,
)
    requires
        keys.len() > 0,
        0 <= n <= groups.len(),
        0 <= at < groups.len(),
        groups[at].key() == keys.last(),
        forall|i: int| 0 <= i < groups.len() && i != at ==> (#[trigger] groups[i]).key()
            != keys.last(),
    ensures
        position_total(groups, keys, n) == position_total(groups, keys.drop_last(), n) + if at < n {
            1int
        } else {
            0int
        },
    decreases n,
{
    if n > 0 {
        lemma_position_total_step(groups, keys, n - 1, at);
    }
}

/// Where groups have distinct keys and cover all keys, they hold as many
/// positions as there are keys.
proof fn lemma_position_total(groups: Seq<PacketGroup>, keys: Seq<(usize, u32)>)
    requires
        forall|i: int, j: int|
            0 <= i < j < groups.len() ==> key_less(
                (#[trigger] groups[i]).key(),
                (#[trigger] groups[j]).key(),
            ),
        forall|k: int| 0 <= k < keys.len() ==> has_group(groups, #[trigger] keys[k]),
    ensures
        position_total(groups, keys, groups.len() as int) == keys.len(),
    decreases keys.len(),
{
    if keys.len() == 0 {
        lemma_position_total_empty(groups, keys, groups.len() as int);
    } else {
        let shorter = keys.drop_last();
        assert forall|k: int| 0 <= k < shorter.len() implies has_group(
            groups,
            #[trigger] shorter[k],
        ) by {
            assert(shorter[k] == keys[k]);
        }
        lemma_position_total(groups, shorter);
        assert(has_group(groups, keys[keys.len() - 1]));
        let at = choose|i: int|
            0 <= i < groups.len() && (#[trigger] groups[i]).key() == keys[keys.len() - 1];
        assert forall|i: int| 0 <= i < groups.len() && i != at implies (#[trigger] groups[i]).key()
            != keys.last() by {
            if i < at {
                assert(key_less(groups[i].key(), groups[at].key()));
            } else {
                assert(key_less(groups[at].key(), groups[i].key()));
            }
        }
        lemma_position_total_step(groups, keys, groups.len() as int, at);
    }
}

/// Without keys there are no positions.
proof fn lemma_position_total_empty(groups: Seq<PacketGroup>, keys: Seq<(usize, u32)>, n: int)
    requires
        keys.len() == 0,
    ensures
        position_total(groups, keys, n) == 0,
    decreases n,
{
    if n > 0 {
        lemma_position_total_empty(groups, keys, n - 1);
    }
}

/// The groups hold the positions of their keys.
proof fn lemma_packets_in(groups: Seq<PacketGroup>, keys: Seq<(usize, u32)>, n: int)
    requires
        groups_of(groups, keys),
        n <= groups.len(),
    ensures
        packets_in(groups, n) == position_total(groups, keys, n),
    decreases n,
{
    if n > 0 {
        lemma_packets_in(groups, keys, n - 1);
        assert(groups[n - 1].tx_indices@ == positions(keys, groups[n - 1].key()));
    }
}

/// The groups partition the packets: every packet is in the group of its own
/// key and in no other, and together the groups hold as many packets as there are.
pub proof fn law_groups_partition(groups: Seq<PacketGroup>, keys: Seq<(usize, u32)>)
    requires
        groups_of(groups, keys),
        keys.len() <= usize::MAX,
    ensures
        forall|i: int, k: usize|
            #![trigger groups[i].tx_indices@.contains(k)]
            0 <= i < groups.len() ==> (groups[i].tx_indices@.contains(k) <==> k < keys.len()
                && keys[k as int] == groups[i].key()),
        forall|k: int| 0 <= k < keys.len() ==> has_group(groups, #[trigger] keys[k]),
        forall|i: int, j: int|
            0 <= i < j < groups.len() ==> (#[trigger] groups[i]).key() != (
            #[trigger] groups[j]).key(),
        packets_in(groups, groups.len() as int) == keys.len(),
{
    assert forall|i: int, k: usize|
        #![trigger groups[i].tx_indices@.contains(k)]
        0 <= i < groups.len() implies (groups[i].tx_indices@.contains(k) <==> k < keys.len()
        && keys[k as int] == groups[i].key()) by {
        lemma_positions(keys, groups[i].key());
        assert(groups[i].tx_indices@ == positions(keys, groups[i].key()));
    }
    lemma_packets_in(groups, keys, groups.len() as int);
    lemma_position_total(groups, keys);
}

/// Packets with their groups and their timing.
pub struct PacketStats {
    pub packets: Vec<DecodedPacket>,
    pub groups: PacketGroups,
    pub timing: Option<TimingStats>,
}

/// Whether the clock and the data lines are played.
pub open spec fn bus_complete(config: QspiConfig) -> bool {
    &&& config.role_channel(QspiRole::Clk) is Some
    &&& config.role_channel(QspiRole::D0) is Some
    &&& config.role_channel(QspiRole::D1) is Some
    &&& config.role_channel(QspiRole::D2) is Some
    &&& config.role_channel(QspiRole::D3) is Some
}

/// Whether the clock and the data lines are played by the first `n` channels.
pub open spec fn bus_within(config: QspiConfig, n: int) -> bool {
    &&& config.role_within(QspiRole::Clk, n)
    &&& config.role_within(QspiRole::D0, n)
    &&& config.role_within(QspiRole::D1, n)
    &&& config.role_within(QspiRole::D2, n)
    &&& config.role_within(QspiRole::D3, n)
}

/// Whether the clock and the data lines have their transitions in order.
pub open spec fn bus_sorted(store: EdgeStore, config: QspiConfig) -> bool {
    &&& qspi::role_sorted(store, config, QspiRole::Clk)
    &&& qspi::role_sorted(store, config, QspiRole::D0)
    &&& qspi::role_sorted(store, config, QspiRole::D1)
    &&& qspi::role_sorted(store, config, QspiRole::D2)
    &&& qspi::role_sorted(store, config, QspiRole::D3)
}

/// Whether every transaction ends no earlier than it starts, as the clock sees it.
pub open spec fn decodable(clk: Seq<u64>, transactions: Seq<Transaction>) -> bool {
    forall|i: int|
        0 <= i < transactions.len() ==> {
            ||| (#[trigger] transactions[i]).start <= transactions[i].end
            ||| signal::count_below(clk, transactions[i].start as int) <= signal::count_below(
                clk,
                transactions[i].end as int,
            )
        }
}

/// Whether every transaction ends no earlier than it starts, as the clock sees it.
pub fn can_decode(clk: &ChannelView<'_>, transactions: &[Transaction]) -> (b: bool)
    requires
        signal::sorted(clk.transitions@),
    ensures
        b == decodable(clk.transitions@, transactions@),
{
    let mut i: usize = 0;
    while i < transactions.len()
        invariant
            i <= transactions@.len(),
            signal::sorted(clk.transitions@),
            decodable(clk.transitions@, transactions@.take(i as int)),
        decreases transactions@.len() - i,
    {
        let tx: Transaction = transactions[i];
        if tx.start > tx.end {
            let lo: usize = count_less(clk.transitions, tx.start);
            let hi: usize = count_less(clk.transitions, tx.end);
            if lo > hi {
                assert(transactions@[i as int] == tx);
                return false;
            }
        }
        let ghost shorter = transactions@.take(i as int);
        let ghost longer = transactions@.take(i + 1);
        assert forall|k: int| 0 <= k < longer.len() implies {
            ||| (#[trigger] longer[k]).start <= longer[k].end
            ||| signal::count_below(clk.transitions@, longer[k].start as int)
                <= signal::count_below(clk.transitions@, longer[k].end as int)
        } by {
            if k < i {
                assert(longer[k] == shorter[k]);
            }
        }
        i = i + 1;
    }
    assert(transactions@.take(i as int) =~= transactions@);
    true
}

/// Whether `packet` is transaction `i` decoded.
pub open spec fn packet_of(
    packet: DecodedPacket,
    store: EdgeStore,
    config: QspiConfig,
    transactions: Seq<Transaction>,
    i: int,
) -> bool {
    &&& packet.tx_idx == i
    &&& packet.bytes@ == clocked_bytes(
        qspi::line_of(store, config.played_by(QspiRole::Clk)),
        config.bus(store),
        transactions[i].start,
        transactions[i].end,
    )
    &&& packet.crc == crc_of(packet.bytes@)
}

/// Whether `stats` are the statistics of the transactions. Without a clock or
/// one of the data lines they are empty.
pub open spec fn stats_of(
    stats: PacketStats,
    store: EdgeStore,
    config: QspiConfig,
    transactions: Seq<Transaction>,
    samplerate_hz: u64,
    exclude_timing_outliers: bool,
) -> bool {
    &&& groups_of(stats.groups.groups@, packet_keys(stats.packets@))
    &&& if bus_complete(config) {
        &&& stats.packets@.len() == transactions.len()
        &&& forall|i: int|
            0 <= i < transactions.len() ==> packet_of(
                #[trigger] stats.packets@[i],
                store,
                config,
                transactions,
                i,
            )
        &&& timing_of(stats.timing, transactions, samplerate_hz, exclude_timing_outliers)
    } else {
        &&& stats.packets@.len() == 0
        &&& stats.timing is None
    }
}

impl PacketStats {
    pub fn compute(
        store: &EdgeStore,
        config: &QspiConfig,
        transactions: &[Transaction],
        samplerate_hz: u64,
        exclude_timing_outliers: bool,
    ) -> (stats: PacketStats)
        requires
            store.wf(),
            bus_complete(*config) ==> bus_within(*config, store.num_channels as int) && bus_sorted(
                *store,
                *config,
            ) && decodable(
                store.transitions(config.played_by(QspiRole::Clk)),
                transactions@,
            ),
        ensures
            stats_of(
                stats,
                *store,
                *config,
                transactions@,
                samplerate_hz,
                exclude_timing_outliers,
            ),
    {
        let mut packets: Vec<DecodedPacket> = Vec::new();
        match (
            config.channel_for(QspiRole::Clk),
            config.channel_for(QspiRole::D0),
            config.channel_for(QspiRole::D1),
            config.channel_for(QspiRole::D2),
            config.channel_for(QspiRole::D3),
        ) {
            (Some(clk_ch), Some(d0_ch), Some(d1_ch), Some(d2_ch), Some(d3_ch)) => {
                proof {
                    qspi::lemma_role_in_store(*store, *config, QspiRole::Clk);
                    qspi::lemma_role_in_store(*store, *config, QspiRole::D0);
                    qspi::lemma_role_in_store(*store, *config, QspiRole::D1);
                    qspi::lemma_role_in_store(*store, *config, QspiRole::D2);
                    qspi::lemma_role_in_store(*store, *config, QspiRole::D3);
                }
                let clk = store.channel(clk_ch as u32);
                let data = DataLines {
                    d0: store.channel(d0_ch as u32),
                    d1: store.channel(d1_ch as u32),
                    d2: store.channel(d2_ch as u32),
                    d3: store.channel(d3_ch as u32),
                };
                let mut tx_idx: usize = 0;
                while tx_idx < transactions.len()
                    invariant
                        tx_idx <= transactions@.len(),
                        packets@.len() == tx_idx,
                        signal::sorted(clk.transitions@),
                        data.sorted(),
                        data.bus() == config.bus(*store),
                        clk.first_value == store.first_value(config.played_by(QspiRole::Clk)),
                        clk.transitions@ == store.transitions(config.played_by(QspiRole::Clk)),
                        decodable(clk.transitions@, transactions@),
                        forall|i: int|
                            0 <= i < tx_idx ==> packet_of(
                                #[trigger] packets@[i],
                                *store,
                                *config,
                                transactions@,
                                i,
                            ),
                    decreases transactions@.len() - tx_idx,
                {
                    let tx: Transaction = transactions[tx_idx];
                    let bytes: Vec<u8> = decode_transaction_bytes(&clk, &data, tx.start, tx.end);
                    let crc: u32 = crc32(bytes.as_slice());
                    packets.push(DecodedPacket { bytes, crc, tx_idx });
                    tx_idx = tx_idx + 1;
                }
                let groups = PacketGroups::of(&packets);
                let timing = TimingStats::compute(
                    transactions,
                    samplerate_hz,
                    exclude_timing_outliers,
                );
                PacketStats { packets, groups, timing }
            },
            _ => {
                let groups = PacketGroups::of(&packets);
                PacketStats { packets, groups, timing: None }
            },
        }
    }
}

/// Packets are in one group exactly if they have as many bytes and the same
/// fingerprint: a group holds all packets of its size and fingerprint, in
/// order, and no others.
pub proof fn law_groups_hold_their_packets(
    groups: Seq<PacketGroup>,
    packets: Seq<DecodedPacket>,
    g: int,
    k: usize,
)
    requires
        groups_of(groups, packet_keys(packets)),
        packets.len() <= usize::MAX,
        forall|i: int|
            0 <= i < packets.len() ==> (#[trigger] packets[i]).bytes@.len() <= usize::MAX,
        0 <= g < groups.len(),
    ensures
        groups[g].tx_indices@.contains(k) <==> k < packets.len() && packets[k as int].bytes@.len()
            == groups[g].byte_count && packets[k as int].crc == groups[g].crc,
        groups[g].tx_indices@.len() > 0,
        forall|a: int, b: int|
            0 <= a < b < groups[g].tx_indices@.len() ==> groups[g].tx_indices@[a]
                < groups[g].tx_indices@[b],
{
    let keys = packet_keys(packets);
    lemma_positions(keys, groups[g].key());
    assert(groups[g].tx_indices@ == positions(keys, groups[g].key()));
    if k < packets.len() {
        assert(keys[k as int] == packet_key(packets[k as int]));
        assert(packets[k as int].bytes@.len() <= usize::MAX);
    }
}

/// Every packet is in a group, and the groups come in the order of their sizes,
/// those of one size in the order of their fingerprints, no two alike.
pub proof fn law_groups_cover_packets_in_order(
    groups: Seq<PacketGroup>,
    packets: Seq<DecodedPacket>,
    k: int,
)
    requires
        groups_of(groups, packet_keys(packets)),
        0 <= k < packets.len() <= usize::MAX,
    ensures
        exists|g: int|
            0 <= g < groups.len() && (#[trigger] groups[g]).tx_indices@.contains(k as usize),
        forall|a: int, b: int|
            0 <= a < b < groups.len() ==> ((#[trigger] groups[a]).byte_count < (
            #[trigger] groups[b]).byte_count || (groups[a].byte_count == groups[b].byte_count
                && groups[a].crc < groups[b].crc)),
{
    let keys = packet_keys(packets);
    assert(has_group(groups, keys[k]));
    let g = choose|g: int| 0 <= g < groups.len() && (#[trigger] groups[g]).key() == keys[k];
    lemma_positions(keys, groups[g].key());
    assert(groups[g].tx_indices@ == positions(keys, groups[g].key()));
    assert(groups[g].tx_indices@.contains(k as usize));
    assert forall|a: int, b: int| 0 <= a < b < groups.len() implies ((
    #[trigger] groups[a]).byte_count < (#[trigger] groups[b]).byte_count || (groups[a].byte_count
        == groups[b].byte_count && groups[a].crc < groups[b].crc)) by {
        assert(key_less(groups[a].key(), groups[b].key()));
    }
}

/// Entries are counted one by one: those of two lists together are those of
/// each, and a list of one entry holds that entry once.
pub proof fn law_occurrences_add_up(a: Seq<usize>, b: Seq<usize>, x: usize, y: int)
    ensures
        occurrences(a + b, y) == occurrences(a, y) + occurrences(b, y),
        occurrences(Seq::empty(), y) == 0,
        occurrences(seq![x], y) == if x == y {
            1nat
        } else {
            0nat
        },
    decreases b.len(),
{
    reveal_with_fuel(occurrences, 2);
    assert(seq![x].drop_last() =~= Seq::<usize>::empty());
    if b.len() == 0 {
        assert(a + b =~= a);
    } else {
        law_occurrences_add_up(a, b.drop_last(), x, y);
        assert((a + b).drop_last() =~= a + b.drop_last());
    }
}

/// Registers combine bit by bit.
proof fn lemma_crc_bits_linear(x: u32, y: u32, n: nat)
    ensures
        crc_bits(x ^ y, n) == crc_bits(x, n) ^ crc_bits(y, n),
    decreases n,
{
    if n > 0 {
        lemma_crc_bits_linear(x, y, (n - 1) as nat);
        let a = crc_bits(x, (n - 1) as nat);
        let b = crc_bits(y, (n - 1) as nat);
        assert(crc_bit(a ^ b) == crc_bit(a) ^ crc_bit(b)) by (bit_vector);
    }
}

/// Bits that are zero are only shifted out.
proof fn lemma_crc_bits_shift(x: u32, n: u32)
    requires
        x & 0xFF == 0,
        n <= 8,
    ensures
        crc_bits(x, n as nat) == x >> n,
    decreases n,
{
    if n == 0 {
        assert(x >> 0u32 == x) by (bit_vector);
    } else {
        let m = (n - 1) as u32;
        lemma_crc_bits_shift(x, m);
        assert(crc_bit(x >> m) == x >> n) by (bit_vector)
            requires
                x & 0xFF == 0,
                n <= 8,
                m == n - 1,
        ;
    }
}

/// The register after a byte that is the complement of its low byte, but for
/// what went before.
proof fn lemma_crc_complement(x: u32, c: u32, b: u8)
    requires
        b as u32 == !x & 0xFF,
    ensures
        crc_bits((x ^ c) ^ (b as u32), 8) == (x >> 8) ^ crc_bits(0xFF ^ c, 8),
{
    let v = b as u32;
    let high = x & 0xFFFF_FF00;
    assert((x ^ c) ^ v == high ^ (0xFF ^ c) && high & 0xFF == 0 && high >> 8 == x >> 8)
        by (bit_vector)
        requires
            v == !x & 0xFF,
            high == x & 0xFFFF_FF00,
    ;
    lemma_crc_bits_linear(high, 0xFF ^ c, 8);
    lemma_crc_bits_shift(high, 8);
}

/// Eight steps on the registers that are left of a complement.
proof fn lemma_crc_residues()
    ensures
        crc_bits(0xFFu32 ^ 0x0000_0000u32, 8) == 0x2D02_EF8D,
        crc_bits(0xFFu32 ^ 0x2D02_EF8Du32, 8) == 0xBE26_12FF,
        crc_bits(0xFFu32 ^ 0xBE26_12FFu32, 8) == 0x00BE_2612,
        crc_bits(0xFFu32 ^ 0x00BE_2612u32, 8) == 0xDEBB_20E3,
{
    reveal_with_fuel(crc_bits, 9);
    assert(crc_bit(crc_bit(crc_bit(crc_bit(crc_bit(crc_bit(crc_bit(crc_bit(0xFFu32 ^ 0x0000_0000u32))))))))
        == 0x2D02_EF8Du32) by (bit_vector);
    assert(crc_bit(crc_bit(crc_bit(crc_bit(crc_bit(crc_bit(crc_bit(crc_bit(0xFFu32 ^ 0x2D02_EF8Du32))))))))
        == 0xBE26_12FFu32) by (bit_vector);
    assert(crc_bit(crc_bit(crc_bit(crc_bit(crc_bit(crc_bit(crc_bit(crc_bit(0xFFu32 ^ 0xBE26_12FFu32))))))))
        == 0x00BE_2612u32) by (bit_vector);
    assert(crc_bit(crc_bit(crc_bit(crc_bit(crc_bit(crc_bit(crc_bit(crc_bit(0xFFu32 ^ 0x00BE_2612u32))))))))
        == 0xDEBB_20E3u32) by (bit_vector);
}

/// A message with its own fingerprint behind it, lowest byte first, always has
/// the same fingerprint, as is the mark of this code; an empty message has none.
pub proof fn law_fingerprint_closes_a_message(data: Seq<u8>, b0: u8, b1: u8, b2: u8, b3: u8)
    requires
        crc_of(data) == b0 + 0x100 * b1 + 0x1_0000 * b2 + 0x100_0000 * b3,
    ensures
        crc_of(data.push(b0).push(b1).push(b2).push(b3)) == 0x2144_DF1C,
        crc_of(Seq::empty()) == 0,
{
    let r = crc_register(data);
    let crc = r ^ 0xFFFF_FFFF;
    let (x1, x2, x3) = (r >> 8, r >> 16, r >> 24);
    assert({
        &&& b0 as u32 == !r & 0xFF
        &&& b1 as u32 == !x1 & 0xFF
        &&& b2 as u32 == !x2 & 0xFF
        &&& b3 as u32 == !x3 & 0xFF
        &&& r >> 8 == x1
        &&& x1 >> 8 == x2
        &&& x2 >> 8 == x3
        &&& x3 >> 8 == 0
        &&& r ^ 0 == r
    }) by (bit_vector)
        requires
            crc == r ^ 0xFFFF_FFFF,
            crc == b0 + 0x100 * b1 + 0x1_0000 * b2 + 0x100_0000 * b3,
            x1 == r >> 8,
            x2 == r >> 16,
            x3 == r >> 24,
    ;
    lemma_crc_residues();
    lemma_crc_complement(r, 0x0000_0000, b0);
    lemma_crc_complement(x1, 0x2D02_EF8D, b1);
    lemma_crc_complement(x2, 0xBE26_12FF, b2);
    lemma_crc_complement(x3, 0x00BE_2612, b3);
    let d1 = data.push(b0);
    let d2 = d1.push(b1);
    let d3 = d2.push(b2);
    let d4 = d3.push(b3);
    assert(d1.drop_last() =~= data);
    assert(d2.drop_last() =~= d1);
    assert(d3.drop_last() =~= d2);
    assert(d4.drop_last() =~= d3);
    assert(crc_register(d1) == x1 ^ 0x2D02_EF8Du32);
    assert(crc_register(d2) == x2 ^ 0xBE26_12FFu32);
    assert(crc_register(d3) == x3 ^ 0x00BE_2612u32);
    assert(crc_register(d4) == 0u32 ^ 0xDEBB_20E3u32);
    assert((0u32 ^ 0xDEBB_20E3u32) ^ 0xFFFF_FFFF == 0x2144_DF1Cu32 && 0xFFFF_FFFFu32 ^ 0xFFFF_FFFFu32 == 0)
        by (bit_vector);
}

/// Transactions can be decoded unless the clock changes between the end of one
/// and a start that comes later than it.
pub proof fn law_decodable_unless_turned_round(clk: Seq<u64>, transactions: Seq<Transaction>)
    requires
        forall|i: int, j: int| 0 <= i <= j < clk.len() ==> clk[i] <= clk[j],
    ensures
        decodable(clk, transactions) <==> forall|i: int, k: int|
            0 <= i < transactions.len() && 0 <= k < clk.len() ==> !((
            #[trigger] transactions[i]).end <= #[trigger] clk[k] && clk[k]
                < transactions[i].start),
{
    assert forall|i: int| 0 <= i < transactions.len() implies ((
    #[trigger] transactions[i]).start <= transactions[i].end || signal::count_below(
        clk,
        transactions[i].start as int,
    ) <= signal::count_below(clk, transactions[i].end as int)) == (forall|k: int|
        0 <= k < clk.len() ==> !(transactions[i].end <= #[trigger] clk[k] && clk[k]
            < transactions[i].start)) by {
        let start = transactions[i].start as int;
        let end = transactions[i].end as int;
        signal::lemma_count_below_sorted(clk, start);
        signal::lemma_count_below_sorted(clk, end);
        if signal::count_below(clk, start) > signal::count_below(clk, end) {
            let k = signal::count_below(clk, end) as int;
            assert(end <= clk[k] < start);
            if start <= end {
                assert(false);
            }
        }
    }
}

} // verus!
