//! What a viewport shows: which transactions, which gaps, where the buttons lead.

use vstd::prelude::*;

use crate::waveform::blocks::SAMPLES_PER_BLOCK;
use crate::waveform::edges;
use crate::waveform::edges::{block_span, EdgeStore};
use crate::waveform::qspi::Transaction;
use crate::waveform::signal;
use crate::waveform::signal::flipped;

verus! {

/// Where the transactions start.
pub open spec fn starts(transactions: Seq<Transaction>) -> Seq<u64> {
    Seq::new(transactions.len(), |i: int| transactions[i].start)
}

/// Where the transactions end.
pub open spec fn ends(transactions: Seq<Transaction>) -> Seq<u64> {
    Seq::new(transactions.len(), |i: int| transactions[i].end)
}

/// Number of transactions that end before sample `s`. It has a meaning only
/// where the transactions end in order.
pub fn ended_before(transactions: &[Transaction], s: u64) -> (n: usize)
    ensures
        n <= transactions@.len(),
        signal::sorted(ends(transactions@)) ==> n == signal::count_below(
            ends(transactions@),
            s as int,
        ),
{
    let ghost es = ends(transactions@);
    let mut lo: usize = 0;
    let mut hi: usize = transactions.len();
    while lo < hi
        invariant
            lo <= hi <= transactions@.len(),
            es == ends(transactions@),
            signal::sorted(es) ==> forall|i: int| 0 <= i < lo ==> es[i] < s,
            signal::sorted(es) ==> forall|i: int| hi <= i < es.len() ==> es[i] >= s,
        decreases hi - lo,
    {
        let mid: usize = lo + (hi - lo) / 2;
        assert(es[mid as int] == transactions@[mid as int].end);
        if transactions[mid].end < s {
            lo = mid + 1;
        } else {
            hi = mid;
        }
    }
    proof {
        if signal::sorted(es) {
            signal::lemma_count_below_split(es, s as int, lo as int);
        }
    }
    lo
}

/// Number of transactions that start at sample `s` or before. It has a meaning
/// only where the transactions start in order.
pub fn started_by(transactions: &[Transaction], s: u64) -> (n: usize)
    ensures
        n <= transactions@.len(),
        signal::sorted(starts(transactions@)) ==> n == signal::count_below(
            starts(transactions@),
            s + 1,
        ),
{
    let ghost ss = starts(transactions@);
    let mut lo: usize = 0;
    let mut hi: usize = transactions.len();
    while lo < hi
        invariant
            lo <= hi <= transactions@.len(),
            ss == starts(transactions@),
            signal::sorted(ss) ==> forall|i: int| 0 <= i < lo ==> ss[i] <= s,
            signal::sorted(ss) ==> forall|i: int| hi <= i < ss.len() ==> ss[i] > s,
        decreases hi - lo,
    {
        let mid: usize = lo + (hi - lo) / 2;
        assert(ss[mid as int] == transactions@[mid as int].start);
        if transactions[mid].start <= s {
            lo = mid + 1;
        } else {
            hi = mid;
        }
    }
    proof {
        if signal::sorted(ss) {
            signal::lemma_count_below_split(ss, s + 1, lo as int);
        }
    }
    lo
}

/// Where the buttons lead: to the transaction before the first visible one and
/// to the one after the last.
pub struct NavTargets {
    pub prev: Option<u64>,
    pub next: Option<u64>,
}

/// Start of the last transaction that ends before sample `first`.
pub open spec fn prev_target(transactions: Seq<Transaction>, first: u64) -> Option<u64> {
    let n = signal::count_below(ends(transactions), first as int);
    if n > 0 {
        Some(transactions[n - 1].start)
    } else {
        None
    }
}

/// Start of the first transaction that starts after sample `last`.
pub open spec fn next_target(transactions: Seq<Transaction>, last: u64) -> Option<u64> {
    let n = signal::count_below(starts(transactions), last + 1);
    if n < transactions.len() {
        Some(transactions[n as int].start)
    } else {
        None
    }
}

/// Where the buttons lead from a viewport on [first, last).
pub fn nav_targets(transactions: &[Transaction], first: u64, last: u64) -> (targets: NavTargets)
    ensures
        signal::sorted(ends(transactions@)) ==> targets.prev == prev_target(transactions@, first),
        signal::sorted(starts(transactions@)) ==> targets.next == next_target(transactions@, last),
{
    let first_visible: usize = ended_before(transactions, first);
    let last_visible: usize = started_by(transactions, last);
    let prev: Option<u64> = if first_visible > 0 {
        Some(transactions[first_visible - 1].start)
    } else {
        None
    };
    let next: Option<u64> = if last_visible < transactions.len() {
        Some(transactions[last_visible].start)
    } else {
        None
    };
    NavTargets { prev, next }
}

/// The transactions that a viewport on [first, last) shows, as bounds of their
/// indices: from the first that does not end before it, for as long as they
/// start by its end.
pub fn visible_transactions(transactions: &[Transaction], first: u64, last: u64) -> (r: (
    usize,
    usize,
))
    ensures
        r.0 <= r.1 <= transactions@.len(),
        signal::sorted(ends(transactions@)) ==> r.0 == signal::count_below(
            ends(transactions@),
            first as int,
        ),
        forall|i: int| r.0 <= i < r.1 ==> (#[trigger] transactions@[i]).start <= last,
        r.1 < transactions@.len() ==> transactions@[r.1 as int].start > last,
{
    let lo: usize = ended_before(transactions, first);
    let mut hi: usize = lo;
    while hi < transactions.len() && transactions[hi].start <= last
        invariant
            lo <= hi <= transactions@.len(),
            forall|i: int| lo <= i < hi ==> (#[trigger] transactions@[i]).start <= last,
        decreases transactions@.len() - hi,
    {
        hi = hi + 1;
    }
    (lo, hi)
}

/// Where the transactions start and end in order, a viewport shows exactly
/// those that reach into it: they end at its first sample or later and start
/// at its last or before.
pub proof fn law_visible_transactions_reach_in(
    transactions: Seq<Transaction>,
    first: u64,
    last: u64,
    lo: int,
    hi: int,
    i: int,
)
    requires
        signal::sorted(starts(transactions)),
        signal::sorted(ends(transactions)),
        0 <= lo <= hi <= transactions.len(),
        lo == signal::count_below(ends(transactions), first as int),
        forall|k: int| lo <= k < hi ==> (#[trigger] transactions[k]).start <= last,
        hi < transactions.len() ==> transactions[hi].start > last,
        0 <= i < transactions.len(),
    ensures
        lo <= i < hi <==> transactions[i].end >= first && transactions[i].start <= last,
{
    let es = ends(transactions);
    let ss = starts(transactions);
    signal::lemma_count_below_sorted(es, first as int);
    assert(es[i] == transactions[i].end);
    assert(ss[i] == transactions[i].start);
    if i >= hi {
        assert(ss[hi] == transactions[hi].start);
    }
}

/// Samples of block `blk` that a viewport on [first, last) shows.
pub open spec fn block_window(blk: u32, first: u64, last: u64) -> (u64, u64) {
    let start = blk * SAMPLES_PER_BLOCK;
    let end = start + SAMPLES_PER_BLOCK;
    (
        if start < first {
            first
        } else {
            start as u64
        },
        if end < last {
            end as u64
        } else {
            last
        },
    )
}

/// Windows of those of the blocks `from` to `to` (without `to`) of a channel
/// that are not there.
pub open spec fn gaps(
    store: EdgeStore,
    ch: u32,
    first: u64,
    last: u64,
    from: int,
    to: int,
) -> Seq<(u64, u64)>
    decreases to - from,
{
    if from >= to {
        Seq::empty()
    } else {
        let before = gaps(store, ch, first, last, from, to - 1);
        if store.holds(ch, (to - 1) as u32) {
            before
        } else {
            before.push(block_window((to - 1) as u32, first, last))
        }
    }
}

/// The windows of a viewport on [first, last) in which a channel is unknown,
/// because the block is not there.
pub fn unknown_spans(store: &EdgeStore, ch: u32, first: u64, last: u64) -> (spans: Vec<(u64, u64)>)
    requires
        store.blocks_per_channel > 0,
    ensures
        spans@ == gaps(
            *store,
            ch,
            first,
            last,
            edges::block_of(first) as int,
            edges::last_block_of(last, store.blocks_per_channel) + 1,
        ),
{
    let (first_block, last_block) = block_span(first, last, store.blocks_per_channel);
    let mut spans: Vec<(u64, u64)> = Vec::new();
    let mut blk: u64 = first_block as u64;
    while blk <= last_block as u64
        invariant
            first_block <= blk,
            blk <= last_block + 1 || blk == first_block,
            spans@ == gaps(*store, ch, first, last, first_block as int, blk as int),
        decreases last_block + 1 - blk,
    {
        if !store.is_block_ingested(ch, blk as u32) {
            let start: u64 = blk * SAMPLES_PER_BLOCK;
            let end: u64 = start + SAMPLES_PER_BLOCK;
            let from: u64 = if start < first {
                first
            } else {
                start
            };
            let to: u64 = if end < last {
                end
            } else {
                last
            };
            spans.push((from, to));
        }
        blk = blk + 1;
    }
    spans
}

/// The blocks that a viewport on [first, last) touches.
pub open spec fn touched_blocks(first: u64, last: u64) -> Seq<u32> {
    edges::block_indices(
        edges::block_of(first),
        edges::block_of(
            if last == 0 {
                0
            } else {
                (last - 1) as u64
            },
        ),
    )
}

/// Whether the `i`-th of the blocks belongs to the recording and is not there
/// for channel `ch`.
pub open spec fn lacks(store: EdgeStore, blocks: Seq<u32>, ch: u32, i: int) -> bool {
    &&& ch < store.num_channels
    &&& 0 <= i < blocks.len()
    &&& blocks[i] < store.blocks_per_channel
    &&& !store.holds(ch, blocks[i])
}

/// Whether a block of the recording that a viewport on [first, last) touches is
/// not there for some channel.
pub open spec fn incomplete(store: EdgeStore, first: u64, last: u64) -> bool {
    exists|ch: u32, i: int| #[trigger] lacks(store, touched_blocks(first, last), ch, i)
}

/// Whether a viewport on [first, last) still waits for data.
pub fn has_missing_data(store: &EdgeStore, first: u64, last: u64) -> (b: bool)
    ensures
        b == incomplete(*store, first, last),
{
    let blocks: Vec<u32> = EdgeStore::blocks_for_range(first, last);
    let mut ch: u32 = 0;
    while ch < store.num_channels
        invariant
            ch <= store.num_channels,
            blocks@ == touched_blocks(first, last),
            forall|c: u32, k: int| c < ch ==> !#[trigger] lacks(*store, blocks@, c, k),
        decreases store.num_channels - ch,
    {
        let mut i: usize = 0;
        while i < blocks.len()
            invariant
                ch < store.num_channels,
                i <= blocks@.len(),
                blocks@ == touched_blocks(first, last),
                forall|k: int| k < i ==> !#[trigger] lacks(*store, blocks@, ch, k),
            decreases blocks@.len() - i,
        {
            let blk: u32 = blocks[i];
            if blk < store.blocks_per_channel && !store.is_block_ingested(ch, blk) {
                assert(lacks(*store, touched_blocks(first, last), ch, i as int));
                return true;
            }
            i = i + 1;
        }
        ch = ch + 1;
    }
    false
}

/// Once a viewport waits for nothing, it shows no gap within the recording.
pub proof fn law_complete_viewport_has_no_gaps(store: EdgeStore, ch: u32, first: u64, last: u64)
    requires
        !incomplete(store, first, last),
        ch < store.num_channels,
        store.blocks_per_channel > 0,
        first < last,
        (last - 1) as int / (SAMPLES_PER_BLOCK as int) <= u32::MAX,
    ensures
        gaps(
            store,
            ch,
            first,
            last,
            edges::block_of(first) as int,
            edges::last_block_of(last, store.blocks_per_channel) + 1,
        ) == Seq::<(u64, u64)>::empty(),
{
    lemma_no_gaps(
        store,
        ch,
        first,
        last,
        edges::last_block_of(last, store.blocks_per_channel) + 1,
    );
}

/// No gaps up to block `to`.
proof fn lemma_no_gaps(store: EdgeStore, ch: u32, first: u64, last: u64, to: int)
    requires
        !incomplete(store, first, last),
        ch < store.num_channels,
        store.blocks_per_channel > 0,
        first < last,
        (last - 1) as int / (SAMPLES_PER_BLOCK as int) <= u32::MAX,
        to <= edges::last_block_of(last, store.blocks_per_channel) + 1,
    ensures
        gaps(store, ch, first, last, edges::block_of(first) as int, to) == Seq::<
            (u64, u64),
        >::empty(),
    decreases to,
{
    let from = edges::block_of(first) as int;
    if from < to {
        lemma_no_gaps(store, ch, first, last, to - 1);
        let blocks = touched_blocks(first, last);
        let i = to - 1 - from;
        assert(!lacks(store, blocks, ch, i));
        assert(blocks[i] == (to - 1) as u32);
    }
}

/// What is drawn where edges fall together: the level before and after them.
#[derive(Clone, Copy, PartialEq, Eq, Debug, Structural)]
pub struct Step {
    pub before: u8,
    pub after: u8,
}

/// How many edges the first `n` groups hold.
pub open spec fn edges_in(groups: Seq<usize>, n: int) -> int
    decreases n,
{
    if n <= 0 {
        0
    } else {
        edges_in(groups, n - 1) + groups[n - 1]
    }
}

/// The steps of a signal that starts at `level`, where edges that fall
/// together are drawn as one.
pub fn trace_steps(level: u8, groups: &Vec<usize>) -> (steps: Vec<Step>)
    requires
        level <= 1,
    ensures
        steps@.len() == groups@.len(),
        forall|i: int|
            0 <= i < steps@.len() ==> {
                &&& (#[trigger] steps@[i]).before == (level + edges_in(groups@, i)) % 2
                &&& steps@[i].after == (level + edges_in(groups@, i + 1)) % 2
            },
{
    let mut steps: Vec<Step> = Vec::new();
    let mut current: u8 = level;
    let mut i: usize = 0;
    while i < groups.len()
        invariant
            i <= groups@.len(),
            steps@.len() == i,
            current == (level + edges_in(groups@, i as int)) % 2,
            forall|k: int|
                0 <= k < i ==> {
                    &&& (#[trigger] steps@[k]).before == (level + edges_in(groups@, k)) % 2
                    &&& steps@[k].after == (level + edges_in(groups@, k + 1)) % 2
                },
        decreases groups@.len() - i,
    {
        let next: u8 = flipped(current, groups[i]);
        steps.push(Step { before: current, after: next });
        current = next;
        i = i + 1;
    }
    steps
}

/// However the edges of a viewport on [first, last) are grouped, the trace ends
/// at the level that the signal has just before its end.
pub proof fn law_trace_ends_at_the_signal(
    first_value: u8,
    transitions: Seq<u64>,
    first: u64,
    last: u64,
    groups: Seq<usize>,
)
    requires
        signal::sorted(transitions),
        first <= last,
        0 < last,
        edges_in(groups, groups.len() as int) == signal::count_below(transitions, last as int)
            - signal::count_below(transitions, first as int),
    ensures
        ((first_value + signal::count_below(transitions, first as int)) % 2 + edges_in(
            groups,
            groups.len() as int,
        )) % 2 == signal::level(first_value, transitions, last - 1),
{
}

/// The button back leads to the last transaction that ends before the viewport,
/// and there is none exactly if no transaction does.
pub proof fn law_back_leads_to_the_last_before(
    transactions: Seq<Transaction>,
    first: u64,
    i: int,
)
    requires
        forall|a: int, b: int|
            0 <= a <= b < transactions.len() ==> (#[trigger] transactions[a]).end <= (
            #[trigger] transactions[b]).end,
        0 <= i < transactions.len(),
    ensures
        transactions[i].end < first && (i + 1 == transactions.len() || transactions[i + 1].end
            >= first) ==> prev_target(transactions, first) == Some(transactions[i].start),
        transactions[0].end >= first ==> prev_target(transactions, first) is None,
        prev_target(Seq::empty(), first) is None,
{
    let es = ends(transactions);
    assert forall|a: int, b: int| 0 <= a <= b < es.len() implies es[a] <= es[b] by {
        assert(transactions[a].end <= transactions[b].end);
    }
    if transactions[i].end < first && (i + 1 == transactions.len() || transactions[i + 1].end
        >= first) {
        assert(es[i] < first);
        assert forall|k: int| i + 1 <= k < es.len() implies es[k] >= first by {
            assert(es[i + 1] <= es[k]);
        }
        signal::lemma_count_below_split(es, first as int, i + 1);
    }
    if transactions[0].end >= first {
        assert forall|k: int| 0 <= k < es.len() implies es[k] >= first by {
            assert(es[0] <= es[k]);
        }
        signal::lemma_count_below_split(es, first as int, 0);
    }
    assert(ends(Seq::empty()) =~= Seq::<u64>::empty());
}

/// The button ahead leads to the first transaction that starts after the
/// viewport, and there is none exactly if no transaction does.
pub proof fn law_ahead_leads_to_the_first_after(
    transactions: Seq<Transaction>,
    last: u64,
    i: int,
)
    requires
        forall|a: int, b: int|
            0 <= a <= b < transactions.len() ==> (#[trigger] transactions[a]).start <= (
            #[trigger] transactions[b]).start,
        0 <= i < transactions.len(),
    ensures
        transactions[i].start > last && (i == 0 || transactions[i - 1].start <= last)
            ==> next_target(transactions, last) == Some(transactions[i].start),
        transactions.last().start <= last ==> next_target(transactions, last) is None,
        next_target(Seq::empty(), last) is None,
{
    let ss = starts(transactions);
    assert forall|a: int, b: int| 0 <= a <= b < ss.len() implies ss[a] <= ss[b] by {
        assert(transactions[a].start <= transactions[b].start);
    }
    if transactions[i].start > last && (i == 0 || transactions[i - 1].start <= last) {
        assert forall|k: int| 0 <= k < i implies ss[k] < last + 1 by {
            assert(ss[k] <= ss[i - 1]);
        }
        assert forall|k: int| i <= k < ss.len() implies ss[k] >= last + 1 by {
            assert(ss[i] <= ss[k]);
        }
        signal::lemma_count_below_split(ss, last + 1, i);
    }
    if transactions.last().start <= last {
        let n = ss.len() as int;
        assert forall|k: int| 0 <= k < n implies ss[k] < last + 1 by {
            assert(ss[k] <= ss[n - 1]);
        }
        signal::lemma_count_below_split(ss, last + 1, n);
    }
    assert(starts(Seq::empty()) =~= Seq::<u64>::empty());
}

/// Whether one of the windows holds sample `s`.
pub open spec fn in_window(windows: Seq<(u64, u64)>, s: u64) -> bool {
    exists|i: int| 0 <= i < windows.len() && (#[trigger] windows[i]).0 <= s < windows[i].1
}

/// The windows of the blocks `from` to `to` that are not there hold those of
/// the samples whose block is not there.
proof fn lemma_gaps(store: EdgeStore, ch: u32, first: u64, last: u64, from: int, to: int, s: u64)
    requires
        0 <= from,
        to <= 0x1_0000_0000,
        first <= s < last,
    ensures
        in_window(gaps(store, ch, first, last, from, to), s) <==> from <= s
            / SAMPLES_PER_BLOCK < to && !store.holds(ch, (s / SAMPLES_PER_BLOCK) as u32),
    decreases to - from,
{
    let all = gaps(store, ch, first, last, from, to);
    if from < to {
        lemma_gaps(store, ch, first, last, from, to - 1, s);
        let before = gaps(store, ch, first, last, from, to - 1);
        let blk = (to - 1) as u32;
        if !store.holds(ch, blk) {
            let w = block_window(blk, first, last);
            assert(all == before.push(w));
            assert(w.0 <= s < w.1 <==> s / SAMPLES_PER_BLOCK == blk);
            if in_window(before, s) {
                let i = choose|i: int|
                    0 <= i < before.len() && (#[trigger] before[i]).0 <= s < before[i].1;
                assert(all[i].0 <= s < all[i].1);
            }
            if in_window(all, s) {
                let i = choose|i: int| 0 <= i < all.len() && (#[trigger] all[i]).0 <= s < all[i].1;
                if i < before.len() {
                    assert(before[i].0 <= s < before[i].1);
                }
            }
            if w.0 <= s < w.1 {
                assert(all[before.len() as int] == w);
            }
        }
    }
}

/// Within the recording, a channel is shown as unknown at a sample of the
/// viewport exactly if the block of that sample is not there.
pub proof fn law_unknown_is_what_is_not_there(
    store: EdgeStore,
    ch: u32,
    first: u64,
    last: u64,
    s: u64,
)
    requires
        store.blocks_per_channel > 0,
        first <= s < last,
        s / SAMPLES_PER_BLOCK < store.blocks_per_channel,
    ensures
        in_window(
            gaps(
                store,
                ch,
                first,
                last,
                edges::block_of(first) as int,
                edges::last_block_of(last, store.blocks_per_channel) + 1,
            ),
            s,
        ) <==> !store.holds(ch, (s / SAMPLES_PER_BLOCK) as u32),
{
    lemma_gaps(
        store,
        ch,
        first,
        last,
        edges::block_of(first) as int,
        edges::last_block_of(last, store.blocks_per_channel) + 1,
        s,
    );
}

/// A viewport waits for data exactly if the block of one of its samples is not
/// there for some channel, although the recording has it.
pub proof fn law_viewport_waits_for_its_samples(store: EdgeStore, first: u64, last: u64)
    requires
        first < last,
        (last - 1) as int / (SAMPLES_PER_BLOCK as int) <= u32::MAX,
    ensures
        incomplete(store, first, last) <==> exists|ch: u32, s: u64|
            #![trigger store.holds(ch, (s / SAMPLES_PER_BLOCK) as u32)]
            ch < store.num_channels && first <= s < last && s / SAMPLES_PER_BLOCK
                < store.blocks_per_channel && !store.holds(ch, (s / SAMPLES_PER_BLOCK) as u32),
{
    let blocks = touched_blocks(first, last);
    if incomplete(store, first, last) {
        let (ch, i) = choose|ch: u32, i: int| #[trigger] lacks(store, blocks, ch, i);
        edges::law_blocks_of_a_range(first, last, blocks[i]);
        assert(blocks.contains(blocks[i]));
        let s = choose|s: u64|
            first <= s < last && #[trigger] (s / SAMPLES_PER_BLOCK) == blocks[i];
        assert(!store.holds(ch, (s / SAMPLES_PER_BLOCK) as u32));
    }
    if exists|ch: u32, s: u64|
        #![trigger store.holds(ch, (s / SAMPLES_PER_BLOCK) as u32)]
        ch < store.num_channels && first <= s < last && s / SAMPLES_PER_BLOCK
            < store.blocks_per_channel && !store.holds(ch, (s / SAMPLES_PER_BLOCK) as u32) {
        let (ch, s) = choose|ch: u32, s: u64|
            #![trigger store.holds(ch, (s / SAMPLES_PER_BLOCK) as u32)]
            ch < store.num_channels && first <= s < last && s / SAMPLES_PER_BLOCK
                < store.blocks_per_channel && !store.holds(ch, (s / SAMPLES_PER_BLOCK) as u32);
        let blk = (s / SAMPLES_PER_BLOCK) as u32;
        edges::law_blocks_of_a_range(first, last, blk);
        assert(s / SAMPLES_PER_BLOCK == blk);
        assert(blocks.contains(blk));
        assert(lacks(store, blocks, ch, blocks.index_of(blk)));
    }
}

/// Edges are counted group by group.
pub proof fn law_edges_are_counted_by_group(groups: Seq<usize>, n: int)
    requires
        0 <= n < groups.len(),
    ensures
        edges_in(groups, 0) == 0,
        edges_in(groups, n + 1) == edges_in(groups, n) + groups[n],
{
}

/// The windows in which a channel is unknown lie within the viewport, one after
/// the other.
pub proof fn law_unknown_stays_in_the_viewport(
    store: EdgeStore,
    ch: u32,
    first: u64,
    last: u64,
    from: int,
    to: int,
)
    requires
        0 <= from,
        to <= 0x1_0000_0000,
    ensures
        forall|i: int|
            0 <= i < gaps(store, ch, first, last, from, to).len() ==> {
                &&& first <= (#[trigger] gaps(store, ch, first, last, from, to)[i]).0
                &&& gaps(store, ch, first, last, from, to)[i].1 <= last
                &&& gaps(store, ch, first, last, from, to)[i].1 <= to * SAMPLES_PER_BLOCK
            },
        forall|i: int, j: int|
            0 <= i < j < gaps(store, ch, first, last, from, to).len() ==> (#[trigger] gaps(
                store,
                ch,
                first,
                last,
                from,
                to,
            )[i]).1 <= (#[trigger] gaps(store, ch, first, last, from, to)[j]).0,
    decreases to - from,
{
    if from < to {
        law_unknown_stays_in_the_viewport(store, ch, first, last, from, to - 1);
        let before = gaps(store, ch, first, last, from, to - 1);
        let all = gaps(store, ch, first, last, from, to);
        assert(forall|i: int| 0 <= i < before.len() ==> all[i] == before[i]);
    }
}

} // verus!
