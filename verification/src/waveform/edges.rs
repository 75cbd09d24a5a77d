//! Channels as they are ingested: blocks in any order, merged from the front.

use std::collections::{HashMap, HashSet};

use vstd::prelude::*;

use crate::archive;
use crate::archive::EntryModel;
use crate::waveform::blocks;
use crate::waveform::blocks::{extract_block_transitions, offsets_fit, SAMPLES_PER_BLOCK};
use crate::waveform::signal;
use crate::waveform::signal::{flipped, ChannelView, SparseChannel};
use crate::waveform::source;
use crate::waveform::source::BlockSource;

verus! {

broadcast use vstd::std_specs::hash::group_hash_axioms;

/// The offsets of a block as absolute sample indices.
pub open spec fn shifted(offsets: Seq<u32>, base: int) -> Seq<u64> {
    Seq::new(offsets.len(), |i: int| (base + offsets[i]) as u64)
}

/// Edges of one block: the level at its first bit and the offsets at which it flips.
#[verifier::ext_equal]
pub struct EdgeModel {
    pub first_value: u8,
    pub flips: Seq<u32>,
}

/// Edges that a raw block holds.
pub open spec fn edges_of(raw: Seq<u8>) -> EdgeModel {
    EdgeModel { first_value: blocks::raw_first_value(raw), flips: blocks::flips(raw, 8 * raw.len() as int) }
}

/// Per-block edge data before value-chaining is resolved.
pub struct BlockEdges {
    /// Signal value at bit offset 0 of this block (from the raw bytes).
    pub first_value: u8,
    /// Bit offsets within this block where signal flips.
    pub transitions: Vec<u32>,
}

impl View for BlockEdges {
    type V = EdgeModel;

    open spec fn view(&self) -> EdgeModel {
        EdgeModel { first_value: self.first_value, flips: self.transitions@ }
    }
}

/// What has been merged of a channel: how many leading blocks, the level at
/// the end of the last of them, and their transitions.
#[verifier::ext_equal]
pub struct ResolvedModel {
    pub blocks: int,
    pub tail_value: u8,
    pub transitions: Seq<u64>,
}

/// A channel of which no block has been merged.
pub open spec fn unresolved() -> ResolvedModel {
    ResolvedModel { blocks: 0, tail_value: 0, transitions: Seq::empty() }
}

/// Merge of the next block. A block after the first whose first level differs
/// from the level before gets a transition at its boundary.
pub open spec fn resolve_block(m: ResolvedModel, e: EdgeModel) -> ResolvedModel {
    let base = m.blocks * SAMPLES_PER_BLOCK;
    let boundary = if m.blocks > 0 && e.first_value != m.tail_value {
        seq![base as u64]
    } else {
        Seq::empty()
    };
    ResolvedModel {
        blocks: m.blocks + 1,
        tail_value: ((e.first_value + e.flips.len()) % 2) as u8,
        transitions: m.transitions + boundary + shifted(e.flips, base),
    }
}

/// Merge of consecutive blocks for as long as they are there, up to block `up_to`.
pub open spec fn advance(m: ResolvedModel, edges: Map<u32, EdgeModel>, up_to: u32) -> ResolvedModel
    decreases up_to + 1 - m.blocks,
{
    if 0 <= m.blocks <= up_to && edges.contains_key(m.blocks as u32) {
        advance(resolve_block(m, edges[m.blocks as u32]), edges, up_to)
    } else {
        m
    }
}

/// Merge of the first `n` blocks.
pub open spec fn resolved_blocks(edges: Map<u32, EdgeModel>, n: int) -> ResolvedModel
    decreases n,
{
    if n <= 0 {
        unresolved()
    } else {
        resolve_block(resolved_blocks(edges, n - 1), edges[(n - 1) as u32])
    }
}

/// The merge of the first `n` blocks looks at those blocks alone.
proof fn lemma_resolved_blocks_frame(a: Map<u32, EdgeModel>, b: Map<u32, EdgeModel>, n: int)
    requires
        n <= 0x1_0000_0000,
        forall|i: u32| i < n ==> a[i] == b[i],
    ensures
        resolved_blocks(a, n) == resolved_blocks(b, n),
    decreases n,
{
    if n > 0 {
        lemma_resolved_blocks_frame(a, b, n - 1);
        assert(a[(n - 1) as u32] == b[(n - 1) as u32]);
    }
}

/// Appends the offsets of a block as absolute sample indices.
fn append_shifted(out: &mut Vec<u64>, offsets: &Vec<u32>, base: u64)
    requires
        base <= 0x1_0000_0000 * SAMPLES_PER_BLOCK,
    ensures
        final(out)@ == old(out)@ + shifted(offsets@, base as int),
{
    let mut i: usize = 0;
    while i < offsets.len()
        invariant
            i <= offsets@.len(),
            base <= 0x1_0000_0000 * SAMPLES_PER_BLOCK,
            out@ == old(out)@ + shifted(offsets@.take(i as int), base as int),
        decreases offsets@.len() - i,
    {
        out.push(base + offsets[i] as u64);
        i = i + 1;
        assert(out@ =~= old(out)@ + shifted(offsets@.take(i as int), base as int));
    }
    assert(offsets@.take(i as int) =~= offsets@);
}

/// Per-channel state tracking in-progress ingestion.
pub struct ChannelData {
    /// Raw per-block edges (bit offsets within block).
    pub block_edges: HashMap<u32, BlockEdges>,
    /// The block index up to which values have been resolved and merged into `resolved`.
    /// None = no blocks resolved yet.
    pub resolved_tail: Option<u32>,
    /// Value at the end of the last resolved block (used to chain into the next).
    pub tail_value: u8,
    /// Fully resolved merged channel (absolute sample indices).
    pub resolved: SparseChannel,
}

impl ChannelData {
    /// Edges of each ingested block.
    pub open spec fn edges(&self) -> Map<u32, EdgeModel> {
        self.block_edges@.map_values(|b: BlockEdges| b@)
    }

    /// Number of leading blocks that have been merged.
    pub open spec fn merged_blocks(&self) -> int {
        match self.resolved_tail {
            None => 0,
            Some(t) => t + 1,
        }
    }

    /// What has been merged.
    pub open spec fn merged(&self) -> ResolvedModel {
        ResolvedModel {
            blocks: self.merged_blocks(),
            tail_value: self.tail_value,
            transitions: self.resolved.transitions@,
        }
    }

    /// Whether the merged state is the merge of the leading blocks.
    pub open spec fn wf(&self) -> bool {
        &&& forall|b: u32| b < self.merged_blocks() ==> #[trigger] self.edges().contains_key(b)
        &&& self.merged() == resolved_blocks(self.edges(), self.merged_blocks())
        &&& self.resolved.first_value == 0
    }

    pub fn new() -> (data: Self)
        ensures
            data.wf(),
            data.merged() == unresolved(),
            data.edges() == Map::<u32, EdgeModel>::empty(),
    {
        let data = ChannelData {
            block_edges: HashMap::new(),
            resolved_tail: None,
            tail_value: 0,
            resolved: SparseChannel::new(),
        };
        assert(data.edges() =~= Map::<u32, EdgeModel>::empty());
        data
    }

    /// Ingest raw block data: extract transitions and store per-block.
    /// Then try to advance the resolved tail forward.
    pub fn ingest_raw(&mut self, block_idx: u32, raw: &[u8])
        requires
            blocks::indexable(raw@),
        ensures
            (final(self).edges(), final(self).merged()) == with_raw(
                (old(self).edges(), old(self).merged()),
                block_idx,
                raw@,
            ),
            final(self).resolved.first_value == old(self).resolved.first_value,
            old(self).wf() && block_idx >= old(self).merged_blocks() ==> final(self).wf(),
    {
        let (first_value, transitions) = extract_block_transitions(raw);
        let block = BlockEdges { first_value, transitions };
        let ghost before = *self;
        self.block_edges.insert(block_idx, block);
        assert(self.edges() =~= before.edges().insert(block_idx, edges_of(raw@)));
        proof {
            if before.wf() && block_idx >= before.merged_blocks() {
                lemma_resolved_blocks_frame(before.edges(), self.edges(), self.merged_blocks());
            }
        }
        self.advance_resolved_tail(block_idx);
    }

    /// Walk forward from current resolved_tail through consecutive ingested blocks,
    /// merging their edges into `self.resolved` with correct absolute sample indices.
    pub fn advance_resolved_tail(&mut self, up_to: u32)
        ensures
            final(self).edges() == old(self).edges(),
            final(self).merged() == advance(old(self).merged(), old(self).edges(), up_to),
            final(self).resolved.first_value == old(self).resolved.first_value,
            old(self).wf() ==> final(self).wf(),
    {
        let mut blk: u64 = match self.resolved_tail {
            None => 0,
            Some(t) => t as u64 + 1,
        };
        while blk <= up_to as u64
            invariant_except_break
                blk == self.merged_blocks(),
                self.block_edges == old(self).block_edges,
                self.resolved.first_value == old(self).resolved.first_value,
                advance(self.merged(), self.edges(), up_to) == advance(
                    old(self).merged(),
                    old(self).edges(),
                    up_to,
                ),
                old(self).wf() ==> self.wf(),
            ensures
                self.block_edges == old(self).block_edges,
                self.resolved.first_value == old(self).resolved.first_value,
                self.merged() == advance(old(self).merged(), old(self).edges(), up_to),
                old(self).wf() ==> self.wf(),
            decreases up_to + 1 - blk,
        {
            let ghost before = *self;
            let index: u32 = blk as u32;
            match self.block_edges.get(&index) {
                None => {
                    assert(!self.edges().contains_key(index));
                    break;
                },
                Some(edges) => {
                    assert(self.edges().contains_key(index));
                    assert(self.edges()[index] == edges@);
                    let block_base: u64 = blk * SAMPLES_PER_BLOCK;
                    // A block whose first bit differs from what the previous block left
                    // gets a transition at its boundary. Block 0 is excluded: the channel's
                    // first value already records its first bit.
                    if blk > 0 && edges.first_value != self.tail_value {
                        self.resolved.transitions.push(block_base);
                    }
                    append_shifted(&mut self.resolved.transitions, &edges.transitions, block_base);
                    self.tail_value = flipped(edges.first_value, edges.transitions.len());
                    self.resolved_tail = Some(index);
                    proof {
                        let block = before.edges()[index];
                        assert(self.resolved.transitions@ =~= resolve_block(
                            before.merged(),
                            block,
                        ).transitions);
                        assert(self.merged() =~= resolve_block(
                            before.merged(),
                            before.edges()[index],
                        ));
                        if old(self).wf() {
                            assert(self.merged() == resolved_blocks(
                                self.edges(),
                                self.merged_blocks(),
                            ));
                        }
                    }
                },
            }
            blk = blk + 1;
        }
    }
}

/// Key of a block in the set of ingested blocks.
pub open spec fn key_of(channel_idx: u32, block_idx: u32) -> u64 {
    (channel_idx * 0x1_0000_0000 + block_idx) as u64
}

/// Key of a block in a set of blocks.
pub fn block_key(channel_idx: u32, block_idx: u32) -> (key: u64)
    ensures
        key == key_of(channel_idx, block_idx),
{
    channel_idx as u64 * 0x1_0000_0000 + block_idx as u64
}

/// Whether the edges are those of a block of at most `SAMPLES_PER_BLOCK` samples.
pub open spec fn block_shaped(e: EdgeModel) -> bool {
    &&& e.first_value <= 1
    &&& forall|i: int| 0 <= i < e.flips.len() ==> 0 < #[trigger] e.flips[i] < SAMPLES_PER_BLOCK
    &&& forall|i: int, j: int| 0 <= i < j < e.flips.len() ==> e.flips[i] < e.flips[j]
}

/// A raw block of at most `SAMPLES_PER_BLOCK` bits has edges of that shape.
pub proof fn lemma_edges_of(raw: Seq<u8>)
    ensures
        edges_of(raw).first_value <= 1,
        8 * raw.len() <= SAMPLES_PER_BLOCK ==> block_shaped(edges_of(raw)),
{
    blocks::lemma_raw_bit_range(raw, 0);
    if 8 * raw.len() <= SAMPLES_PER_BLOCK {
        blocks::lemma_flips_ascend(raw, 8 * raw.len() as int);
    }
}

/// The block that holds sample `s`, as a block index.
pub open spec fn block_of(s: u64) -> u32 {
    (s / SAMPLES_PER_BLOCK) as u32
}

/// Last block of a channel that the samples before `end` reach.
pub open spec fn last_block_of(end: u64, blocks_per_channel: u32) -> u32 {
    let block = (if end == 0 {
        0
    } else {
        end - 1
    }) / SAMPLES_PER_BLOCK as int;
    if block < blocks_per_channel - 1 {
        block as u32
    } else {
        (blocks_per_channel - 1) as u32
    }
}

/// The block indices from `first` to `last`.
pub open spec fn block_indices(first: u32, last: u32) -> Seq<u32> {
    Seq::new(
        if first <= last {
            (last - first + 1) as nat
        } else {
            0
        },
        |i: int| (first + i) as u32,
    )
}

/// Blocks `first` to `last` of one channel, behind its block 0.
pub open spec fn channel_plan(ch: u32, first: u32, last: u32) -> Seq<(u32, u32)> {
    seq![(ch, 0u32)] + Seq::new(
        if first <= last {
            (last - first + 1) as nat
        } else {
            0
        },
        |i: int| (ch, (first + i) as u32),
    )
}

/// Blocks `first` to `last` of the channels below `channels`, channel by channel.
pub open spec fn block_plan(channels: int, first: u32, last: u32) -> Seq<(u32, u32)>
    decreases channels,
{
    if channels <= 0 {
        Seq::empty()
    } else {
        block_plan(channels - 1, first, last) + channel_plan((channels - 1) as u32, first, last)
    }
}

/// A plan names channels below its bound alone.
pub proof fn lemma_plan_channels(channels: int, first: u32, last: u32, i: int)
    requires
        0 <= channels <= 0x1_0000_0000,
        0 <= i < block_plan(channels, first, last).len(),
    ensures
        block_plan(channels, first, last)[i].0 < channels,
    decreases channels,
{
    if channels > 0 {
        let shorter = block_plan(channels - 1, first, last);
        if i < shorter.len() {
            lemma_plan_channels(channels - 1, first, last, i);
        }
    }
}

/// First and last block of a viewport on [start, end).
pub fn block_span(start: u64, end: u64, blocks_per_channel: u32) -> (r: (u32, u32))
    requires
        blocks_per_channel > 0,
    ensures
        r.0 == block_of(start),
        r.1 == last_block_of(end, blocks_per_channel),
        r.1 < blocks_per_channel,
{
    let first_block: u32 = (start / SAMPLES_PER_BLOCK) as u32;
    let block: u64 = end.saturating_sub(1) / SAMPLES_PER_BLOCK;
    let limit: u64 = blocks_per_channel as u64 - 1;
    let last_block: u32 = if block < limit {
        block as u32
    } else {
        limit as u32
    };
    (first_block, last_block)
}

/// Level at offset `off` of a block with the given edges.
pub open spec fn block_level(e: EdgeModel, off: int) -> int {
    signal::level(e.first_value, shifted(e.flips, 0), off)
}

/// Counting offsets below a bound does not depend on where the block starts.
proof fn lemma_count_shifted(offsets: Seq<u32>, base: int, bound: int)
    requires
        0 <= base <= 0x1_0000_0000 * SAMPLES_PER_BLOCK,
    ensures
        signal::count_below(shifted(offsets, base), base + bound) == signal::count_below(
            shifted(offsets, 0),
            bound,
        ),
    decreases offsets.len(),
{
    if offsets.len() > 0 {
        lemma_count_shifted(offsets.drop_last(), base, bound);
        assert(shifted(offsets, base).drop_last() =~= shifted(offsets.drop_last(), base));
        assert(shifted(offsets, 0).drop_last() =~= shifted(offsets.drop_last(), 0));
    }
}

/// The flips of the first `n` bits of a raw block give back each of those bits.
proof fn lemma_flips_read_back(raw: Seq<u8>, n: int, off: int)
    requires
        0 <= off < n <= 0x1_0000_0000,
    ensures
        signal::level(blocks::raw_bit(raw, 0), shifted(blocks::flips(raw, n), 0), off)
            == blocks::raw_bit(raw, off),
    decreases n,
{
    let all = blocks::flips(raw, n);
    blocks::lemma_flips_ascend(raw, n);
    blocks::lemma_raw_bit_range(raw, off);
    blocks::lemma_raw_bit_range(raw, 0);
    if n > 1 {
        let shorter = blocks::flips(raw, n - 1);
        blocks::lemma_flips_ascend(raw, n - 1);
        blocks::lemma_raw_bit_range(raw, n - 2);
        if all.len() != shorter.len() {
            assert(shifted(all, 0).drop_last() =~= shifted(shorter, 0));
        }
        if off < n - 1 {
            lemma_flips_read_back(raw, n - 1, off);
        } else {
            lemma_flips_read_back(raw, n - 1, n - 2);
            signal::lemma_count_below_split(shifted(shorter, 0), n as int, shorter.len() as int);
            signal::lemma_count_below_split(shifted(shorter, 0), n - 1, shorter.len() as int);
        }
    } else {
        assert(shifted(all, 0) =~= Seq::<u64>::empty());
    }
}

/// The edges of a raw block give back each of its bits.
pub proof fn law_block_read_back(raw: Seq<u8>, off: int)
    requires
        blocks::indexable(raw),
        0 <= off < 8 * raw.len(),
    ensures
        block_level(edges_of(raw), off) == blocks::raw_bit(raw, off),
{
    let n = 8 * raw.len() as int;
    if n <= 0x1_0000_0000 {
        lemma_flips_read_back(raw, n, off);
    } else {
        let all = blocks::flips(raw, 0x1_0000_0000);
        blocks::lemma_flips_indexable(raw, n);
        blocks::lemma_flips_ascend(raw, 0x1_0000_0000);
        if off < 0x1_0000_0000 {
            lemma_flips_read_back(raw, 0x1_0000_0000, off);
        } else {
            lemma_flips_read_back(raw, 0x1_0000_0000, 0xFFFF_FFFF);
            assert(blocks::raw_bit(raw, off) == blocks::raw_bit(raw, 0xFFFF_FFFF));
            signal::lemma_count_below_split(shifted(all, 0), off + 1, all.len() as int);
            signal::lemma_count_below_split(shifted(all, 0), 0x1_0000_0000, all.len() as int);
        }
    }
}

/// Whether the first `n` blocks are there and none is longer than a full block.
pub open spec fn leading_blocks_shaped(edges: Map<u32, EdgeModel>, n: int) -> bool {
    forall|b: u32| b < n ==> block_shaped(#[trigger] edges[b])
}

/// Merging full-sized blocks gives strictly increasing transitions that stay
/// within the merged samples, and a tail value that matches them.
pub proof fn lemma_merged_ascends(edges: Map<u32, EdgeModel>, n: int)
    requires
        0 <= n <= 0x1_0000_0000,
        leading_blocks_shaped(edges, n),
    ensures
        resolved_blocks(edges, n).blocks == n,
        resolved_blocks(edges, n).tail_value <= 1,
        signal::ascending(resolved_blocks(edges, n).transitions),
        forall|i: int|
            0 <= i < resolved_blocks(edges, n).transitions.len()
                ==> #[trigger] resolved_blocks(edges, n).transitions[i] < n * SAMPLES_PER_BLOCK,
        n > 0 ==> (edges[0].first_value + resolved_blocks(edges, n).transitions.len()) % 2
            == resolved_blocks(edges, n).tail_value,
    decreases n,
{
    if n > 0 {
        lemma_merged_ascends(edges, n - 1);
        let before = resolved_blocks(edges, n - 1);
        let e = edges[(n - 1) as u32];
        assert(block_shaped(e));
        let after = resolved_blocks(edges, n);
        assert(after == resolve_block(before, e));
        let base = (n - 1) * SAMPLES_PER_BLOCK;
        let split = after.transitions.len() - e.flips.len();
        assert forall|i: int| 0 <= i < after.transitions.len() implies {
            &&& i < before.transitions.len() ==> after.transitions[i] == before.transitions[i]
                && after.transitions[i] < base
            &&& before.transitions.len() <= i < split ==> after.transitions[i] == base
            &&& split <= i ==> after.transitions[i] == base + e.flips[i - split]
            &&& #[trigger] after.transitions[i] < n * SAMPLES_PER_BLOCK
        } by {}
        assert forall|i: int, j: int|
            0 <= i < j < after.transitions.len() implies after.transitions[i]
            < after.transitions[j] by {
            if j < before.transitions.len() {
                assert(before.transitions[i] < before.transitions[j]);
            } else if i >= split {
                assert(e.flips[i - split] < e.flips[j - split]);
            }
        }
        if n == 1 {
            assert(edges[(n - 1) as u32] == edges[0]);
        }
    }
}

/// A merged channel reads, within each merged block, as that block reads.
pub proof fn lemma_merged_reads_blocks(edges: Map<u32, EdgeModel>, n: int, b: u32, off: int)
    requires
        0 <= b < n <= 0x1_0000_0000,
        leading_blocks_shaped(edges, n),
        0 <= off < SAMPLES_PER_BLOCK,
    ensures
        signal::level(
            edges[0].first_value,
            resolved_blocks(edges, n).transitions,
            b * SAMPLES_PER_BLOCK + off,
        ) == block_level(edges[b], off),
    decreases n,
{
    lemma_merged_ascends(edges, n - 1);
    let before = resolved_blocks(edges, n - 1);
    let e = edges[(n - 1) as u32];
    assert(block_shaped(e));
    let base = (n - 1) * SAMPLES_PER_BLOCK;
    let boundary = if n - 1 > 0 && e.first_value != before.tail_value {
        seq![base as u64]
    } else {
        Seq::empty()
    };
    let own = shifted(e.flips, base);
    let s = b * SAMPLES_PER_BLOCK + off;
    let bound = s + 1;
    assert(resolved_blocks(edges, n).transitions == before.transitions + boundary + own);
    signal::lemma_count_below_concat(before.transitions + boundary, own, bound);
    signal::lemma_count_below_concat(before.transitions, boundary, bound);
    if b < n - 1 {
        lemma_merged_reads_blocks(edges, n - 1, b, off);
        assert(bound <= base) by (nonlinear_arith)
            requires
                b < n - 1,
                off < SAMPLES_PER_BLOCK,
                bound == b * SAMPLES_PER_BLOCK + off + 1,
                base == (n - 1) * SAMPLES_PER_BLOCK,
        ;
        signal::lemma_count_below_split(own, bound, 0);
        signal::lemma_count_below_split(boundary, bound, 0);
    } else {
        assert(s == base + off);
        signal::lemma_count_below_split(
            before.transitions,
            bound,
            before.transitions.len() as int,
        );
        signal::lemma_count_below_split(boundary, bound, boundary.len() as int);
        lemma_count_shifted(e.flips, base, off + 1);
        if n == 1 {
            assert(edges[(n - 1) as u32] == edges[0]);
        }
    }
}

/// What a store holds of one channel.
#[verifier::ext_equal]
pub struct ChannelModel {
    pub first_value: u8,
    pub edges: Map<u32, EdgeModel>,
    pub merged: ResolvedModel,
}

/// A channel of which nothing has been ingested.
pub open spec fn empty_channel() -> ChannelModel {
    ChannelModel { first_value: 0, edges: Map::empty(), merged: unresolved() }
}

/// Channels after a block has come in. A block that is already there changes nothing.
pub open spec fn with_block(
    channels: Seq<ChannelModel>,
    channel_idx: u32,
    block_idx: u32,
    raw: Seq<u8>,
) -> Seq<ChannelModel> {
    let c = channels[channel_idx as int];
    let edges = c.edges.insert(block_idx, edges_of(raw));
    if c.edges.contains_key(block_idx) {
        channels
    } else {
        channels.update(
            channel_idx as int,
            ChannelModel {
                first_value: if block_idx == 0 {
                    blocks::raw_first_value(raw)
                } else {
                    c.first_value
                },
                edges,
                merged: advance(c.merged, edges, block_idx),
            },
        )
    }
}

/// Channels after the block has been looked up in an archive. A block that is
/// missing there, or flips where its bits can no longer be indexed, changes nothing.
pub open spec fn with_loaded(
    channels: Seq<ChannelModel>,
    entries: Seq<EntryModel>,
    channel_idx: u32,
    block_idx: u32,
) -> Seq<ChannelModel> {
    match source::block_data(entries, channel_idx, block_idx) {
        Some(raw) => if blocks::indexable(raw) {
            with_block(channels, channel_idx, block_idx, raw)
        } else {
            channels
        },
        None => channels,
    }
}

/// Channels after the blocks of a plan have been looked up in an archive, in order.
pub open spec fn with_plan(
    channels: Seq<ChannelModel>,
    entries: Seq<EntryModel>,
    plan: Seq<(u32, u32)>,
) -> Seq<ChannelModel>
    decreases plan.len(),
{
    if plan.len() == 0 {
        channels
    } else {
        with_loaded(
            with_plan(channels, entries, plan.drop_last()),
            entries,
            plan.last().0,
            plan.last().1,
        )
    }
}

/// Whether no block of an archive is longer than a full block.
pub open spec fn blocks_sized(entries: Seq<EntryModel>) -> bool {
    forall|ch: u32, blk: u32| #[trigger]
        source::block_data(entries, ch, blk) matches Some(raw) ==> 8 * raw.len()
            <= SAMPLES_PER_BLOCK
}

/// What came of a request to load a block.
#[derive(Clone, Copy, PartialEq, Eq, Debug, Structural)]
pub enum Loaded {
    /// The block was there already.
    Before,
    /// The block has been ingested.
    Now,
    /// The archive does not hold the block.
    Missing,
    /// The block flips where its bits can no longer be indexed.
    TooLong,
}

/// Recorded channels, block by block as they are ingested.
pub struct EdgeStore {
    /// Per-channel ingestion state and resolved data.
    pub channels: Vec<ChannelData>,
    /// first_value for each channel (value at sample 0, before block 0 is resolved).
    pub channel_first_values: Vec<u8>,
    /// Which (channel, block) pairs have been ingested, by key.
    pub ingested: HashSet<u64>,
    pub num_channels: u32,
    pub blocks_per_channel: u32,
    pub total_samples: u64,
}

impl EdgeStore {
    /// Whether a channel is merged from its blocks and starts as its block 0 does.
    pub open spec fn channel_wf(&self, ch: int) -> bool {
        &&& self.channels@[ch].wf()
        &&& self.channel_first_values@[ch] <= 1
        &&& self.channels@[ch].edges().contains_key(0) ==> self.channel_first_values@[ch]
            == self.channels@[ch].edges()[0].first_value
        &&& !self.channels@[ch].edges().contains_key(0) ==> self.channel_first_values@[ch] == 0
    }

    /// Whether the set of ingested blocks lists the blocks that the channels hold.
    pub open spec fn ingested_wf(&self) -> bool {
        forall|ch: u32, blk: u32| #[trigger]
            self.holds(ch, blk) <==> ch < self.num_channels
                && self.channels@[ch as int].edges().contains_key(blk)
    }

    /// Whether the parts of the store agree with each other.
    pub open spec fn wf(&self) -> bool {
        &&& self.channels@.len() == self.num_channels
        &&& self.channel_first_values@.len() == self.num_channels
        &&& forall|ch: int| 0 <= ch < self.num_channels ==> #[trigger] self.channel_wf(ch)
        &&& self.ingested_wf()
    }

    /// Whether the block has been ingested.
    pub open spec fn holds(&self, channel_idx: u32, block_idx: u32) -> bool {
        self.ingested@.contains(key_of(channel_idx, block_idx))
    }

    /// Whether no ingested block is longer than a full block.
    pub open spec fn sized(&self) -> bool {
        forall|ch: int, blk: u32|
            0 <= ch < self.channels@.len() && self.channels@[ch].edges().contains_key(blk)
                ==> block_shaped(#[trigger] self.channels@[ch].edges()[blk])
    }

    /// Level of a channel at sample 0, as far as it is known.
    pub open spec fn first_value(&self, ch: int) -> u8 {
        self.channel_first_values@[ch]
    }

    /// Merged transitions of a channel.
    pub open spec fn transitions(&self, ch: int) -> Seq<u64> {
        self.channels@[ch].resolved.transitions@
    }

    /// What the store holds of its channels.
    pub open spec fn model(&self) -> Seq<ChannelModel> {
        Seq::new(
            self.num_channels as nat,
            |ch: int|
                ChannelModel {
                    first_value: self.channel_first_values@[ch],
                    edges: self.channels@[ch].edges(),
                    merged: self.channels@[ch].merged(),
                },
        )
    }

    /// A store of which no block has been ingested.
    pub fn new(num_channels: u32, blocks_per_channel: u32, total_samples: u64) -> (store: Self)
        ensures
            store.wf(),
            store.sized(),
            store.num_channels == num_channels,
            store.blocks_per_channel == blocks_per_channel,
            store.total_samples == total_samples,
            store.ingested@ == Set::<u64>::empty(),
            store.model() == Seq::new(num_channels as nat, |ch: int| empty_channel()),
    {
        let mut channels: Vec<ChannelData> = Vec::new();
        let mut channel_first_values: Vec<u8> = Vec::new();
        let mut ch: u32 = 0;
        while ch < num_channels
            invariant
                ch <= num_channels,
                channels@.len() == ch,
                channel_first_values@.len() == ch,
                forall|i: int|
                    0 <= i < ch ==> {
                        &&& (#[trigger] channels@[i]).wf()
                        &&& channels@[i].merged() == unresolved()
                        &&& channels@[i].edges() == Map::<u32, EdgeModel>::empty()
                        &&& channel_first_values@[i] == 0
                    },
            decreases num_channels - ch,
        {
            channels.push(ChannelData::new());
            channel_first_values.push(0);
            ch = ch + 1;
        }
        let store = EdgeStore {
            channels,
            channel_first_values,
            ingested: HashSet::new(),
            num_channels,
            blocks_per_channel,
            total_samples,
        };
        assert forall|c: u32, blk: u32| #[trigger] store.holds(c, blk) <==> c < store.num_channels
            && store.channels@[c as int].edges().contains_key(blk) by {
            if c < store.num_channels {
                assert(store.channels@[c as int].edges() == Map::<u32, EdgeModel>::empty());
            }
        }
        assert forall|c: int| 0 <= c < store.num_channels implies #[trigger] store.channel_wf(c) by {
            assert(store.channels@[c].wf());
        }
        assert(store.model() =~= Seq::new(num_channels as nat, |ch: int| empty_channel()));
        store
    }

    /// Opens a capture file: an empty store, and the source of its blocks.
    pub fn open(
        bytes: Vec<u8>,
        num_channels: u32,
        blocks_per_channel: u32,
        total_samples: u64,
    ) -> (r: Result<(Self, BlockSource), String>)
        ensures
            match archive::zip_listing(bytes@) {
                Err(m) => r matches Err(e) && e@ == m,
                Ok(entries) => match source::first_fault(entries) {
                    Some(m) => r matches Err(e) && e@ == m,
                    None => r matches Ok((store, source)) && {
                        &&& source.wf()
                        &&& source.entries() == entries
                        &&& store.wf()
                        &&& store.sized()
                        &&& store.num_channels == num_channels
                        &&& store.blocks_per_channel == blocks_per_channel
                        &&& store.total_samples == total_samples
                        &&& store.ingested@ == Set::<u64>::empty()
                        &&& store.model() == Seq::new(
                            num_channels as nat,
                            |ch: int| empty_channel(),
                        )
                    },
                },
            },
    {
        match BlockSource::open(bytes) {
            Ok(source) => Ok(
                (EdgeStore::new(num_channels, blocks_per_channel, total_samples), source),
            ),
            Err(e) => Err(e),
        }
    }

    /// Takes in the raw bytes of a block, unless the block has been ingested before.
    pub fn apply_loaded(&mut self, channel_idx: u32, block_idx: u32, raw: &[u8])
        requires
            old(self).wf(),
            channel_idx < old(self).num_channels,
            blocks::indexable(raw@),
        ensures
            final(self).wf(),
            old(self).sized() && 8 * raw@.len() <= SAMPLES_PER_BLOCK ==> final(self).sized(),
            final(self).model() == with_block(old(self).model(), channel_idx, block_idx, raw@),
            final(self).ingested@ == old(self).ingested@.insert(key_of(channel_idx, block_idx)),
            final(self).num_channels == old(self).num_channels,
            final(self).blocks_per_channel == old(self).blocks_per_channel,
            final(self).total_samples == old(self).total_samples,
    {
        let key: u64 = block_key(channel_idx, block_idx);
        if self.ingested.contains(&key) {
            assert(self.holds(channel_idx, block_idx));
            assert(self.ingested@ =~= self.ingested@.insert(key));
            return;
        }
        let ghost before = *self;
        let ch: usize = channel_idx as usize;
        if block_idx == 0 && raw.len() > 0 {
            self.channel_first_values[ch] = raw[0] & 1;
            proof {
                let b = raw@[0];
                assert((b >> 0u8) & 1 == b & 1) by (bit_vector);
            }
        }
        self.channels[ch].ingest_raw(block_idx, raw);
        self.ingested.insert(key);
        proof {
            lemma_edges_of(raw@);
            assert(!before.holds(channel_idx, block_idx));
            assert(!before.channels@[ch as int].edges().contains_key(block_idx));
            assert(before.channel_wf(ch as int));
            assert forall|c: u32, blk: u32| #[trigger] self.holds(c, blk) <==> c
                < self.num_channels && self.channels@[c as int].edges().contains_key(blk) by {
                assert(before.holds(c, blk) <==> c < before.num_channels
                    && before.channels@[c as int].edges().contains_key(blk));
            }
            assert forall|c: int| 0 <= c < self.num_channels implies #[trigger] self.channel_wf(
                c,
            ) by {
                assert(before.channel_wf(c));
            }
            if before.sized() && 8 * raw@.len() <= SAMPLES_PER_BLOCK {
                assert forall|c: int, blk: u32|
                    0 <= c < self.channels@.len() && self.channels@[c].edges().contains_key(
                        blk,
                    ) implies block_shaped(#[trigger] self.channels@[c].edges()[blk]) by {
                    if c != ch || blk != block_idx {
                        assert(before.channels@[c].edges().contains_key(blk));
                        assert(block_shaped(before.channels@[c].edges()[blk]));
                    }
                }
            }
            assert(self.model() =~= with_block(before.model(), channel_idx, block_idx, raw@));
        }
    }

    /// Reads a block from its archive and ingests it, unless it has been
    /// ingested before.
    pub fn ingest_block(
        &mut self,
        source: &mut BlockSource,
        channel_idx: u32,
        block_idx: u32,
    ) -> (outcome: Loaded)
        requires
            old(self).wf(),
            old(source).wf(),
            channel_idx < old(self).num_channels || source::block_data(
                old(source).entries(),
                channel_idx,
                block_idx,
            ) is None,
        ensures
            final(self).wf(),
            final(source).wf(),
            final(source).entries() == old(source).entries(),
            final(self).model() == with_loaded(
                old(self).model(),
                old(source).entries(),
                channel_idx,
                block_idx,
            ),
            outcome is Before <==> old(self).holds(channel_idx, block_idx),
            outcome is Now <==> final(self).holds(channel_idx, block_idx) && !old(self).holds(
                channel_idx,
                block_idx,
            ),
            outcome is Missing <==> !old(self).holds(channel_idx, block_idx)
                && source::block_data(old(source).entries(), channel_idx, block_idx) is None,
            outcome is TooLong <==> !old(self).holds(channel_idx, block_idx) && (match
                source::block_data(old(source).entries(), channel_idx, block_idx) {
                Some(raw) => !blocks::indexable(raw),
                None => false,
            }),
            old(self).sized() && blocks_sized(old(source).entries()) ==> final(self).sized(),
            final(self).num_channels == old(self).num_channels,
            final(self).blocks_per_channel == old(self).blocks_per_channel,
            final(self).total_samples == old(self).total_samples,
    {
        if self.is_block_ingested(channel_idx, block_idx) {
            assert(self.model() =~= with_loaded(
                self.model(),
                source.entries(),
                channel_idx,
                block_idx,
            ));
            return Loaded::Before;
        }
        match source.read_block(channel_idx, block_idx) {
            None => Loaded::Missing,
            Some(raw) => {
                if !offsets_fit(raw.as_slice()) {
                    return Loaded::TooLong;
                }
                self.apply_loaded(channel_idx, block_idx, raw.as_slice());
                Loaded::Now
            },
        }
    }

    pub fn is_block_ingested(&self, channel_idx: u32, block_idx: u32) -> (b: bool)
        ensures
            b == self.holds(channel_idx, block_idx),
    {
        self.ingested.contains(&block_key(channel_idx, block_idx))
    }

    /// The resolved data of a channel, with its true first value.
    pub fn channel(&self, channel_idx: u32) -> (view: ChannelView<'_>)
        requires
            channel_idx < self.channels@.len(),
            channel_idx < self.channel_first_values@.len(),
        ensures
            view.first_value == self.first_value(channel_idx as int),
            view.transitions@ == self.transitions(channel_idx as int),
    {
        let data = &self.channels[channel_idx as usize];
        ChannelView {
            first_value: self.channel_first_values[channel_idx as usize],
            transitions: data.resolved.transitions.as_slice(),
        }
    }

    /// The blocks to ingest, in this order, so that the sample range [start, end)
    /// is there for all channels. Block 0 of each channel comes first: without it
    /// the channel's first value is unknown.
    pub fn range_plan(&self, start: u64, end: u64) -> (plan: Vec<(u32, u32)>)
        requires
            self.blocks_per_channel > 0,
        ensures
            plan@ == block_plan(
                self.num_channels as int,
                block_of(start),
                last_block_of(end, self.blocks_per_channel),
            ),
    {
        let (first_block, last_block) = block_span(start, end, self.blocks_per_channel);
        let mut plan: Vec<(u32, u32)> = Vec::new();
        let mut ch: u32 = 0;
        while ch < self.num_channels
            invariant
                ch <= self.num_channels,
                plan@ == block_plan(ch as int, first_block, last_block),
            decreases self.num_channels - ch,
        {
            let ghost before = plan@;
            plan.push((ch, 0));
            let mut blk: u64 = first_block as u64;
            assert(plan@ =~= before + seq![(ch, 0u32)] + Seq::new(
                0,
                |i: int| (ch, (first_block + i) as u32),
            ));
            while blk <= last_block as u64
                invariant
                    first_block <= blk,
                    blk <= last_block + 1 || blk == first_block,
                    plan@ == before + seq![(ch, 0u32)] + Seq::new(
                        (blk - first_block) as nat,
                        |i: int| (ch, (first_block + i) as u32),
                    ),
                decreases last_block + 1 - blk,
            {
                plan.push((ch, blk as u32));
                blk = blk + 1;
                assert(plan@ =~= before + seq![(ch, 0u32)] + Seq::new(
                    (blk - first_block) as nat,
                    |i: int| (ch, (first_block + i) as u32),
                ));
            }
            assert(plan@ =~= before + channel_plan(ch, first_block, last_block));
            ch = ch + 1;
        }
        plan
    }

    /// Ensure all blocks covering sample range [start, end) are ingested for all channels.
    pub fn ensure_range(&mut self, source: &mut BlockSource, start: u64, end: u64)
        requires
            old(self).wf(),
            old(source).wf(),
            old(self).blocks_per_channel > 0,
        ensures
            final(self).wf(),
            final(source).wf(),
            final(source).entries() == old(source).entries(),
            final(self).model() == with_plan(
                old(self).model(),
                old(source).entries(),
                block_plan(
                    old(self).num_channels as int,
                    block_of(start),
                    last_block_of(end, old(self).blocks_per_channel),
                ),
            ),
            old(self).sized() && blocks_sized(old(source).entries()) ==> final(self).sized(),
            final(self).num_channels == old(self).num_channels,
            final(self).blocks_per_channel == old(self).blocks_per_channel,
            final(self).total_samples == old(self).total_samples,
    {
        let plan: Vec<(u32, u32)> = self.range_plan(start, end);
        let ghost entries = source.entries();
        let ghost before = self.model();
        let mut i: usize = 0;
        assert(plan@.take(0) =~= Seq::<(u32, u32)>::empty());
        while i < plan.len()
            invariant
                i <= plan@.len(),
                self.wf(),
                source.wf(),
                source.entries() == entries,
                self.num_channels == old(self).num_channels,
                self.blocks_per_channel == old(self).blocks_per_channel,
                self.total_samples == old(self).total_samples,
                self.model() == with_plan(before, entries, plan@.take(i as int)),
                old(self).sized() && blocks_sized(entries) ==> self.sized(),
                plan@ == block_plan(
                    old(self).num_channels as int,
                    block_of(start),
                    last_block_of(end, old(self).blocks_per_channel),
                ),
            decreases plan@.len() - i,
        {
            let pair: (u32, u32) = plan[i];
            proof {
                assert(plan@.take(i + 1).drop_last() =~= plan@.take(i as int));
                lemma_plan_channels(
                    self.num_channels as int,
                    block_of(start),
                    last_block_of(end, self.blocks_per_channel),
                    i as int,
                );
            }
            self.ingest_block(source, pair.0, pair.1);
            i = i + 1;
        }
        assert(plan@.take(i as int) =~= plan@);
    }

    /// Indices of the blocks that the sample range [start, end) touches.
    pub fn blocks_for_range(start: u64, end: u64) -> (blocks: Vec<u32>)
        ensures
            blocks@ == block_indices(
                block_of(start),
                block_of(if end == 0 {
                    0
                } else {
                    (end - 1) as u64
                }),
            ),
    {
        let first: u32 = (start / SAMPLES_PER_BLOCK) as u32;
        let last: u32 = (end.saturating_sub(1) / SAMPLES_PER_BLOCK) as u32;
        let mut blocks: Vec<u32> = Vec::new();
        let mut blk: u64 = first as u64;
        while blk <= last as u64
            invariant
                first <= blk,
                blk <= last + 1 || blk == first,
                blocks@ == Seq::new((blk - first) as nat, |i: int| (first + i) as u32),
            decreases last + 1 - blk,
        {
            blocks.push(blk as u32);
            blk = blk + 1;
            assert(blocks@ =~= Seq::new((blk - first) as nat, |i: int| (first + i) as u32));
        }
        assert(blocks@ =~= block_indices(first, last));
        blocks
    }
}

/// Merging more blocks keeps what was merged before.
pub proof fn law_merge_extends(m: ResolvedModel, edges: Map<u32, EdgeModel>, up_to: u32)
    ensures
        advance(m, edges, up_to).blocks >= m.blocks,
        advance(m, edges, up_to).transitions.len() >= m.transitions.len(),
        advance(m, edges, up_to).transitions.take(m.transitions.len() as int) == m.transitions,
    decreases up_to + 1 - m.blocks,
{
    if 0 <= m.blocks <= up_to && edges.contains_key(m.blocks as u32) {
        let next = resolve_block(m, edges[m.blocks as u32]);
        law_merge_extends(next, edges, up_to);
        let end = advance(next, edges, up_to).transitions;
        assert(end.take(m.transitions.len() as int) =~= end.take(
            next.transitions.len() as int,
        ).take(m.transitions.len() as int));
        assert(next.transitions.take(m.transitions.len() as int) =~= m.transitions);
    } else {
        assert(m.transitions.take(m.transitions.len() as int) =~= m.transitions);
    }
}

/// A block that comes in when all blocks before it are merged is merged at once.
pub proof fn law_next_block_is_merged(
    channels: Seq<ChannelModel>,
    ch: u32,
    blk: u32,
    raw: Seq<u8>,
)
    requires
        ch < channels.len(),
        channels[ch as int].merged.blocks == blk,
        !channels[ch as int].edges.contains_key(blk),
    ensures
        with_block(channels, ch, blk, raw)[ch as int].merged.blocks == blk + 1,
        with_block(channels, ch, blk, raw)[ch as int].edges[blk] == edges_of(raw),
{
    let c = channels[ch as int];
    let edges = c.edges.insert(blk, edges_of(raw));
    let next = resolve_block(c.merged, edges[blk]);
    assert(advance(c.merged, edges, blk) == advance(next, edges, blk));
    assert(advance(next, edges, blk) == next);
}

/// Merging goes exactly as far as blocks are there without a gap, and no
/// further than asked.
pub proof fn law_merge_stops_at_gap(m: ResolvedModel, edges: Map<u32, EdgeModel>, up_to: u32)
    requires
        0 <= m.blocks,
    ensures
        forall|b: u32|
            m.blocks <= b < advance(m, edges, up_to).blocks ==> #[trigger] edges.contains_key(b),
        advance(m, edges, up_to).blocks > up_to || !edges.contains_key(
            advance(m, edges, up_to).blocks as u32,
        ),
        advance(m, edges, up_to).blocks <= up_to + 1 || advance(m, edges, up_to) == m,
    decreases up_to + 1 - m.blocks,
{
    if 0 <= m.blocks <= up_to && edges.contains_key(m.blocks as u32) {
        law_merge_stops_at_gap(resolve_block(m, edges[m.blocks as u32]), edges, up_to);
    }
}

/// Edges and merged state of a channel after a raw block has been ingested.
pub open spec fn with_raw(
    channel: (Map<u32, EdgeModel>, ResolvedModel),
    block_idx: u32,
    raw: Seq<u8>,
) -> (Map<u32, EdgeModel>, ResolvedModel) {
    let edges = channel.0.insert(block_idx, edges_of(raw));
    (edges, advance(channel.1, edges, block_idx))
}

/// Edges and merged state of a channel after the blocks have been ingested in
/// the given order. Block `b` holds `raws[b]`.
pub open spec fn ingested(order: Seq<u32>, raws: Seq<Seq<u8>>) -> (
    Map<u32, EdgeModel>,
    ResolvedModel,
)
    decreases order.len(),
{
    if order.len() == 0 {
        (Map::empty(), unresolved())
    } else {
        with_raw(ingested(order.drop_last(), raws), order.last(), raws[order.last() as int])
    }
}

/// The blocks 0 to `n` in turn.
pub open spec fn in_turn(n: u32) -> Seq<u32> {
    Seq::new((n + 1) as nat, |i: int| i as u32)
}

/// Whether an order names each of the blocks 0 to `n` once, and `n` last.
pub open spec fn ends_with_block(order: Seq<u32>, n: u32) -> bool {
    &&& order.no_duplicates()
    &&& forall|b: u32| #[trigger] order.contains(b) <==> b <= n
    &&& order.len() > 0
    &&& order.last() == n
}

/// Merging from what is merged of the leading blocks gives the merge of more of them.
proof fn lemma_advance_resolves(m: ResolvedModel, edges: Map<u32, EdgeModel>, up_to: u32)
    requires
        0 <= m.blocks,
        m == resolved_blocks(edges, m.blocks),
    ensures
        advance(m, edges, up_to) == resolved_blocks(edges, advance(m, edges, up_to).blocks),
    decreases up_to + 1 - m.blocks,
{
    if m.blocks <= up_to && edges.contains_key(m.blocks as u32) {
        let next = resolve_block(m, edges[m.blocks as u32]);
        assert(next == resolved_blocks(edges, next.blocks));
        lemma_advance_resolves(next, edges, up_to);
    }
}

/// Blocks that are ingested once each are there as they are, and the leading
/// ones are merged.
proof fn lemma_ingested(order: Seq<u32>, raws: Seq<Seq<u8>>)
    requires
        order.no_duplicates(),
    ensures
        forall|b: u32| #[trigger] ingested(order, raws).0.contains_key(b) <==> order.contains(b),
        forall|b: u32|
            order.contains(b) ==> #[trigger] ingested(order, raws).0[b] == edges_of(
                raws[b as int],
            ),
        0 <= ingested(order, raws).1.blocks <= 0x1_0000_0000,
        forall|b: u32|
            b < ingested(order, raws).1.blocks ==> #[trigger] ingested(order, raws).0.contains_key(
                b,
            ),
        ingested(order, raws).1 == resolved_blocks(
            ingested(order, raws).0,
            ingested(order, raws).1.blocks,
        ),
    decreases order.len(),
{
    if order.len() > 0 {
        let shorter = order.drop_last();
        let blk = order.last();
        lemma_ingested(shorter, raws);
        let (before, m) = ingested(shorter, raws);
        let (after, merged) = ingested(order, raws);
        assert(!shorter.contains(blk)) by {
            if shorter.contains(blk) {
                let i = shorter.index_of(blk);
                assert(order[i] == order[order.len() - 1]);
            }
        }
        assert(!before.contains_key(blk));
        assert(after == before.insert(blk, edges_of(raws[blk as int])));
        assert forall|b: u32| #[trigger] after.contains_key(b) <==> order.contains(b) by {
            assert(before.contains_key(b) <==> shorter.contains(b));
            if shorter.contains(b) {
                assert(order[shorter.index_of(b)] == b);
            }
            if b == blk {
                assert(order[order.len() - 1] == b);
            }
            if order.contains(b) && b != blk {
                assert(shorter[order.index_of(b)] == b);
            }
        }
        assert forall|b: u32| order.contains(b) implies #[trigger] after[b] == edges_of(
            raws[b as int],
        ) by {
            if b != blk {
                assert(shorter[order.index_of(b)] == b);
                assert(before[b] == edges_of(raws[b as int]));
            }
        }
        assert forall|b: u32| b < m.blocks implies before[b] == after[b] by {
            assert(before.contains_key(b));
        }
        lemma_resolved_blocks_frame(before, after, m.blocks);
        lemma_advance_resolves(m, after, blk);
        law_merge_stops_at_gap(m, after, blk);
        law_merge_extends(m, after, blk);
        assert forall|b: u32| b < merged.blocks implies #[trigger] after.contains_key(b) by {
            if b < m.blocks {
                assert(before.contains_key(b));
            }
        }
    }
}

/// All blocks 0 to `n`, each ingested once and block `n` last, are there and merged.
proof fn lemma_all_ingested(order: Seq<u32>, raws: Seq<Seq<u8>>, n: u32)
    requires
        ends_with_block(order, n),
    ensures
        ingested(order, raws).0 == Map::new(
            |b: u32| b <= n,
            |b: u32| edges_of(raws[b as int]),
        ),
        ingested(order, raws).1 == resolved_blocks(ingested(order, raws).0, n + 1),
        ingested(order, raws).1.blocks == n + 1,
{
    lemma_ingested(order, raws);
    let shorter = order.drop_last();
    lemma_ingested(shorter, raws);
    let (before, m) = ingested(shorter, raws);
    let (after, merged) = ingested(order, raws);
    assert(!shorter.contains(n)) by {
        if shorter.contains(n) {
            let i = shorter.index_of(n);
            assert(order[i] == order[order.len() - 1]);
        }
    }
    if m.blocks > n {
        assert(before.contains_key(n));
    }
    assert forall|b: u32| m.blocks <= b <= n implies #[trigger] after.contains_key(b) by {
        assert(order.contains(b));
    }
    law_merge_reaches(m, after, n);
    assert(after =~= Map::new(|b: u32| b <= n, |b: u32| edges_of(raws[b as int]))) by {
        assert forall|b: u32| #[trigger] after.contains_key(b) <==> b <= n by {
            assert(order.contains(b) <==> b <= n);
        }
        assert forall|b: u32| b <= n implies #[trigger] after[b] == edges_of(raws[b as int]) by {
            assert(order.contains(b));
        }
    }
}

/// The order in which blocks come in does not matter, as long as the last of
/// them comes last: the channel is merged as if they had come in turn.
pub proof fn law_ingest_order_does_not_matter(order: Seq<u32>, raws: Seq<Seq<u8>>, n: u32)
    requires
        ends_with_block(order, n),
    ensures
        ingested(order, raws) == ingested(in_turn(n), raws),
        ingested(order, raws).1.blocks == n + 1,
{
    let turn = in_turn(n);
    assert forall|b: u32| #[trigger] turn.contains(b) <==> b <= n by {
        if b <= n {
            assert(turn[b as int] == b);
        }
    }
    lemma_all_ingested(order, raws, n);
    lemma_all_ingested(turn, raws, n);
}

/// Where all blocks up to the one asked for are there, all of them are merged.
pub proof fn law_merge_reaches(m: ResolvedModel, edges: Map<u32, EdgeModel>, up_to: u32)
    requires
        0 <= m.blocks <= up_to + 1,
        forall|b: u32| m.blocks <= b <= up_to ==> #[trigger] edges.contains_key(b),
    ensures
        advance(m, edges, up_to).blocks == up_to + 1,
{
    law_merge_stops_at_gap(m, edges, up_to);
    if advance(m, edges, up_to).blocks <= up_to {
        law_merge_extends(m, edges, up_to);
        assert(edges.contains_key(advance(m, edges, up_to).blocks as u32));
    }
}

/// The merged blocks of a channel are there, none longer than a full block.
proof fn lemma_merged_shaped(store: EdgeStore, ch: int)
    requires
        store.wf(),
        store.sized(),
        0 <= ch < store.num_channels,
    ensures
        leading_blocks_shaped(
            store.channels@[ch].edges(),
            store.channels@[ch].merged_blocks(),
        ),
{
    assert(store.channel_wf(ch));
    let data = store.channels@[ch];
    assert forall|b: u32| b < data.merged_blocks() implies block_shaped(
        #[trigger] data.edges()[b],
    ) by {
        assert(data.edges().contains_key(b));
        assert(block_shaped(store.channels@[ch].edges()[b]));
    }
}

/// As long as no block is longer than a full block, the merged transitions of
/// every channel strictly increase.
pub proof fn law_transitions_ascend(store: EdgeStore, ch: int)
    requires
        store.wf(),
        store.sized(),
        0 <= ch < store.num_channels,
    ensures
        signal::ascending(store.transitions(ch)),
        signal::sorted(store.transitions(ch)),
{
    assert(store.channel_wf(ch));
    let data = store.channels@[ch];
    lemma_merged_shaped(store, ch);
    lemma_merged_ascends(data.edges(), data.merged_blocks());
    signal::lemma_ascending_sorted(store.transitions(ch));
}

/// No channel flips at sample 0: its first value is its level there.
pub proof fn lemma_transitions_positive(store: EdgeStore, ch: int)
    requires
        store.wf(),
        store.sized(),
        0 <= ch < store.num_channels,
    ensures
        forall|i: int|
            0 <= i < store.transitions(ch).len() ==> #[trigger] store.transitions(ch)[i] > 0,
{
    assert(store.channel_wf(ch));
    let data = store.channels@[ch];
    lemma_merged_shaped(store, ch);
    lemma_merged_positive(data.edges(), data.merged_blocks());
    let merged = resolved_blocks(data.edges(), data.merged_blocks());
    assert(store.transitions(ch) == merged.transitions);
    assert forall|i: int| 0 <= i < store.transitions(ch).len() implies #[trigger] store.transitions(
        ch,
    )[i] > 0 by {
        assert(merged.transitions[i] > 0);
    }
}

/// Merging full-sized blocks gives no transition at sample 0.
proof fn lemma_merged_positive(edges: Map<u32, EdgeModel>, n: int)
    requires
        0 <= n <= 0x1_0000_0000,
        leading_blocks_shaped(edges, n),
    ensures
        forall|i: int|
            0 <= i < resolved_blocks(edges, n).transitions.len()
                ==> #[trigger] resolved_blocks(edges, n).transitions[i] > 0,
    decreases n,
{
    if n > 0 {
        lemma_merged_positive(edges, n - 1);
        lemma_merged_ascends(edges, n - 1);
        let before = resolved_blocks(edges, n - 1);
        let e = edges[(n - 1) as u32];
        assert(block_shaped(e));
        let after = resolved_blocks(edges, n);
        assert(after == resolve_block(before, e));
        let base = (n - 1) * SAMPLES_PER_BLOCK;
        let split = after.transitions.len() - e.flips.len();
        assert forall|i: int| 0 <= i < after.transitions.len() implies
            #[trigger] after.transitions[i] > 0 by {
            if i < before.transitions.len() {
                assert(after.transitions[i] == before.transitions[i]);
            } else if i < split {
                assert(after.transitions[i] == base);
            } else {
                assert(after.transitions[i] == base + e.flips[i - split]);
            }
        }
    }
}

/// A merged channel gives back every bit of the raw blocks that it was merged
/// from: the level at sample `off` of block `blk` is bit `off` of that block.
pub proof fn law_read_back(store: EdgeStore, ch: int, blk: u32, raw: Seq<u8>, off: int)
    requires
        store.wf(),
        store.sized(),
        0 <= ch < store.num_channels,
        blk < store.channels@[ch].merged_blocks(),
        store.channels@[ch].edges()[blk] == edges_of(raw),
        8 * raw.len() <= SAMPLES_PER_BLOCK,
        0 <= off < 8 * raw.len(),
    ensures
        signal::level(
            store.first_value(ch),
            store.transitions(ch),
            blk * SAMPLES_PER_BLOCK + off,
        ) == blocks::raw_bit(raw, off),
{
    assert(store.channel_wf(ch));
    let data = store.channels@[ch];
    lemma_merged_shaped(store, ch);
    assert(data.edges().contains_key(0));
    lemma_merged_reads_blocks(data.edges(), data.merged_blocks(), blk, off);
    law_block_read_back(raw, off);
}

/// Position of channel `ch` in a plan, and that its own blocks follow there.
proof fn lemma_plan_holds_channel(channels: int, first: u32, last: u32, ch: u32, pair: (u32, u32))
    requires
        0 <= ch < channels,
        channel_plan(ch, first, last).contains(pair),
    ensures
        block_plan(channels, first, last).contains(pair),
    decreases channels,
{
    let shorter = block_plan(channels - 1, first, last);
    let own = channel_plan((channels - 1) as u32, first, last);
    let all = block_plan(channels, first, last);
    if ch == channels - 1 {
        let i = own.index_of(pair);
        assert(all[shorter.len() + i] == pair);
    } else {
        lemma_plan_holds_channel(channels - 1, first, last, ch, pair);
        let i = shorter.index_of(pair);
        assert(all[i] == pair);
    }
}

/// The plan for [start, end) lists, for every channel, block 0 and each block
/// of the recording that holds a sample of the range.
pub proof fn law_plan_covers_range(
    channels: u32,
    blocks_per_channel: u32,
    start: u64,
    end: u64,
    ch: u32,
    s: u64,
)
    requires
        ch < channels,
        blocks_per_channel > 0,
        start <= s < end,
        s / SAMPLES_PER_BLOCK < blocks_per_channel,
    ensures
        block_plan(
            channels as int,
            block_of(start),
            last_block_of(end, blocks_per_channel),
        ).contains((ch, 0u32)),
        block_plan(
            channels as int,
            block_of(start),
            last_block_of(end, blocks_per_channel),
        ).contains((ch, (s / SAMPLES_PER_BLOCK) as u32)),
{
    let first = block_of(start);
    let last = last_block_of(end, blocks_per_channel);
    let own = channel_plan(ch, first, last);
    let blk = s / SAMPLES_PER_BLOCK;
    assert(own[0] == (ch, 0u32));
    lemma_plan_holds_channel(channels as int, first, last, ch, (ch, 0u32));
    assert(first <= blk <= last);
    assert(own[1 + blk - first] == (ch, blk as u32));
    lemma_plan_holds_channel(channels as int, first, last, ch, (ch, blk as u32));
}

/// Loading blocks takes none away, and adds those of the plan that are in the archive.
proof fn lemma_plan_is_held(
    channels: Seq<ChannelModel>,
    entries: Seq<EntryModel>,
    plan: Seq<(u32, u32)>,
    ch: u32,
    blk: u32,
)
    requires
        ch < channels.len(),
        forall|i: int| 0 <= i < plan.len() ==> (#[trigger] plan[i]).0 < channels.len(),
    ensures
        with_plan(channels, entries, plan).len() == channels.len(),
        channels[ch as int].edges.contains_key(blk) ==> with_plan(
            channels,
            entries,
            plan,
        )[ch as int].edges.contains_key(blk),
        plan.contains((ch, blk)) && (source::block_data(entries, ch, blk) matches Some(raw)
            && blocks::indexable(raw)) ==> with_plan(
            channels,
            entries,
            plan,
        )[ch as int].edges.contains_key(blk),
    decreases plan.len(),
{
    if plan.len() > 0 {
        let shorter = plan.drop_last();
        assert(plan.last() == plan[plan.len() - 1]);
        lemma_plan_is_held(channels, entries, shorter, ch, blk);
        if plan.contains((ch, blk)) && plan.last() != (ch, blk) {
            let i = plan.index_of((ch, blk));
            assert(shorter[i] == (ch, blk));
        }
    }
}

/// When a range has been ensured, every block that holds a sample of it, for
/// every channel, is there, provided that the archive has it.
pub proof fn law_ensured_range_is_held(
    channels: Seq<ChannelModel>,
    entries: Seq<EntryModel>,
    blocks_per_channel: u32,
    start: u64,
    end: u64,
    ch: u32,
    s: u64,
)
    requires
        ch < channels.len() <= u32::MAX,
        blocks_per_channel > 0,
        start <= s < end,
        s / SAMPLES_PER_BLOCK < blocks_per_channel,
        source::block_data(entries, ch, (s / SAMPLES_PER_BLOCK) as u32) matches Some(raw)
            && blocks::indexable(raw),
    ensures
        with_plan(
            channels,
            entries,
            block_plan(
                channels.len() as int,
                block_of(start),
                last_block_of(end, blocks_per_channel),
            ),
        )[ch as int].edges.contains_key((s / SAMPLES_PER_BLOCK) as u32),
{
    let first = block_of(start);
    let last = last_block_of(end, blocks_per_channel);
    let plan = block_plan(channels.len() as int, first, last);
    assert forall|i: int| 0 <= i < plan.len() implies (#[trigger] plan[i]).0 < channels.len() by {
        lemma_plan_channels(channels.len() as int, first, last, i);
    }
    law_plan_covers_range(channels.len() as u32, blocks_per_channel, start, end, ch, s);
    lemma_plan_is_held(channels, entries, plan, ch, (s / SAMPLES_PER_BLOCK) as u32);
}

/// Whether an archive holds blocks 0 to `last` of a channel, none longer than a
/// full block.
pub open spec fn archive_complete(entries: Seq<EntryModel>, ch: u32, last: u32) -> bool {
    forall|b: u32|
        b <= last ==> (#[trigger] source::block_data(entries, ch, b) matches Some(raw) && 8
            * raw.len() <= SAMPLES_PER_BLOCK)
}

/// Raw bytes of a block, where the archive has it.
pub open spec fn raw_block(entries: Seq<EntryModel>, ch: u32, blk: u32) -> Seq<u8> {
    source::block_data(entries, ch, blk).unwrap()
}

/// Whether a channel consists of its first `n` blocks in an archive, all merged.
spec fn merged_through(c: ChannelModel, entries: Seq<EntryModel>, ch: u32, n: int) -> bool {
    &&& c.merged == resolved_blocks(c.edges, n)
    &&& c.merged.blocks == n
    &&& forall|b: u32| #[trigger] c.edges.contains_key(b) <==> b < n
    &&& forall|b: u32| b < n ==> #[trigger] c.edges[b] == edges_of(raw_block(entries, ch, b))
    &&& n > 0 ==> c.first_value == edges_of(raw_block(entries, ch, 0)).first_value
}

/// A plan in two parts is carried out one part after the other.
proof fn lemma_plan_concat(
    channels: Seq<ChannelModel>,
    entries: Seq<EntryModel>,
    a: Seq<(u32, u32)>,
    b: Seq<(u32, u32)>,
)
    ensures
        with_plan(channels, entries, a + b) == with_plan(
            with_plan(channels, entries, a),
            entries,
            b,
        ),
    decreases b.len(),
{
    if b.len() == 0 {
        assert(a + b =~= a);
    } else {
        assert((a + b).drop_last() =~= a + b.drop_last());
        lemma_plan_concat(channels, entries, a, b.drop_last());
    }
}

/// A plan leaves channels alone that it does not name.
proof fn lemma_plan_frame(
    channels: Seq<ChannelModel>,
    entries: Seq<EntryModel>,
    plan: Seq<(u32, u32)>,
    ch: u32,
)
    requires
        ch < channels.len(),
        forall|i: int|
            0 <= i < plan.len() ==> (#[trigger] plan[i]).0 < channels.len() && plan[i].0 != ch,
    ensures
        with_plan(channels, entries, plan).len() == channels.len(),
        with_plan(channels, entries, plan)[ch as int] == channels[ch as int],
    decreases plan.len(),
{
    if plan.len() > 0 {
        assert(plan.last() == plan[plan.len() - 1]);
        lemma_plan_frame(channels, entries, plan.drop_last(), ch);
    }
}

/// The next block of a channel is merged when it comes in.
proof fn lemma_merge_next(
    channels: Seq<ChannelModel>,
    entries: Seq<EntryModel>,
    ch: u32,
    n: u32,
    last: u32,
)
    requires
        ch < channels.len(),
        n <= last,
        archive_complete(entries, ch, last),
        merged_through(channels[ch as int], entries, ch, n as int),
    ensures
        merged_through(with_loaded(channels, entries, ch, n)[ch as int], entries, ch, n + 1),
{
    let c = channels[ch as int];
    let raw = raw_block(entries, ch, n);
    assert(source::block_data(entries, ch, n) == Some(raw));
    assert(!c.edges.contains_key(n));
    let edges = c.edges.insert(n, edges_of(raw));
    let next = resolve_block(c.merged, edges[n]);
    assert(advance(c.merged, edges, n) == advance(next, edges, n));
    assert(advance(next, edges, n) == next);
    lemma_resolved_blocks_frame(c.edges, edges, n as int);
    let after = with_loaded(channels, entries, ch, n)[ch as int];
    assert(after.edges == edges);
    assert(after.merged == next);
    assert(resolved_blocks(edges, n + 1) == resolve_block(resolved_blocks(edges, n as int), edges[n]));
    assert forall|b: u32| b < n + 1 implies #[trigger] after.edges[b] == edges_of(
        raw_block(entries, ch, b),
    ) by {
        if b < n {
            assert(c.edges[b] == edges_of(raw_block(entries, ch, b)));
        }
    }
}

/// The plan for one channel, begun on nothing, merges its blocks in turn.
proof fn lemma_channel_run(
    channels: Seq<ChannelModel>,
    entries: Seq<EntryModel>,
    ch: u32,
    last: u32,
    k: int,
)
    requires
        ch < channels.len(),
        channels[ch as int] == empty_channel(),
        archive_complete(entries, ch, last),
        0 <= k <= last + 1,
    ensures
        with_plan(channels, entries, channel_plan(ch, 0, last).take(1 + k)).len()
            == channels.len(),
        merged_through(
            with_plan(channels, entries, channel_plan(ch, 0, last).take(1 + k))[ch as int],
            entries,
            ch,
            if k == 0 {
                1
            } else {
                k
            },
        ),
    decreases k,
{
    let plan = channel_plan(ch, 0, last);
    if k == 0 {
        let one = plan.take(1);
        assert(one.drop_last() =~= Seq::<(u32, u32)>::empty());
        assert(one.last() == (ch, 0u32));
        assert(with_plan(channels, entries, one.drop_last()) == channels);
        lemma_merge_next(channels, entries, ch, 0, last);
    } else {
        lemma_channel_run(channels, entries, ch, last, k - 1);
        let longer = plan.take(1 + k);
        assert(longer.drop_last() =~= plan.take(k));
        assert(longer.last() == (ch, (k - 1) as u32));
        let before = with_plan(channels, entries, plan.take(k));
        if k == 1 {
            assert(before[ch as int].edges.contains_key(0));
            assert(with_loaded(before, entries, ch, 0) == before);
        } else {
            lemma_merge_next(before, entries, ch, (k - 1) as u32, last);
        }
    }
}

/// The plan for all channels, begun on nothing, merges the blocks of each.
proof fn lemma_plan_run(
    channels: Seq<ChannelModel>,
    entries: Seq<EntryModel>,
    n: int,
    last: u32,
    ch: u32,
)
    requires
        ch < n <= channels.len() <= u32::MAX,
        channels[ch as int] == empty_channel(),
        archive_complete(entries, ch, last),
    ensures
        merged_through(
            with_plan(channels, entries, block_plan(n, 0, last))[ch as int],
            entries,
            ch,
            last + 1,
        ),
        with_plan(channels, entries, block_plan(n, 0, last)).len() == channels.len(),
    decreases n,
{
    let shorter = block_plan(n - 1, 0, last);
    let own = channel_plan((n - 1) as u32, 0, last);
    lemma_plan_concat(channels, entries, shorter, own);
    if ch == n - 1 {
        assert forall|i: int| 0 <= i < shorter.len() implies (#[trigger] shorter[i]).0
            < channels.len() && shorter[i].0 != ch by {
            lemma_plan_channels(n - 1, 0, last, i);
        }
        lemma_plan_frame(channels, entries, shorter, ch);
        let before = with_plan(channels, entries, shorter);
        lemma_channel_run(before, entries, ch, last, last + 1);
        assert(own.take(last + 2) =~= own);
    } else {
        lemma_plan_run(channels, entries, n - 1, last, ch);
        lemma_plan_frame(with_plan(channels, entries, shorter), entries, own, ch);
    }
}

/// What the file holds is what the channel shows: once the range from the
/// start of the recording up to `end` has been ensured on an empty store, every
/// bit of every block that the range reaches reads as it stands in the archive.
pub proof fn law_file_reads_back(
    num_channels: u32,
    blocks_per_channel: u32,
    entries: Seq<EntryModel>,
    end: u64,
    ch: u32,
    blk: u32,
    off: int,
)
    requires
        ch < num_channels,
        blocks_per_channel > 0,
        archive_complete(entries, ch, last_block_of(end, blocks_per_channel)),
        blk <= last_block_of(end, blocks_per_channel),
        0 <= off < 8 * raw_block(entries, ch, blk).len(),
    ensures
        ({
            let shown = with_plan(
                Seq::new(num_channels as nat, |i: int| empty_channel()),
                entries,
                block_plan(num_channels as int, 0, last_block_of(end, blocks_per_channel)),
            )[ch as int];
            signal::level(
                shown.first_value,
                shown.merged.transitions,
                blk * SAMPLES_PER_BLOCK + off,
            ) == blocks::raw_bit(raw_block(entries, ch, blk), off)
        }),
{
    let last = last_block_of(end, blocks_per_channel);
    let empty = Seq::new(num_channels as nat, |i: int| empty_channel());
    lemma_plan_run(empty, entries, num_channels as int, last, ch);
    let shown = with_plan(empty, entries, block_plan(num_channels as int, 0, last))[ch as int];
    let n = last + 1;
    assert forall|b: u32| b < n implies block_shaped(#[trigger] shown.edges[b]) by {
        assert(source::block_data(entries, ch, b) is Some);
        lemma_edges_of(raw_block(entries, ch, b));
    }
    assert(source::block_data(entries, ch, blk) is Some);
    let raw = raw_block(entries, ch, blk);
    assert(shown.edges[0] == edges_of(raw_block(entries, ch, 0)));
    lemma_merged_reads_blocks(shown.edges, n, blk, off);
    assert(shown.edges[blk] == edges_of(raw));
    law_block_read_back(raw, off);
}

/// A block that comes in is there afterwards, with its own edges, and gives its
/// channel the first value if it is the first block. It takes nothing away and
/// leaves the other channels alone. A block that was there before changes nothing.
pub proof fn law_block_is_taken_in(
    channels: Seq<ChannelModel>,
    ch: u32,
    blk: u32,
    raw: Seq<u8>,
    other: int,
)
    requires
        ch < channels.len(),
    ensures
        with_block(channels, ch, blk, raw).len() == channels.len(),
        other != ch && 0 <= other < channels.len() ==> with_block(channels, ch, blk, raw)[other]
            == channels[other],
        channels[ch as int].edges.contains_key(blk) ==> with_block(channels, ch, blk, raw)
            == channels,
        !channels[ch as int].edges.contains_key(blk) ==> {
            let before = channels[ch as int];
            let after = with_block(channels, ch, blk, raw)[ch as int];
            &&& after.edges.contains_key(blk)
            &&& after.edges[blk] == edges_of(raw)
            &&& forall|b: u32|
                b != blk ==> (#[trigger] after.edges.contains_key(b) <==> before.edges.contains_key(
                    b,
                )) && after.edges[b] == before.edges[b]
            &&& blk != 0 ==> after.first_value == before.first_value
            &&& blk == 0 && raw.len() > 0 ==> after.first_value == blocks::raw_bit(raw, 0)
            &&& blk == 0 && raw.len() == 0 ==> after.first_value == 0
        },
{
}

/// When a block comes in, merging goes on from what was merged to the first
/// block that is missing, but not beyond the block that came in.
pub proof fn law_merging_goes_to_the_first_gap(
    channels: Seq<ChannelModel>,
    ch: u32,
    blk: u32,
    raw: Seq<u8>,
)
    requires
        ch < channels.len(),
        !channels[ch as int].edges.contains_key(blk),
        0 <= channels[ch as int].merged.blocks,
    ensures
        ({
            let before = channels[ch as int];
            let after = with_block(channels, ch, blk, raw)[ch as int];
            &&& before.merged.blocks > blk ==> after.merged == before.merged
            &&& before.merged.blocks <= blk ==> {
                &&& before.merged.blocks <= after.merged.blocks <= blk + 1
                &&& forall|b: u32|
                    before.merged.blocks <= b < after.merged.blocks
                        ==> #[trigger] after.edges.contains_key(b)
                &&& after.merged.blocks == blk + 1 || !after.edges.contains_key(
                    after.merged.blocks as u32,
                )
            }
            &&& after.merged.transitions.len() >= before.merged.transitions.len()
            &&& forall|i: int|
                0 <= i < before.merged.transitions.len() ==> #[trigger] after.merged.transitions[i]
                    == before.merged.transitions[i]
        }),
{
    let before = channels[ch as int];
    let after = with_block(channels, ch, blk, raw)[ch as int];
    law_merge_stops_at_gap(before.merged, after.edges, blk);
    law_merge_extends(before.merged, after.edges, blk);
    assert forall|i: int| 0 <= i < before.merged.transitions.len() implies
        #[trigger] after.merged.transitions[i] == before.merged.transitions[i] by {
        assert(after.merged.transitions.take(before.merged.transitions.len() as int)[i]
            == before.merged.transitions[i]);
    }
}

/// A block is taken in as it stands in the archive, if the archive has it and it
/// can be indexed.
pub proof fn law_loading_takes_the_block_in(
    channels: Seq<ChannelModel>,
    entries: Seq<EntryModel>,
    ch: u32,
    blk: u32,
)
    ensures
        source::block_data(entries, ch, blk) is None ==> with_loaded(channels, entries, ch, blk)
            == channels,
        source::block_data(entries, ch, blk) matches Some(raw) ==> with_loaded(
            channels,
            entries,
            ch,
            blk,
        ) == if blocks::indexable(raw) {
            with_block(channels, ch, blk, raw)
        } else {
            channels
        },
{
}

/// A plan lists, for each of its channels, block 0 and the blocks of the span,
/// and nothing else.
pub proof fn law_plan_is_exact(channels: int, first: u32, last: u32, ch: u32, blk: u32)
    requires
        0 <= channels <= 0x1_0000_0000,
    ensures
        block_plan(channels, first, last).contains((ch, blk)) <==> ch < channels && (blk == 0
            || first <= blk <= last),
    decreases channels,
{
    let plan = block_plan(channels, first, last);
    if ch < channels && (blk == 0 || first <= blk <= last) {
        let own = channel_plan(ch, first, last);
        if blk == 0 {
            assert(own[0] == (ch, blk));
        } else {
            assert(own[1 + blk - first] == (ch, blk));
        }
        lemma_plan_holds_channel(channels, first, last, ch, (ch, blk));
    }
    if plan.contains((ch, blk)) {
        let i = plan.index_of((ch, blk));
        lemma_plan_channels(channels, first, last, i);
        let shorter = block_plan(channels - 1, first, last);
        if i < shorter.len() {
            assert(shorter[i] == (ch, blk));
            law_plan_is_exact(channels - 1, first, last, ch, blk);
        } else {
            let own = channel_plan((channels - 1) as u32, first, last);
            assert(own[i - shorter.len()] == (ch, blk));
        }
    }
}

/// The blocks of a range of samples are those that hold one of its samples, one
/// after the other.
pub proof fn law_blocks_of_a_range(start: u64, end: u64, blk: u32)
    requires
        start < end,
        (end - 1) as int / (SAMPLES_PER_BLOCK as int) <= u32::MAX,
    ensures
        block_indices(block_of(start), block_of((end - 1) as u64)).contains(blk) <==> exists|s: u64|
            start <= s < end && #[trigger] (s / SAMPLES_PER_BLOCK) == blk,
        forall|i: int|
            0 <= i < block_indices(block_of(start), block_of((end - 1) as u64)).len()
                ==> #[trigger] block_indices(block_of(start), block_of((end - 1) as u64))[i] == start
                / SAMPLES_PER_BLOCK + i,
{
    let blocks = block_indices(block_of(start), block_of((end - 1) as u64));
    let first = start / SAMPLES_PER_BLOCK;
    if blocks.contains(blk) {
        let i = blocks.index_of(blk);
        assert(blk == first + i);
        let s: u64 = if i == 0 {
            start
        } else {
            (blk * SAMPLES_PER_BLOCK) as u64
        };
        assert(start <= s < end && s / SAMPLES_PER_BLOCK == blk);
    }
    if exists|s: u64| start <= s < end && #[trigger] (s / SAMPLES_PER_BLOCK) == blk {
        let s = choose|s: u64| start <= s < end && #[trigger] (s / SAMPLES_PER_BLOCK) == blk;
        assert(blocks[blk - first] == blk);
    }
}

/// Of the blocks of a channel, a range that ends before sample `end` reaches
/// those that begin before it, and block 0 where it is empty.
pub proof fn law_range_reaches_blocks_that_begin_before_it(
    end: u64,
    blocks_per_channel: u32,
    blk: u32,
)
    requires
        blocks_per_channel > 0,
    ensures
        end > 0 ==> (blk <= last_block_of(end, blocks_per_channel) <==> blk < blocks_per_channel
            && blk * SAMPLES_PER_BLOCK < end),
        last_block_of(0, blocks_per_channel) == 0,
{
}

/// Samples are in the block that begins at or before them and is not over.
pub proof fn law_samples_are_in_their_block(s: u64)
    requires
        s as int / (SAMPLES_PER_BLOCK as int) <= u32::MAX,
    ensures
        block_of(s) * SAMPLES_PER_BLOCK <= s < (block_of(s) + 1) * SAMPLES_PER_BLOCK,
{
}

} // verus!
