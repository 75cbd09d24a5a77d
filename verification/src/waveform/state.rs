//! The state behind the waveform view: what is loaded, what is configured,
//! what has been derived from both, and what to load or derive next.

use std::collections::HashSet;

use vstd::prelude::*;

use crate::archive;
use crate::parser;
use crate::parser::DslProject;
use crate::waveform::blocks;
use crate::waveform::blocks::SAMPLES_PER_BLOCK;
use crate::waveform::edges;
use crate::waveform::edges::{block_key, EdgeStore};
use crate::waveform::qspi;
use crate::waveform::qspi::{find_transactions, QspiChannels, QspiConfig, QspiRole, Transaction};
use crate::waveform::qspi_stats;
use crate::waveform::qspi_stats::{can_decode, PacketStats};
use crate::waveform::readout;
use crate::waveform::source;
use crate::waveform::source::BlockSource;
use crate::waveform::summary;
use crate::waveform::summary::next_in_group;
use crate::waveform::viewport;
use crate::waveform::viewport::ViewState;

verus! {

broadcast use vstd::std_specs::hash::group_hash_axioms;

pub struct WaveformState {
    pub view: ViewState,
    pub store: EdgeStore,
    pub channel_names: Vec<String>,
    pub qspi: QspiConfig,
    pub samplerate_hz: u64,
    pub transactions: Vec<Transaction>,
    pub transactions_config_gen: u64,
    pub qspi_config_gen: u64,
    /// How many CS blocks were ingested when transactions were last built.
    /// Rebuilt whenever more CS blocks arrive.
    pub cs_blocks_at_last_tx_build: u32,
    /// How many CLK blocks were ingested when transactions were last built.
    /// Rebuilt whenever more CLK blocks arrive.
    pub clk_blocks_at_last_tx_build: u32,
    pub packet_stats: Option<PacketStats>,
    pub stats_config_gen: u64,
    pub exclude_timing_outliers: bool,
    /// Blocks that have been asked for, by key.
    pub requested: HashSet<u64>,
}

/// Whether the two agree on the recording and where the view stands in it.
pub open spec fn same_recording(a: WaveformState, b: WaveformState) -> bool {
    &&& a.view == b.view
    &&& a.store == b.store
    &&& a.channel_names == b.channel_names
    &&& a.samplerate_hz == b.samplerate_hz
}

/// Whether the two agree on what has been configured.
pub open spec fn same_config(a: WaveformState, b: WaveformState) -> bool {
    &&& a.qspi == b.qspi
    &&& a.qspi_config_gen == b.qspi_config_gen
    &&& a.exclude_timing_outliers == b.exclude_timing_outliers
}

/// Whether the two agree on what has been derived.
pub open spec fn same_results(a: WaveformState, b: WaveformState) -> bool {
    &&& a.transactions == b.transactions
    &&& a.transactions_config_gen == b.transactions_config_gen
    &&& a.cs_blocks_at_last_tx_build == b.cs_blocks_at_last_tx_build
    &&& a.clk_blocks_at_last_tx_build == b.clk_blocks_at_last_tx_build
    &&& a.packet_stats == b.packet_stats
    &&& a.stats_config_gen == b.stats_config_gen
}

/// The generation before `gen`.
pub open spec fn generation_before(gen: u64) -> u64 {
    if gen == 0 {
        u64::MAX
    } else {
        (gen - 1) as u64
    }
}

impl WaveformState {
    /// Whether the parts of the state agree with each other: the store holds
    /// together, every channel has a role, no transactions come from a later
    /// configuration, and the statistics, if any, are over the transactions
    /// that are there.
    pub open spec fn wf(&self) -> bool {
        &&& self.store.wf()
        &&& self.qspi.channel_roles@.len() == self.store.num_channels
        &&& self.transactions_config_gen <= self.qspi_config_gen
        &&& match self.packet_stats {
            Some(stats) => {
                &&& stats.packets@.len() <= self.transactions@.len()
                &&& qspi_stats::groups_of(
                    stats.groups.groups@,
                    qspi_stats::packet_keys(stats.packets@),
                )
            },
            None => true,
        }
    }

    /// Whether this is the state in which a capture is first shown.
    pub open spec fn initial(&self, project: DslProject) -> bool {
        let n = project.header.total_probes;
        &&& self.view == (ViewState {
            sample_offset: 0,
            total_samples: project.header.total_samples,
        })
        &&& self.store.num_channels == n
        &&& self.store.blocks_per_channel == project.header.total_blocks
        &&& self.store.total_samples == project.header.total_samples
        &&& self.store.model() == Seq::new(n as nat, |ch: int| edges::empty_channel())
        &&& parser::texts(self.channel_names@) == parser::names_of(project)
        &&& !self.qspi.enabled
        &&& self.qspi.channel_roles@ == Seq::new(n as nat, |i: int| qspi::initial_role(i))
        &&& self.samplerate_hz == project.header.samplerate_hz
        &&& self.transactions@.len() == 0
        &&& self.transactions_config_gen == 0
        &&& self.qspi_config_gen == 1
        &&& self.cs_blocks_at_last_tx_build == 0
        &&& self.clk_blocks_at_last_tx_build == 0
        &&& self.packet_stats is None
        &&& self.stats_config_gen == 0
        &&& !self.exclude_timing_outliers
        &&& self.requested@ == Set::<u64>::empty()
    }

    /// Opens the capture file of a project.
    pub fn from_project(bytes: Vec<u8>, project: &DslProject) -> (r: Result<
        (Self, BlockSource),
        String,
    >)
        ensures
            match archive::zip_listing(bytes@) {
                Err(m) => r matches Err(e) && e@ == m,
                Ok(entries) => match source::first_fault(entries) {
                    Some(m) => r matches Err(e) && e@ == m,
                    None => r matches Ok((state, source)) && {
                        &&& state.wf()
                        &&& state.store.sized()
                        &&& state.initial(*project)
                        &&& source.wf()
                        &&& source.entries() == entries
                    },
                },
            },
    {
        let num_channels: u32 = project.header.total_probes;
        let total_samples: u64 = project.header.total_samples;
        let (store, source) = match EdgeStore::open(
            bytes,
            num_channels,
            project.header.total_blocks,
            total_samples,
        ) {
            Ok(pair) => pair,
            Err(e) => {
                return Err(e);
            },
        };
        let state = WaveformState {
            view: ViewState::new(total_samples),
            store,
            channel_names: project.channel_names(),
            qspi: QspiConfig::new(num_channels as usize),
            samplerate_hz: project.header.samplerate_hz,
            transactions: Vec::new(),
            transactions_config_gen: 0,
            qspi_config_gen: 1,
            cs_blocks_at_last_tx_build: 0,
            clk_blocks_at_last_tx_build: 0,
            packet_stats: None,
            stats_config_gen: 0,
            exclude_timing_outliers: false,
            requested: HashSet::new(),
        };
        Ok((state, source))
    }

    /// Switches decoding on or off. A change makes the transactions out of date.
    pub fn set_enabled(&mut self, enabled: bool)
        requires
            old(self).wf(),
            old(self).qspi.enabled != enabled ==> old(self).qspi_config_gen < u64::MAX,
        ensures
            final(self).wf(),
            same_recording(*old(self), *final(self)),
            same_results(*old(self), *final(self)),
            final(self).requested == old(self).requested,
            final(self).exclude_timing_outliers == old(self).exclude_timing_outliers,
            final(self).qspi.enabled == enabled,
            final(self).qspi.channel_roles == old(self).qspi.channel_roles,
            final(self).qspi_config_gen == old(self).qspi_config_gen + if old(self).qspi.enabled
                != enabled {
                1int
            } else {
                0int
            },
            old(self).qspi.enabled != enabled ==> final(self).transactions_config_gen != final(self).qspi_config_gen,
    {
        if self.qspi.enabled != enabled {
            self.qspi.enabled = enabled;
            self.qspi_config_gen = self.qspi_config_gen + 1;
        }
    }

    /// Gives a role to a channel. A change makes the transactions out of date.
    pub fn assign_role(&mut self, ch: usize, role: QspiRole)
        requires
            old(self).wf(),
            ch < old(self).store.num_channels,
            old(self).qspi.channel_roles@[ch as int] != role ==> old(self).qspi_config_gen
                < u64::MAX,
        ensures
            final(self).wf(),
            same_recording(*old(self), *final(self)),
            same_results(*old(self), *final(self)),
            final(self).requested == old(self).requested,
            final(self).exclude_timing_outliers == old(self).exclude_timing_outliers,
            final(self).qspi.enabled == old(self).qspi.enabled,
            final(self).qspi.channel_roles@ == qspi::reassigned(
                old(self).qspi.channel_roles@,
                ch as int,
                role,
            ),
            final(self).qspi.channel_roles@[ch as int] == role,
            final(self).qspi_config_gen == old(self).qspi_config_gen + if old(self).qspi.channel_roles@[ch as int] != role {
                1int
            } else {
                0int
            },
            old(self).qspi.channel_roles@[ch as int] != role ==> final(self).transactions_config_gen != final(self).qspi_config_gen,
    {
        if self.qspi.assign_role(ch, role) {
            self.qspi_config_gen = self.qspi_config_gen + 1;
        }
    }

    /// Counts outlying periods in the histogram, or leaves them out. Either way
    /// the statistics are out of date.
    pub fn toggle_exclude_timing_outliers(&mut self)
        requires
            old(self).wf(),
        ensures
            final(self).wf(),
            same_recording(*old(self), *final(self)),
            final(self).requested == old(self).requested,
            final(self).qspi == old(self).qspi,
            final(self).qspi_config_gen == old(self).qspi_config_gen,
            final(self).exclude_timing_outliers == !old(self).exclude_timing_outliers,
            final(self).transactions == old(self).transactions,
            final(self).transactions_config_gen == old(self).transactions_config_gen,
            final(self).cs_blocks_at_last_tx_build == old(self).cs_blocks_at_last_tx_build,
            final(self).clk_blocks_at_last_tx_build == old(self).clk_blocks_at_last_tx_build,
            final(self).packet_stats == old(self).packet_stats,
            final(self).stats_config_gen == generation_before(old(self).stats_config_gen),
            old(self).stats_config_gen == old(self).transactions_config_gen ==> final(self).stats_config_gen != final(self).transactions_config_gen,
    {
        self.exclude_timing_outliers = !self.exclude_timing_outliers;
        self.stats_config_gen = self.stats_config_gen.wrapping_sub(1);
    }

    /// Whether to send a request for a block now: not if it is there, nor if it
    /// has been asked for.
    pub fn request_block(&mut self, channel_idx: u32, block_idx: u32) -> (send: bool)
        ensures
            same_recording(*old(self), *final(self)),
            same_config(*old(self), *final(self)),
            same_results(*old(self), *final(self)),
            send == (!old(self).store.holds(channel_idx, block_idx)
                && !old(self).requested@.contains(edges::key_of(channel_idx, block_idx))),
            final(self).requested@ == if send {
                old(self).requested@.insert(edges::key_of(channel_idx, block_idx))
            } else {
                old(self).requested@
            },
    {
        if self.store.is_block_ingested(channel_idx, block_idx) {
            return false;
        }
        let key: u64 = block_key(channel_idx, block_idx);
        if self.requested.contains(&key) {
            return false;
        }
        self.requested.insert(key);
        true
    }

    /// Takes back a request that could not be sent, so that it is made again.
    pub fn request_failed(&mut self, channel_idx: u32, block_idx: u32)
        ensures
            same_recording(*old(self), *final(self)),
            same_config(*old(self), *final(self)),
            same_results(*old(self), *final(self)),
            final(self).requested@ == old(self).requested@.remove(
                edges::key_of(channel_idx, block_idx),
            ),
    {
        let key: u64 = block_key(channel_idx, block_idx);
        self.requested.remove(&key);
    }

    /// Takes in the raw bytes of a block.
    pub fn receive_block(&mut self, channel_idx: u32, block_idx: u32, raw: &[u8])
        requires
            old(self).wf(),
            channel_idx < old(self).store.num_channels,
            blocks::indexable(raw@),
        ensures
            final(self).wf(),
            old(self).store.sized() && 8 * raw@.len() <= SAMPLES_PER_BLOCK ==> final(self).store.sized(),
            same_config(*old(self), *final(self)),
            same_results(*old(self), *final(self)),
            final(self).view == old(self).view,
            final(self).channel_names == old(self).channel_names,
            final(self).samplerate_hz == old(self).samplerate_hz,
            final(self).requested == old(self).requested,
            final(self).store.model() == edges::with_block(
                old(self).store.model(),
                channel_idx,
                block_idx,
                raw@,
            ),
            final(self).store.num_channels == old(self).store.num_channels,
            final(self).store.blocks_per_channel == old(self).store.blocks_per_channel,
            final(self).store.total_samples == old(self).store.total_samples,
    {
        self.store.apply_loaded(channel_idx, block_idx, raw);
    }

    /// The blocks of the select line and of the clock, if decoding is on: all of
    /// them are needed to find the transactions of the whole recording.
    pub fn transaction_plan(&self) -> (plan: Vec<(u32, u32)>)
        requires
            self.wf(),
        ensures
            plan@ == wanted_transaction_blocks(*self),
    {
        let mut plan: Vec<(u32, u32)> = Vec::new();
        if !self.qspi.enabled {
            return plan;
        }
        if let Some(cs_ch) = self.qspi.channel_for(QspiRole::Cs) {
            push_blocks(&mut plan, cs_ch as u32, self.store.blocks_per_channel);
            if let Some(clk_ch) = self.qspi.channel_for(QspiRole::Clk) {
                push_blocks(&mut plan, clk_ch as u32, self.store.blocks_per_channel);
            }
        }
        assert(plan@ =~= wanted_transaction_blocks(*self));
        plan
    }

    /// Builds the transactions anew when the configuration has changed or more
    /// blocks of the select line or of the clock are there. The statistics are
    /// then out of date.
    pub fn rebuild_transactions(&mut self) -> (rebuilt: bool)
        requires
            old(self).wf(),
        ensures
            final(self).wf(),
            rebuilt == transactions_outdated(*old(self)),
            !rebuilt ==> *final(self) == *old(self),
            rebuilt ==> {
                &&& same_recording(*old(self), *final(self))
                &&& same_config(*old(self), *final(self))
                &&& final(self).requested == old(self).requested
                &&& final(self).transactions@ == qspi::found_transactions(
                    old(self).store,
                    old(self).qspi,
                )
                &&& final(self).transactions_config_gen == old(self).qspi_config_gen
                &&& final(self).cs_blocks_at_last_tx_build == role_blocks_held(
                    *old(self),
                    QspiRole::Cs,
                )
                &&& final(self).clk_blocks_at_last_tx_build == role_blocks_held(
                    *old(self),
                    QspiRole::Clk,
                )
                &&& stats_decodable(*final(self))
                &&& final(self).packet_stats is None
                &&& final(self).stats_config_gen == generation_before(old(self).qspi_config_gen)
                &&& final(self).stats_config_gen != final(self).transactions_config_gen
            },
            !transactions_outdated(*final(self)),
    {
        if !self.qspi.enabled {
            return false;
        }
        let cs_ch: usize = match self.qspi.channel_for(QspiRole::Cs) {
            Some(ch) => ch,
            None => {
                return false;
            },
        };
        let blocks: u32 = self.store.blocks_per_channel;
        let cs_loaded: u32 = held_count(&self.store, cs_ch as u32, blocks);
        let clk_loaded: u32 = match self.qspi.channel_for(QspiRole::Clk) {
            Some(clk_ch) => held_count(&self.store, clk_ch as u32, blocks),
            None => 0,
        };
        let config_changed: bool = self.transactions_config_gen != self.qspi_config_gen;
        let more_data: bool = cs_loaded > self.cs_blocks_at_last_tx_build || clk_loaded
            > self.clk_blocks_at_last_tx_build;
        if (config_changed || more_data) && cs_loaded > 0 {
            proof {
                qspi::lemma_roles_within(self.qspi);
            }
            self.transactions = find_transactions(&self.store, &self.qspi);
            self.transactions_config_gen = self.qspi_config_gen;
            self.cs_blocks_at_last_tx_build = cs_loaded;
            self.clk_blocks_at_last_tx_build = clk_loaded;
            self.stats_config_gen = self.transactions_config_gen.wrapping_sub(1);
            self.packet_stats = None;
            proof {
                lemma_found_decodable(*self);
            }
            true
        } else {
            false
        }
    }
}

/// Transactions that have just been found can be decoded.
proof fn lemma_found_decodable(state: WaveformState)
    requires
        state.transactions@ == qspi::found_transactions(state.store, state.qspi),
    ensures
        stats_decodable(state),
{
    if state.qspi.role_channel(QspiRole::Clk) is Some {
        let txs = state.transactions@;
        assert forall|i: int| 0 <= i < txs.len() implies (#[trigger] txs[i]).start
            <= txs[i].end by {
            assert(txs.contains(txs[i]));
            qspi::law_transactions_are_clocked_windows(state.store, state.qspi, txs[i]);
        }
    }
}

/// Appends all blocks of a channel to a plan.
fn push_blocks(plan: &mut Vec<(u32, u32)>, ch: u32, blocks: u32)
    ensures
        final(plan)@ == old(plan)@ + channel_blocks(ch, blocks),
{
    let mut blk: u32 = 0;
    assert(plan@ =~= old(plan)@ + channel_blocks(ch, 0));
    while blk < blocks
        invariant
            blk <= blocks,
            plan@ == old(plan)@ + channel_blocks(ch, blk),
        decreases blocks - blk,
    {
        plan.push((ch, blk));
        blk = blk + 1;
        assert(plan@ =~= old(plan)@ + channel_blocks(ch, blk));
    }
}

/// The first `blocks` blocks of a channel.
pub open spec fn channel_blocks(ch: u32, blocks: u32) -> Seq<(u32, u32)> {
    Seq::new(blocks as nat, |i: int| (ch, i as u32))
}

/// How many of the first `n` blocks of a channel are there.
pub open spec fn held_blocks(store: EdgeStore, ch: u32, n: int) -> nat
    decreases n,
{
    if n <= 0 {
        0
    } else {
        held_blocks(store, ch, n - 1) + if store.holds(ch, (n - 1) as u32) {
            1nat
        } else {
            0nat
        }
    }
}

/// Counts how many of the first `n` blocks of a channel are there.
fn held_count(store: &EdgeStore, ch: u32, n: u32) -> (count: u32)
    ensures
        count == held_blocks(*store, ch, n as int),
{
    let mut count: u32 = 0;
    let mut blk: u32 = 0;
    while blk < n
        invariant
            blk <= n,
            count <= blk,
            count == held_blocks(*store, ch, blk as int),
        decreases n - blk,
    {
        if store.is_block_ingested(ch, blk) {
            count = count + 1;
        }
        blk = blk + 1;
    }
    count
}

/// How many blocks of the channel that plays `role` are there.
pub open spec fn role_blocks_held(state: WaveformState, role: QspiRole) -> nat {
    match state.qspi.role_channel(role) {
        Some(ch) => held_blocks(state.store, ch as u32, state.store.blocks_per_channel as int),
        None => 0,
    }
}

/// Whether the transactions have to be built anew.
pub open spec fn transactions_outdated(state: WaveformState) -> bool {
    &&& state.qspi.enabled
    &&& role_blocks_held(state, QspiRole::Cs) > 0
    &&& {
        ||| state.transactions_config_gen != state.qspi_config_gen
        ||| role_blocks_held(state, QspiRole::Cs) > state.cs_blocks_at_last_tx_build
        ||| role_blocks_held(state, QspiRole::Clk) > state.clk_blocks_at_last_tx_build
    }
}

/// All blocks of the channel that plays `role`, if any.
pub open spec fn role_blocks(state: WaveformState, role: QspiRole) -> Seq<(u32, u32)> {
    match state.qspi.role_channel(role) {
        Some(ch) => channel_blocks(ch as u32, state.store.blocks_per_channel),
        None => Seq::empty(),
    }
}

/// The blocks that are needed to find all transactions.
pub open spec fn wanted_transaction_blocks(state: WaveformState) -> Seq<(u32, u32)> {
    if state.qspi.enabled && state.qspi.role_channel(QspiRole::Cs) is Some {
        role_blocks(state, QspiRole::Cs) + role_blocks(state, QspiRole::Clk)
    } else {
        Seq::empty()
    }
}

/// The channels that the statistics read.
pub open spec fn needed_channels(config: QspiConfig) -> Seq<u32> {
    seq![
        config.played_by(QspiRole::Clk) as u32,
        config.played_by(QspiRole::Cs) as u32,
        config.played_by(QspiRole::D0) as u32,
        config.played_by(QspiRole::D1) as u32,
        config.played_by(QspiRole::D2) as u32,
        config.played_by(QspiRole::D3) as u32,
    ]
}

/// Last block that the statistics read: the one in which the last transaction
/// ends, or the last of the recording.
pub open spec fn last_needed_block(state: WaveformState) -> int {
    let block = state.transactions@.last().end as int / SAMPLES_PER_BLOCK as int;
    let limit = state.store.blocks_per_channel - 1;
    if block < limit {
        block
    } else {
        limit
    }
}

/// Whether blocks 0 to `last` of a channel are there.
pub open spec fn held_through(store: EdgeStore, ch: u32, last: int) -> bool {
    forall|b: u32| b <= last ==> #[trigger] store.holds(ch, b)
}

/// Whether statistics are asked for and not up to date.
pub open spec fn stats_wanted(state: WaveformState) -> bool {
    &&& state.qspi.enabled
    &&& state.transactions@.len() > 0
    &&& state.stats_config_gen != state.transactions_config_gen
    &&& state.qspi.complete()
}

/// Whether all that the statistics read is there.
pub open spec fn stats_ready(state: WaveformState) -> bool {
    let needed = needed_channels(state.qspi);
    let last = last_needed_block(state);
    forall|i: int| 0 <= i < needed.len() ==> held_through(state.store, #[trigger] needed[i], last)
}

/// All that the statistics read, block by block.
pub open spec fn stats_plan(state: WaveformState) -> Seq<(u32, u32)> {
    let needed = needed_channels(state.qspi);
    Seq::new(
        (6 * (last_needed_block(state) + 1)) as nat,
        |i: int| (needed[i % 6], (i / 6) as u32),
    )
}

/// Whether the clock, if a channel plays it, sees every transaction end no
/// earlier than it starts.
pub open spec fn stats_decodable(state: WaveformState) -> bool {
    state.qspi.role_channel(QspiRole::Clk) is Some ==> qspi_stats::decodable(
        state.store.transitions(state.qspi.played_by(QspiRole::Clk)),
        state.transactions@,
    )
}

/// What to do next towards the statistics.
pub enum StatsStep {
    /// There is nothing to do.
    Idle,
    /// The statistics are to be computed: all that they read is there.
    Compute,
    /// These blocks are needed first.
    Load(Vec<(u32, u32)>),
}

/// Whether blocks 0 to `last` of a channel are there.
fn all_held(store: &EdgeStore, ch: u32, last: u32) -> (b: bool)
    ensures
        b == held_through(*store, ch, last as int),
{
    let mut blk: u64 = 0;
    while blk <= last as u64
        invariant
            blk <= last + 1,
            forall|b: u32| b < blk ==> #[trigger] store.holds(ch, b),
        decreases last + 1 - blk,
    {
        if !store.is_block_ingested(ch, blk as u32) {
            return false;
        }
        blk = blk + 1;
    }
    true
}

impl WaveformState {
    /// Whether the statistics can be computed once their blocks are there.
    pub fn can_compute_stats(&self) -> (b: bool)
        requires
            self.wf(),
            qspi::role_sorted(self.store, self.qspi, QspiRole::Clk),
        ensures
            b == stats_decodable(*self),
    {
        match self.qspi.channel_for(QspiRole::Clk) {
            Some(clk_ch) => {
                proof {
                    qspi::lemma_roles_within(self.qspi);
                    qspi::lemma_role_in_store(self.store, self.qspi, QspiRole::Clk);
                }
                let clk = self.store.channel(clk_ch as u32);
                can_decode(&clk, self.transactions.as_slice())
            },
            None => true,
        }
    }

    /// What to do next towards the statistics.
    pub fn stats_step(&self) -> (step: StatsStep)
        requires
            self.wf(),
            self.store.blocks_per_channel > 0,
        ensures
            match step {
                StatsStep::Idle => !stats_wanted(*self),
                StatsStep::Compute => stats_wanted(*self) && stats_ready(*self),
                StatsStep::Load(plan) => stats_wanted(*self) && !stats_ready(*self) && plan@
                    == stats_plan(*self),
            },
    {
        if !self.qspi.enabled || self.transactions.len() == 0 || self.stats_config_gen
            == self.transactions_config_gen {
            return StatsStep::Idle;
        }
        proof {
            qspi::lemma_roles_within(self.qspi);
        }
        let c: QspiChannels = match self.qspi.channels() {
            Some(c) => c,
            None => {
                return StatsStep::Idle;
            },
        };
        let last_end: u64 = self.transactions[self.transactions.len() - 1].end;
        let block: u64 = last_end / SAMPLES_PER_BLOCK;
        let limit: u64 = self.store.blocks_per_channel as u64 - 1;
        let last: u32 = if block < limit {
            block as u32
        } else {
            limit as u32
        };
        let needed: [u32; 6] = [c.clk, c.cs, c.d0, c.d1, c.d2, c.d3];
        assert(needed@ =~= needed_channels(self.qspi));
        let ready: bool = all_held(&self.store, c.clk, last) && all_held(&self.store, c.cs, last)
            && all_held(&self.store, c.d0, last) && all_held(&self.store, c.d1, last) && all_held(
            &self.store,
            c.d2,
            last,
        ) && all_held(&self.store, c.d3, last);
        assert(ready == stats_ready(*self)) by {
            assert(needed@[0] == c.clk);
            assert(needed@[1] == c.cs);
            assert(needed@[2] == c.d0);
            assert(needed@[3] == c.d1);
            assert(needed@[4] == c.d2);
            assert(needed@[5] == c.d3);
        }
        if ready {
            return StatsStep::Compute;
        }
        let mut plan: Vec<(u32, u32)> = Vec::new();
        let mut blk: u64 = 0;
        while blk <= last as u64
            invariant
                blk <= last + 1,
                plan@ == Seq::new((6 * blk) as nat, |i: int| (needed@[i % 6], (i / 6) as u32)),
            decreases last + 1 - blk,
        {
            let mut k: usize = 0;
            while k < 6
                invariant
                    k <= 6,
                    blk <= last,
                    plan@ == Seq::new(
                        (6 * blk + k) as nat,
                        |i: int| (needed@[i % 6], (i / 6) as u32),
                    ),
                decreases 6 - k,
            {
                plan.push((needed[k], blk as u32));
                assert((6 * blk + k) % 6 == k && (6 * blk + k) / 6 == blk);
                k = k + 1;
                assert(plan@ =~= Seq::new(
                    (6 * blk + k) as nat,
                    |i: int| (needed@[i % 6], (i / 6) as u32),
                ));
            }
            blk = blk + 1;
        }
        assert(plan@ =~= stats_plan(*self));
        StatsStep::Load(plan)
    }

    /// Computes the statistics of the transactions.
    pub fn compute_stats(&mut self)
        requires
            old(self).wf(),
            qspi_stats::bus_complete(old(self).qspi) ==> qspi_stats::bus_sorted(
                old(self).store,
                old(self).qspi,
            ),
            qspi_stats::bus_complete(old(self).qspi) ==> stats_decodable(*old(self)),
        ensures
            final(self).wf(),
            same_recording(*old(self), *final(self)),
            same_config(*old(self), *final(self)),
            final(self).requested == old(self).requested,
            final(self).transactions == old(self).transactions,
            final(self).transactions_config_gen == old(self).transactions_config_gen,
            final(self).cs_blocks_at_last_tx_build == old(self).cs_blocks_at_last_tx_build,
            final(self).clk_blocks_at_last_tx_build == old(self).clk_blocks_at_last_tx_build,
            final(self).stats_config_gen == old(self).transactions_config_gen,
            final(self).packet_stats matches Some(stats) && qspi_stats::stats_of(
                stats,
                old(self).store,
                old(self).qspi,
                old(self).transactions@,
                old(self).samplerate_hz,
                old(self).exclude_timing_outliers,
            ),
            !stats_wanted(*final(self)),
    {
        proof {
            qspi::lemma_roles_within(self.qspi);
        }
        let stats = PacketStats::compute(
            &self.store,
            &self.qspi,
            self.transactions.as_slice(),
            self.samplerate_hz,
            self.exclude_timing_outliers,
        );
        self.packet_stats = Some(stats);
        self.stats_config_gen = self.transactions_config_gen;
    }
}

/// Where a jump within a group of packets goes, if there is such a group.
pub open spec fn group_jump(state: WaveformState, group: usize, margin: u64) -> Option<u64> {
    match state.packet_stats {
        Some(stats) => if group < stats.groups.groups@.len() {
            summary::group_target(
                state.transactions@,
                stats.groups.groups@[group as int].tx_indices@,
                state.view.sample_offset + margin,
            )
        } else {
            None
        },
        None => None,
    }
}

impl WaveformState {
    /// Moves the view to the next packet of a group, so that the packet stands
    /// `lead` samples behind the left edge. A packet counts as next if it
    /// starts more than `margin` samples behind the left edge.
    pub fn jump_in_group(&mut self, group: usize, margin: u64, lead: u64)
        requires
            old(self).wf(),
            old(self).view.sample_offset + margin <= u64::MAX,
        ensures
            final(self).wf(),
            same_config(*old(self), *final(self)),
            same_results(*old(self), *final(self)),
            final(self).store == old(self).store,
            final(self).channel_names == old(self).channel_names,
            final(self).samplerate_hz == old(self).samplerate_hz,
            final(self).requested == old(self).requested,
            final(self).view.total_samples == old(self).view.total_samples,
            final(self).view.sample_offset == match group_jump(*old(self), group, margin) {
                Some(start) => viewport::above(start as int, lead as int),
                None => old(self).view.sample_offset as int,
            },
    {
        let target: Option<u64> = match &self.packet_stats {
            Some(stats) => {
                if group < stats.groups.groups.len() {
                    let members = &stats.groups.groups[group].tx_indices;
                    let n: usize = stats.packets.len();
                    proof {
                        let keys = qspi_stats::packet_keys(stats.packets@);
                        let key = stats.groups.groups@[group as int].key();
                        qspi_stats::lemma_positions(keys, key);
                        assert forall|i: int| 0 <= i < members@.len() implies
                            #[trigger] members@[i] < self.transactions@.len() by {
                            assert(members@.contains(members@[i]));
                        }
                    }
                    next_in_group(
                        self.transactions.as_slice(),
                        members.as_slice(),
                        self.view.sample_offset,
                        margin,
                    )
                } else {
                    None
                }
            },
            None => None,
        };
        if let Some(start) = target {
            self.view.jump(start, lead);
        }
    }

    /// Moves the view to the transaction behind an outlying period, so that it
    /// stands `lead` samples behind the left edge.
    pub fn jump_to_period(&mut self, tx_a: usize, lead: u64)
        requires
            old(self).wf(),
        ensures
            final(self).wf(),
            same_config(*old(self), *final(self)),
            same_results(*old(self), *final(self)),
            final(self).store == old(self).store,
            final(self).channel_names == old(self).channel_names,
            final(self).samplerate_hz == old(self).samplerate_hz,
            final(self).requested == old(self).requested,
            final(self).view.total_samples == old(self).view.total_samples,
            final(self).view.sample_offset == if tx_a + 1 < old(self).transactions@.len() {
                viewport::above(old(self).transactions@[tx_a + 1].start as int, lead as int)
            } else {
                old(self).view.sample_offset as int
            },
    {
        if tx_a < self.transactions.len() && tx_a + 1 < self.transactions.len() {
            let start: u64 = self.transactions[tx_a + 1].start;
            self.view.jump(start, lead);
        }
    }
}

/// A request that could not be sent leaves no trace: the block is asked for again.
pub proof fn law_failed_request_is_repeated(requested: Set<u64>, channel_idx: u32, block_idx: u32)
    requires
        !requested.contains(edges::key_of(channel_idx, block_idx)),
    ensures
        requested.insert(edges::key_of(channel_idx, block_idx)).remove(
            edges::key_of(channel_idx, block_idx),
        ) == requested,
{
    let key = edges::key_of(channel_idx, block_idx);
    assert(requested.insert(key).remove(key) =~= requested);
}

/// Requests for different blocks do not get into each other's way.
pub proof fn law_block_keys_differ(ch: u32, blk: u32, other_ch: u32, other_blk: u32)
    requires
        edges::key_of(ch, blk) == edges::key_of(other_ch, other_blk),
    ensures
        ch == other_ch,
        blk == other_blk,
{
}

/// While decoding is on, all blocks of the channels that play select and the
/// clock are asked for, and no others; without a select line, none.
pub proof fn law_transactions_need_their_channels(state: WaveformState, ch: u32, blk: u32)
    requires
        state.wf(),
    ensures
        wanted_transaction_blocks(state).contains((ch, blk)) <==> {
            &&& state.qspi.enabled
            &&& state.qspi.channel_roles@.contains(QspiRole::Cs)
            &&& blk < state.store.blocks_per_channel
            &&& readout::plays(state.qspi, QspiRole::Cs, ch as int) || readout::plays(
                state.qspi,
                QspiRole::Clk,
                ch as int,
            )
        },
{
    readout::law_first_player_is_taken(state.qspi, QspiRole::Cs, ch as int);
    readout::law_first_player_is_taken(state.qspi, QspiRole::Clk, ch as int);
    qspi::lemma_roles_within(state.qspi);
    state.qspi.channel_roles@.index_of_first_ensures(QspiRole::Cs);
    state.qspi.channel_roles@.index_of_first_ensures(QspiRole::Clk);
    let a = role_blocks(state, QspiRole::Cs);
    let b = role_blocks(state, QspiRole::Clk);
    let all = wanted_transaction_blocks(state);
    if all.contains((ch, blk)) {
        let i = all.index_of((ch, blk));
        if i < a.len() {
            assert(a[i] == (ch, blk));
        } else {
            assert(b[i - a.len()] == (ch, blk));
        }
    }
    if state.qspi.enabled && state.qspi.channel_roles@.contains(QspiRole::Cs) && blk
        < state.store.blocks_per_channel {
        if readout::plays(state.qspi, QspiRole::Cs, ch as int) {
            assert(a[blk as int] == (ch, blk));
            assert(all[blk as int] == (ch, blk));
        }
        if readout::plays(state.qspi, QspiRole::Clk, ch as int) {
            assert(b[blk as int] == (ch, blk));
            assert(all[a.len() + blk] == (ch, blk));
        }
    }
}

/// Whether the statistics read a block: it belongs to a channel that plays a
/// role, and starts no later than the last transaction ends.
pub open spec fn read_by_stats(state: WaveformState, ch: u32, blk: u32) -> bool {
    &&& blk < state.store.blocks_per_channel
    &&& blk * SAMPLES_PER_BLOCK <= state.transactions@.last().end
    &&& exists|role: QspiRole| #[trigger] readout::plays(state.qspi, role, ch as int)
}

/// The channels that the statistics read are those that play a role.
proof fn lemma_needed_channels(state: WaveformState, ch: u32)
    requires
        state.wf(),
        forall|role: QspiRole| state.qspi.channel_roles@.contains(role),
    ensures
        needed_channels(state.qspi).contains(ch) <==> exists|role: QspiRole|
            #[trigger] readout::plays(state.qspi, role, ch as int),
{
    let needed = needed_channels(state.qspi);
    let roles = seq![
        QspiRole::Clk,
        QspiRole::Cs,
        QspiRole::D0,
        QspiRole::D1,
        QspiRole::D2,
        QspiRole::D3,
    ];
    assert forall|i: int| 0 <= i < 6 implies {
        &&& (#[trigger] needed[i]) as int == state.qspi.played_by(roles[i])
        &&& readout::plays(state.qspi, roles[i], needed[i] as int)
    } by {
        let role = roles[i];
        state.qspi.channel_roles@.index_of_first_ensures(role);
        readout::law_first_player_is_taken(state.qspi, role, state.qspi.played_by(role));
    }
    if needed.contains(ch) {
        let i = needed.index_of(ch);
        assert(readout::plays(state.qspi, roles[i], ch as int));
    }
    if exists|role: QspiRole| #[trigger] readout::plays(state.qspi, role, ch as int) {
        let role = choose|role: QspiRole| #[trigger] readout::plays(state.qspi, role, ch as int);
        let i: int = match role {
            QspiRole::Clk => 0,
            QspiRole::Cs => 1,
            QspiRole::D0 => 2,
            QspiRole::D1 => 3,
            QspiRole::D2 => 4,
            QspiRole::D3 => 5,
        };
        assert(roles[i] == role);
        readout::law_first_player_is_taken(state.qspi, role, ch as int);
        assert(needed[i] == ch);
    }
}

/// The statistics are computed once every block that they read is there, and not
/// before, and until then exactly these blocks are asked for.
pub proof fn law_stats_wait_for_what_they_read(state: WaveformState, ch: u32, blk: u32)
    requires
        state.wf(),
        forall|role: QspiRole| state.qspi.channel_roles@.contains(role),
        state.store.blocks_per_channel > 0,
        state.transactions@.len() > 0,
    ensures
        stats_ready(state) <==> forall|c: u32, b: u32| #[trigger]
            read_by_stats(state, c, b) ==> state.store.holds(c, b),
        stats_plan(state).contains((ch, blk)) <==> read_by_stats(state, ch, blk),
{
    let needed = needed_channels(state.qspi);
    let last = last_needed_block(state);
    let end = state.transactions@.last().end;
    assert forall|c: u32, b: u32| #[trigger] read_by_stats(state, c, b) <==> needed.contains(c) && b
        <= last by {
        lemma_needed_channels(state, c);
        assert(b * SAMPLES_PER_BLOCK <= end <==> b <= end as int / SAMPLES_PER_BLOCK as int);
    }
    if stats_ready(state) {
        assert forall|c: u32, b: u32| #[trigger] read_by_stats(state, c, b) implies state.store.holds(
            c,
            b,
        ) by {
            let i = needed.index_of(c);
            assert(held_through(state.store, needed[i], last));
        }
    }
    if forall|c: u32, b: u32| #[trigger]
        read_by_stats(state, c, b) ==> state.store.holds(c, b) {
        assert forall|i: int| 0 <= i < needed.len() implies held_through(
            state.store,
            #[trigger] needed[i],
            last,
        ) by {
            assert forall|b: u32| b <= last implies #[trigger] state.store.holds(needed[i], b) by {
                assert(needed.contains(needed[i]));
                assert(read_by_stats(state, needed[i], b));
            }
        }
    }
    let plan = stats_plan(state);
    assert(read_by_stats(state, ch, blk) <==> needed.contains(ch) && blk <= last);
    if plan.contains((ch, blk)) {
        let i = plan.index_of((ch, blk));
        assert(needed[i % 6] == ch);
    }
    if needed.contains(ch) && blk <= last {
        let k = needed.index_of(ch);
        let i = 6 * blk + k;
        assert(i % 6 == k && i / 6 == blk as int);
        assert(plan[i] == (ch, blk));
    }
}

/// Blocks that are there are counted one by one, and a block that comes in
/// without any going makes the count grow.
pub proof fn law_held_blocks_are_counted(store: EdgeStore, ch: u32, n: int)
    requires
        0 <= n < 0x1_0000_0000,
    ensures
        held_blocks(store, ch, 0) == 0,
        store.holds(ch, n as u32) ==> held_blocks(store, ch, n + 1) == held_blocks(store, ch, n)
            + 1,
        !store.holds(ch, n as u32) ==> held_blocks(store, ch, n + 1) == held_blocks(store, ch, n),
{
}

/// The transactions are built anew, while decoding is on and a block of select
/// is there, when the configuration has changed or when more blocks of select or
/// of the clock are there than before.
pub proof fn law_transactions_follow_the_data(state: WaveformState, cs: int, clk: int)
    requires
        state.wf(),
        readout::plays(state.qspi, QspiRole::Cs, cs),
        readout::plays(state.qspi, QspiRole::Clk, clk),
    ensures
        transactions_outdated(state) <==> {
            &&& state.qspi.enabled
            &&& held_blocks(state.store, cs as u32, state.store.blocks_per_channel as int) > 0
            &&& {
                ||| state.transactions_config_gen != state.qspi_config_gen
                ||| held_blocks(state.store, cs as u32, state.store.blocks_per_channel as int)
                    > state.cs_blocks_at_last_tx_build
                ||| held_blocks(state.store, clk as u32, state.store.blocks_per_channel as int)
                    > state.clk_blocks_at_last_tx_build
            }
        },
{
    readout::law_first_player_is_taken(state.qspi, QspiRole::Cs, cs);
    readout::law_first_player_is_taken(state.qspi, QspiRole::Clk, clk);
}

/// Statistics are wanted while decoding is on, transactions are there, every
/// role is played, and those that are there come from another generation.
pub proof fn law_stats_are_wanted(state: WaveformState)
    ensures
        stats_wanted(state) <==> {
            &&& state.qspi.enabled
            &&& state.transactions@.len() > 0
            &&& state.stats_config_gen != state.transactions_config_gen
            &&& forall|role: QspiRole| #[trigger] state.qspi.channel_roles@.contains(role)
        },
{
    if state.qspi.complete() {
        assert forall|role: QspiRole| #[trigger] state.qspi.channel_roles@.contains(role) by {
            readout::law_first_player_is_taken(state.qspi, role, 0);
        }
    }
    readout::law_first_player_is_taken(state.qspi, QspiRole::Clk, 0);
    readout::law_first_player_is_taken(state.qspi, QspiRole::Cs, 0);
    readout::law_first_player_is_taken(state.qspi, QspiRole::D0, 0);
    readout::law_first_player_is_taken(state.qspi, QspiRole::D1, 0);
    readout::law_first_player_is_taken(state.qspi, QspiRole::D2, 0);
    readout::law_first_player_is_taken(state.qspi, QspiRole::D3, 0);
}

/// A jump within a group goes to a transaction of that very group, forward
/// whenever the group has one ahead, and to none if there is no such group.
pub proof fn law_jump_stays_in_the_group(state: WaveformState, group: usize, margin: u64)
    requires
        state.wf(),
    ensures
        state.packet_stats is None ==> group_jump(state, group, margin) is None,
        state.packet_stats matches Some(stats) ==> {
            &&& group >= stats.groups.groups@.len() ==> group_jump(state, group, margin) is None
            &&& group < stats.groups.groups@.len() ==> (group_jump(state, group, margin) matches
                Some(start) && exists|i: int|
                0 <= i < stats.groups.groups@[group as int].tx_indices@.len() && start == (
                #[trigger] state.transactions@[stats.groups.groups@[group as int].tx_indices@[i] as int]).start)
            &&& group < stats.groups.groups@.len() && (exists|i: int|
                0 <= i < stats.groups.groups@[group as int].tx_indices@.len() && (
                #[trigger] state.transactions@[stats.groups.groups@[group as int].tx_indices@[i] as int]).start
                    > state.view.sample_offset + margin) ==> (group_jump(state, group, margin)
                matches Some(start) && start > state.view.sample_offset + margin)
        },
{
    if let Some(stats) = state.packet_stats {
        if group < stats.groups.groups@.len() {
            let members = stats.groups.groups@[group as int].tx_indices@;
            assert(members.len() > 0);
            summary::law_group_jump_lands(
                state.transactions@,
                members,
                state.view.sample_offset + margin,
            );
        }
    }
}

/// A capture opens with all its channels, at its start, with nothing loaded or
/// decoded, and with the roles dealt out in turn.
pub proof fn law_capture_opens_whole(state: WaveformState, project: DslProject, ch: u32, blk: u32)
    requires
        state.wf(),
        state.initial(project),
    ensures
        state.view.sample_offset == 0,
        state.view.total_samples == project.header.total_samples,
        state.store.num_channels == project.header.total_probes,
        state.store.blocks_per_channel == project.header.total_blocks,
        state.store.total_samples == project.header.total_samples,
        state.samplerate_hz == project.header.samplerate_hz,
        !state.store.holds(ch, blk),
        ch < project.header.total_probes ==> {
            &&& state.store.transitions(ch as int) == Seq::<u64>::empty()
            &&& state.qspi.channel_roles@[ch as int] == qspi::initial_role(ch as int)
        },
        state.qspi.channel_roles@.len() == project.header.total_probes,
        state.channel_names@.len() == parser::names_of(project).len(),
        0 <= ch < state.channel_names@.len() ==> state.channel_names@[ch as int]@
            == parser::names_of(project)[ch as int],
        !state.qspi.enabled,
        !state.exclude_timing_outliers,
        state.transactions@.len() == 0,
        state.packet_stats is None,
        state.transactions_config_gen != state.qspi_config_gen,
        forall|key: u64| !state.requested@.contains(key),
{
    let names = parser::texts(state.channel_names@);
    assert(names.len() == state.channel_names@.len());
    if ch < names.len() {
        assert(names[ch as int] == state.channel_names@[ch as int]@);
    }
    assert(state.store.holds(ch, blk) <==> ch < state.store.num_channels
        && state.store.channels@[ch as int].edges().contains_key(blk));
    if ch < state.store.num_channels {
        let model = state.store.model();
        assert(model[ch as int] == edges::empty_channel());
        assert(model[ch as int].edges == state.store.channels@[ch as int].edges());
        assert(model[ch as int].merged.transitions == state.store.transitions(ch as int));
    }
}

/// Where no channel plays the clock, only the configuration and the blocks of
/// select decide whether the transactions are built anew, and where none plays
/// select they never are.
pub proof fn law_transactions_without_a_line_follow_select(state: WaveformState, cs: int)
    requires
        state.wf(),
    ensures
        !state.qspi.channel_roles@.contains(QspiRole::Cs) ==> !transactions_outdated(state),
        readout::plays(state.qspi, QspiRole::Cs, cs) && !state.qspi.channel_roles@.contains(
            QspiRole::Clk,
        ) ==> (transactions_outdated(state) <==> {
            &&& state.qspi.enabled
            &&& held_blocks(state.store, cs as u32, state.store.blocks_per_channel as int) > 0
            &&& {
                ||| state.transactions_config_gen != state.qspi_config_gen
                ||| held_blocks(state.store, cs as u32, state.store.blocks_per_channel as int)
                    > state.cs_blocks_at_last_tx_build
            }
        }),
{
    readout::law_first_player_is_taken(state.qspi, QspiRole::Cs, cs);
    readout::law_first_player_is_taken(state.qspi, QspiRole::Clk, 0);
}

/// A state is its recording, its configuration, its results and what has been
/// asked for: where two agree on all of these, they are the same.
pub proof fn law_nothing_else_is_kept(a: WaveformState, b: WaveformState)
    ensures
        same_recording(a, b) && same_config(a, b) && same_results(a, b) && a.requested
            == b.requested ==> a == b,
        a == b ==> same_recording(a, b) && same_config(a, b) && same_results(a, b),
{
}

/// Counting on from the generation before one gives that one, round the end of
/// the numbers too, so that the two never are the same.
pub proof fn law_generation_before_is_another(gen: u64)
    ensures
        (generation_before(gen) + 1) % 0x1_0000_0000_0000_0000 == gen,
        generation_before(gen) != gen,
{
}

} // verus!
