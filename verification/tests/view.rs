use visor::waveform::blocks::SAMPLES_PER_BLOCK;
use visor::waveform::edges::EdgeStore;
use visor::waveform::qspi::{QspiConfig, QspiRole, Transaction};
use visor::waveform::shown::{
    ended_before, has_missing_data, nav_targets, started_by, trace_steps, unknown_spans,
    visible_transactions, Step,
};
use visor::waveform::state::{StatsStep, WaveformState};
use visor::waveform::viewport::{Pan, ViewState};

fn state(blocks: u32) -> WaveformState {
    let total = blocks as u64 * SAMPLES_PER_BLOCK;
    WaveformState {
        view: ViewState::new(total),
        store: EdgeStore::new(6, blocks, total),
        channel_names: (0..6).map(|i| format!("ch{i}")).collect(),
        qspi: QspiConfig::new(6),
        samplerate_hz: 1_000_000,
        transactions: Vec::new(),
        transactions_config_gen: 0,
        qspi_config_gen: 1,
        cs_blocks_at_last_tx_build: 0,
        clk_blocks_at_last_tx_build: 0,
        packet_stats: None,
        stats_config_gen: 0,
        exclude_timing_outliers: false,
        requested: Default::default(),
    }
}

#[test]
fn a_view_starts_at_the_front() {
    let view = ViewState::new(1000);
    assert_eq!((view.sample_offset, view.total_samples), (0, 1000));
    assert_eq!(view.max_offset(300), 700);
    assert_eq!(view.max_offset(2000), 0);
    let layout = view.layout(300, 4);
    assert_eq!((layout.channel_count, layout.first_sample), (4, 0));
    assert_eq!((layout.viewport_samples, layout.total_samples), (300, 1000));
    assert_eq!(layout.last_sample(), Some(300));
}

#[test]
fn moves_stop_at_the_ends() {
    let mut view = ViewState::new(1000);
    view.pan(Pan::Forward(250), 300);
    assert_eq!(view.sample_offset, 250);
    view.pan(Pan::Back(250), 300);
    assert_eq!(view.sample_offset, 0);
    view.pan(Pan::Forward(u64::MAX), 300);
    assert_eq!(view.sample_offset, 700);
    view.pan(Pan::Back(u64::MAX), 300);
    assert_eq!(view.sample_offset, 0);
    view.zoom(650, 400);
    assert_eq!(view.sample_offset, 600);
    view.zoom(10, 400);
    assert_eq!(view.sample_offset, 10);
    view.jump(500, 100);
    assert_eq!(view.sample_offset, 400);
    view.jump(50, 100);
    assert_eq!(view.sample_offset, 0);
    view.jump(990, 0);
    view.clamp(300);
    assert_eq!(view.sample_offset, 700);
    view.clamp(300);
    assert_eq!((view.sample_offset, view.total_samples), (700, 1000));
}

#[test]
fn a_viewport_may_reach_beyond_all_samples() {
    let mut view = ViewState::new(u64::MAX);
    view.jump(u64::MAX, 10);
    assert_eq!(view.layout(10, 1).last_sample(), Some(u64::MAX));
    assert_eq!(view.layout(11, 1).last_sample(), None);
}

#[test]
fn switching_decoding_starts_a_new_generation() {
    let mut s = state(1);
    s.set_enabled(false);
    assert_eq!(s.qspi_config_gen, 1);
    s.set_enabled(true);
    assert!(s.qspi.enabled);
    assert_eq!(s.qspi_config_gen, 2);
    s.assign_role(0, QspiRole::D0);
    assert_eq!(s.qspi_config_gen, 2);
    s.assign_role(0, QspiRole::Cs);
    assert_eq!(s.qspi_config_gen, 3);
    assert_eq!(s.qspi.channel_for(QspiRole::D0), Some(5));
}

#[test]
fn requests_are_made_once_unless_they_fail() {
    let mut s = state(2);
    assert!(s.request_block(1, 0));
    assert!(!s.request_block(1, 0));
    assert!(s.request_block(0, 1));
    s.request_failed(1, 0);
    assert!(s.request_block(1, 0));
    s.receive_block(2, 0, &[0]);
    assert!(!s.request_block(2, 0));
}

/// Levels of a bus with two packets, packed into one byte per channel and
/// eight samples.
fn feed(s: &mut WaveformState, blk: u32) {
    // Samples: select low from 2 to 11; clock rises at 3, 5, 7, 9.
    let clk: [u8; 2] = [0b1010_1000, 0b0000_0010];
    let cs: [u8; 2] = [0b0000_0011, 0b1111_1000];
    let d0: [u8; 2] = [0b0001_1000, 0b0000_0110];
    for (ch, raw) in [(4u32, clk), (5, cs), (0, d0)] {
        s.receive_block(ch, blk, &raw);
    }
    for ch in 1..4u32 {
        s.receive_block(ch, blk, &[0, 0]);
    }
}

#[test]
fn transactions_and_statistics_follow_the_data() {
    let mut s = state(2);
    assert!(s.transaction_plan().is_empty());
    assert!(!s.rebuild_transactions());
    s.set_enabled(true);
    assert_eq!(s.transaction_plan(), vec![(5, 0), (5, 1), (4, 0), (4, 1)]);
    assert!(!s.rebuild_transactions());
    assert!(matches!(s.stats_step(), StatsStep::Idle));

    s.receive_block(5, 0, &[0b0000_0011, 0b1111_1000]);
    assert!(s.rebuild_transactions());
    assert!(!s.rebuild_transactions());
    // Without the clock there is no transaction yet.
    assert!(s.transactions.is_empty());
    assert!(matches!(s.stats_step(), StatsStep::Idle));
    s.receive_block(4, 0, &[0b1010_1000, 0b0000_0010]);
    assert!(s.rebuild_transactions());
    assert!(!s.rebuild_transactions());
    assert_eq!(s.clk_blocks_at_last_tx_build, 1);
    assert_eq!(s.transactions.len(), 1);
    assert_eq!((s.transactions[0].start, s.transactions[0].end), (2, 11));
    assert_eq!(s.transactions_config_gen, s.qspi_config_gen);
    assert_ne!(s.stats_config_gen, s.transactions_config_gen);

    match s.stats_step() {
        StatsStep::Load(plan) => {
            assert_eq!(plan, vec![(4, 0), (5, 0), (0, 0), (1, 0), (2, 0), (3, 0)]);
        }
        _ => panic!("blocks are missing"),
    }
    feed(&mut s, 0);
    assert!(matches!(s.stats_step(), StatsStep::Compute));
    assert!(s.can_compute_stats());
    s.compute_stats();
    assert!(matches!(s.stats_step(), StatsStep::Idle));
    let stats = s.packet_stats.as_ref().unwrap();
    assert_eq!(stats.packets.len(), 1);
    assert_eq!(stats.packets[0].bytes, vec![0x10, 0x01]);

    s.toggle_exclude_timing_outliers();
    assert!(s.exclude_timing_outliers);
    assert!(matches!(s.stats_step(), StatsStep::Compute));
    s.compute_stats();

    // More of the select line makes the transactions out of date.
    s.receive_block(5, 1, &[0xff]);
    assert!(s.rebuild_transactions());
    assert!(s.packet_stats.is_none());
    // So does more of the clock.
    assert!(!s.rebuild_transactions());
    s.receive_block(4, 1, &[0]);
    assert!(s.rebuild_transactions());
    // So does another configuration.
    s.assign_role(0, QspiRole::D1);
    assert!(s.rebuild_transactions());
    assert!(!s.rebuild_transactions());
}

#[test]
fn statistics_ask_for_blocks_up_to_the_last_transaction() {
    let mut s = state(3);
    s.set_enabled(true);
    for blk in 0..3 {
        s.receive_block(5, blk, &[0b1111_1001]);
        s.receive_block(4, blk, &[0b0000_0100]);
    }
    assert!(s.rebuild_transactions());
    assert_eq!(s.transactions.len(), 3);
    match s.stats_step() {
        StatsStep::Load(plan) => {
            assert_eq!(plan.len(), 18);
            assert_eq!(plan[0], (4, 0));
            assert_eq!(plan[6], (4, 1));
            assert_eq!(plan[17], (3, 2));
        }
        _ => panic!("blocks are missing"),
    }
}

#[test]
fn jumps_move_the_view() {
    let mut s = state(1);
    s.set_enabled(true);
    feed(&mut s, 0);
    assert!(s.rebuild_transactions());
    assert!(matches!(s.stats_step(), StatsStep::Compute));
    s.compute_stats();
    s.view.sample_offset = 1000;
    s.jump_in_group(0, 105, 1);
    assert_eq!(s.view.sample_offset, 1);
    s.jump_in_group(7, 0, 0);
    assert_eq!(s.view.sample_offset, 1);
    s.jump_to_period(0, 0);
    assert_eq!(s.view.sample_offset, 1);
    s.transactions.push(Transaction { start: 40, end: 50 });
    s.jump_to_period(0, 15);
    assert_eq!(s.view.sample_offset, 25);
}

fn windows(pairs: &[(u64, u64)]) -> Vec<Transaction> {
    pairs.iter().map(|&(start, end)| Transaction { start, end }).collect()
}

#[test]
fn buttons_lead_to_the_neighbours() {
    let txs = windows(&[(0, 10), (20, 30), (40, 50), (60, 70)]);
    assert_eq!(ended_before(&txs, 31), 2);
    assert_eq!(ended_before(&txs, 30), 1);
    assert_eq!(started_by(&txs, 40), 3);
    assert_eq!(started_by(&txs, 39), 2);
    let nav = nav_targets(&txs, 31, 45);
    assert_eq!((nav.prev, nav.next), (Some(20), Some(60)));
    let nav = nav_targets(&txs, 5, 100);
    assert_eq!((nav.prev, nav.next), (None, None));
    let nav = nav_targets(&[], 5, 100);
    assert_eq!((nav.prev, nav.next), (None, None));
}

#[test]
fn a_viewport_shows_the_transactions_that_reach_into_it() {
    let txs = windows(&[(0, 10), (20, 30), (40, 50), (60, 70)]);
    for first in 0..80u64 {
        for last in first..80 {
            let (lo, hi) = visible_transactions(&txs, first, last);
            for (i, t) in txs.iter().enumerate() {
                assert_eq!(lo <= i && i < hi, t.end >= first && t.start <= last);
            }
        }
    }
}

#[test]
fn unknown_parts_are_the_blocks_that_are_not_there() {
    let n = SAMPLES_PER_BLOCK;
    let mut store = EdgeStore::new(2, 3, 3 * n);
    store.apply_loaded(0, 1, &[0]);
    assert_eq!(unknown_spans(&store, 0, 5, 3 * n), vec![(5, n), (2 * n, 3 * n)]);
    assert_eq!(unknown_spans(&store, 0, n, 2 * n), vec![]);
    assert_eq!(unknown_spans(&store, 1, n + 1, n + 7), vec![(n + 1, n + 7)]);
    assert!(has_missing_data(&store, n, 2 * n));
    store.apply_loaded(1, 1, &[0]);
    assert!(!has_missing_data(&store, n, 2 * n));
    assert!(has_missing_data(&store, n, 2 * n + 1));
    assert!(!has_missing_data(&store, 5 * n, 6 * n));
}

#[test]
fn a_trace_follows_its_edges() {
    assert_eq!(trace_steps(0, &vec![]), vec![]);
    assert_eq!(
        trace_steps(1, &vec![1, 2, 3, 300]),
        vec![
            Step { before: 1, after: 0 },
            Step { before: 0, after: 0 },
            Step { before: 0, after: 1 },
            Step { before: 1, after: 1 },
        ]
    );
}
