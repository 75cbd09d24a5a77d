use visor::waveform::blocks::SAMPLES_PER_BLOCK;
use visor::waveform::edges::EdgeStore;
use visor::waveform::qspi::{
    decode_qspi, find_transactions, rising_edges, roles_in_order, QspiConfig, QspiRole,
    Transaction,
};
use visor::waveform::qspi_stats::{
    can_decode, crc32, sum_of_first, tally, DecodedPacket, PacketGroups, PacketStats, TimingStats,
};
use visor::waveform::signal::{is_sorted, ChannelView};
use visor::waveform::summary::next_in_group;

/// Raw bytes of a channel from its levels.
fn packed(levels: &[u8]) -> Vec<u8> {
    levels
        .chunks(8)
        .map(|c| c.iter().enumerate().fold(0u8, |b, (i, &v)| b | (v << i)))
        .collect()
}

/// Channels D0..D3, CLK and CS of a bus that sends packets. Each byte takes two
/// clock periods of two samples, the high nibble first.
fn bus(packets: &[&[u8]], gap: usize) -> [Vec<u8>; 6] {
    let mut lines: [Vec<u8>; 6] = Default::default();
    fn put(lines: &mut [Vec<u8>; 6], nibble: u8, clk: u8, cs: u8) {
        for k in 0..4 {
            lines[k].push((nibble >> k) & 1);
        }
        lines[4].push(clk);
        lines[5].push(cs);
    }
    for packet in packets {
        for _ in 0..gap {
            put(&mut lines, 0, 0, 1);
        }
        put(&mut lines, 0, 0, 0);
        for byte in *packet {
            for nibble in [byte >> 4, byte & 15] {
                put(&mut lines, nibble, 0, 0);
                put(&mut lines, nibble, 1, 0);
            }
        }
        put(&mut lines, 0, 0, 0);
    }
    for _ in 0..gap {
        put(&mut lines, 0, 0, 1);
    }
    while lines[0].len() % 8 != 0 {
        put(&mut lines, 0, 0, 1);
    }
    lines
}

fn store_of(lines: &[Vec<u8>; 6]) -> EdgeStore {
    let mut store = EdgeStore::new(6, 1, lines[0].len() as u64);
    for (ch, levels) in lines.iter().enumerate() {
        store.apply_loaded(ch as u32, 0, &packed(levels));
    }
    store
}

#[test]
fn roles_are_dealt_out_in_turn() {
    let config = QspiConfig::new(8);
    assert!(!config.enabled);
    assert_eq!(
        config.channel_roles,
        vec![
            QspiRole::D0,
            QspiRole::D1,
            QspiRole::D2,
            QspiRole::D3,
            QspiRole::Clk,
            QspiRole::Cs,
            QspiRole::D0,
            QspiRole::D1,
        ]
    );
    assert_eq!(config.channel_for(QspiRole::Clk), Some(4));
    assert_eq!(config.channel_for(QspiRole::D0), Some(0));
    assert_eq!(QspiConfig::new(3).channel_for(QspiRole::Cs), None);
    let labels: Vec<&str> = QspiRole::all().iter().map(|r| r.label()).collect();
    assert_eq!(labels, vec!["CLK", "!CS", "D0", "D1", "D2", "D3"]);
}

#[test]
fn taking_a_role_swaps_it() {
    let mut config = QspiConfig::new(6);
    assert!(config.assign_role(0, QspiRole::Cs));
    assert_eq!(config.channel_roles[0], QspiRole::Cs);
    assert_eq!(config.channel_roles[5], QspiRole::D0);
    assert!(!config.assign_role(0, QspiRole::Cs));
    for role in QspiRole::all() {
        assert_eq!(config.channel_roles.iter().filter(|&&r| r == role).count(), 1);
    }
    let mut few = QspiConfig::new(2);
    assert!(few.assign_role(1, QspiRole::Clk));
    assert_eq!(few.channel_roles, vec![QspiRole::D0, QspiRole::Clk]);
}

#[test]
fn transactions_are_the_windows_with_a_clock_edge() {
    let lines = bus(&[&[0x12], &[], &[0xab, 0xcd]], 3);
    let store = store_of(&lines);
    let config = QspiConfig::new(6);
    let found = find_transactions(&store, &config);
    let (clk, cs) = (&lines[4], &lines[5]);
    let mut expected: Vec<(u64, u64)> = Vec::new();
    let mut windows = 0;
    let mut s = 0;
    while s < cs.len() {
        let start = s;
        while s < cs.len() && cs[s] == cs[start] {
            s += 1;
        }
        if cs[start] == 0 {
            windows += 1;
            if (start..s).any(|i| i > 0 && clk[i] != clk[i - 1]) {
                expected.push((start as u64, s as u64));
            }
        }
    }
    assert_eq!((windows, expected.len()), (3, 2));
    let pairs: Vec<(u64, u64)> = found.iter().map(|t| (t.start, t.end)).collect();
    assert_eq!(pairs, expected);
    for w in found.windows(2) {
        assert!(w[0].start < w[0].end && w[0].end < w[1].start);
    }
}

fn pairs(store: &EdgeStore, config: &QspiConfig) -> Vec<(u64, u64)> {
    find_transactions(store, config).iter().map(|t| (t.start, t.end)).collect()
}

#[test]
fn a_window_may_begin_and_end_with_the_recording() {
    let config = QspiConfig::new(6);
    let mut store = EdgeStore::new(6, 1, 16);
    store.apply_loaded(5, 0, &[0xf0, 0x0f]);
    // Without an edge of the clock a window is no transaction.
    assert!(pairs(&store, &config).is_empty());
    // The clock flips at samples 3, 4, 12 and 13.
    store.apply_loaded(4, 0, &[0x08, 0x10]);
    assert_eq!(pairs(&store, &config), vec![(0, 4), (12, 16)]);
    // Without a select line there is nothing to find.
    assert!(pairs(&store, &QspiConfig::new(3)).is_empty());
}

#[test]
fn an_edge_counts_from_the_start_of_a_window_and_not_at_its_end() {
    let config = QspiConfig::new(6);
    // The select line is low from 4 to 8; the clock flips at one sample.
    for (clk, expected) in [
        ([0xf8u8, 0xff], vec![]),
        ([0xf0, 0xff], vec![(4, 8)]),
        ([0x80, 0xff], vec![(4, 8)]),
        ([0x00, 0xff], vec![]),
    ] {
        let mut store = EdgeStore::new(6, 1, 16);
        store.apply_loaded(5, 0, &[0x0f, 0xff]);
        store.apply_loaded(4, 0, &clk);
        assert_eq!(pairs(&store, &config), expected);
    }
}

#[test]
fn a_clock_that_stands_still_has_no_transactions() {
    let mut store = EdgeStore::new(6, 1, 8);
    store.apply_loaded(4, 0, &[0]);
    store.apply_loaded(5, 0, &[0]);
    assert!(pairs(&store, &QspiConfig::new(6)).is_empty());
    // Where no channel plays the clock, the window itself counts.
    let config = QspiConfig { enabled: true, channel_roles: vec![QspiRole::D0, QspiRole::Cs] };
    let mut store = EdgeStore::new(2, 1, 8);
    store.apply_loaded(1, 0, &[0]);
    assert_eq!(pairs(&store, &config), vec![(0, 8)]);
}

#[test]
fn long_blocks_may_bring_a_channel_out_of_order() {
    let full = (SAMPLES_PER_BLOCK / 8) as usize;
    let mut long = vec![0u8; full + 1];
    long[full] = 0xaa;
    let config = QspiConfig::new(6);
    let mut store = EdgeStore::new(6, 2, 2 * SAMPLES_PER_BLOCK);
    store.apply_loaded(4, 0, &long);
    assert!(roles_in_order(&store, &config));
    store.apply_loaded(4, 1, &[0x02]);
    assert!(!is_sorted(store.channel(4).transitions));
    assert!(!roles_in_order(&store, &config));
    // Edges are found all the same.
    store.apply_loaded(5, 0, &[0]);
    assert_eq!(pairs(&store, &config), vec![(0, 2 * SAMPLES_PER_BLOCK)]);
}

#[test]
fn rising_edges_are_high() {
    let transitions = vec![2u64, 5, 6, 9, 11];
    let clk = ChannelView { first_value: 0, transitions: &transitions };
    assert_eq!(rising_edges(&clk, 0, 5), vec![2, 6, 11]);
    assert_eq!(rising_edges(&clk, 1, 4), vec![6]);
    let clk = ChannelView { first_value: 1, transitions: &transitions };
    assert_eq!(rising_edges(&clk, 0, 5), vec![5, 9]);
    for e in rising_edges(&clk, 0, 5) {
        assert_eq!(clk.value_at(e), 1);
        assert_eq!(clk.value_before(e), 0);
    }
}

#[test]
fn words_are_decoded_where_select_is_low() {
    let lines = bus(&[&[0x12, 0x34], &[0xab]], 5);
    let store = store_of(&lines);
    let config = QspiConfig::new(6);
    let end = lines[0].len() as u64;
    let words = decode_qspi(&store, &config, 0, end);
    let bytes: Vec<u8> = words.iter().map(|w| w.byte).collect();
    assert_eq!(bytes, vec![0x12, 0x34, 0xab]);
    for w in &words {
        assert!(w.sample_a < w.sample_b);
        assert_eq!(lines[5][w.sample_a as usize], 0);
        assert_eq!(lines[5][w.sample_b as usize], 0);
        assert_eq!(lines[4][w.sample_a as usize], 1);
    }
    for pair in words.windows(2) {
        assert!(pair[0].sample_b < pair[1].sample_a);
    }
    // A viewport shows the words that end in it.
    let last = &words[2];
    let tail = decode_qspi(&store, &config, last.sample_b, end);
    assert_eq!(tail.iter().map(|w| w.byte).collect::<Vec<u8>>(), vec![0xab]);
    assert!(decode_qspi(&store, &QspiConfig::new(5), 0, end).is_empty());
    assert!(decode_qspi(&store, &config, 0, 0).is_empty());
}

#[test]
fn a_single_clock_edge_is_no_word() {
    let mut lines = bus(&[&[0x5a]], 4);
    // Raise the select line after the first rising edge.
    let first_rise = (1..lines[4].len()).find(|&i| lines[4][i] == 1 && lines[4][i - 1] == 0);
    for i in first_rise.unwrap() + 1..lines[5].len() {
        lines[5][i] = 1;
    }
    let store = store_of(&lines);
    assert!(decode_qspi(&store, &QspiConfig::new(6), 0, lines[0].len() as u64).is_empty());
}

#[test]
fn fingerprints_are_crc32() {
    assert_eq!(crc32(b""), 0);
    assert_eq!(crc32(b"123456789"), 0xCBF4_3926);
    assert_eq!(crc32(b"The quick brown fox jumps over the lazy dog"), 0x414F_A339);
    assert_eq!(crc32(&[0; 4]), 0x2144_DF1C);
}

#[test]
fn one_changed_byte_changes_the_fingerprint() {
    let data = *b"some packet of bytes";
    let crc = crc32(&data);
    for i in 0..data.len() {
        for b in 0..=255u8 {
            let mut other = data;
            other[i] = b;
            assert_eq!(crc32(&other) == crc, b == data[i]);
        }
    }
}

#[test]
fn packets_are_decoded_and_grouped() {
    let mut lines = bus(&[&[1, 2], &[3], &[1, 2], &[], &[9], &[1, 2], &[3]], 4);
    // The packet of one byte 9 loses its second clock pulse, and so its byte.
    // The empty packet has no clock edge at all and is no transaction.
    let nine = (0..lines[0].len()).filter(|&i| lines[3][i] == 1 && lines[4][i] == 1).max();
    lines[4][nine.unwrap()] = 0;
    let store = store_of(&lines);
    let config = QspiConfig::new(6);
    let transactions = find_transactions(&store, &config);
    let stats = PacketStats::compute(&store, &config, &transactions, 1_000_000, false);
    let bytes: Vec<Vec<u8>> = stats.packets.iter().map(|p| p.bytes.clone()).collect();
    assert_eq!(
        bytes,
        vec![vec![1, 2], vec![3], vec![1, 2], vec![], vec![1, 2], vec![3]]
    );
    for (i, p) in stats.packets.iter().enumerate() {
        assert_eq!(p.tx_idx, i);
        assert_eq!(p.crc, crc32(&p.bytes));
    }
    let groups: Vec<(usize, Vec<usize>)> =
        stats.groups.groups.iter().map(|g| (g.byte_count, g.tx_indices.clone())).collect();
    assert_eq!(groups, vec![(0, vec![3]), (1, vec![1, 5]), (2, vec![0, 2, 4])]);
    assert_eq!(stats.groups.rows(), vec![2, 1, 0]);
    assert_eq!(stats.groups.outliers(3), 3);
    assert_eq!(stats.groups.outliers(2), 1);
    assert_eq!(stats.groups.outliers(1), 0);
    assert!(stats.timing.is_some());
    // Without the clock there are no statistics.
    let none = PacketStats::compute(&store, &QspiConfig::new(4), &transactions, 1_000_000, false);
    assert!(none.packets.is_empty() && none.groups.groups.is_empty() && none.timing.is_none());
}

#[test]
fn groups_partition_the_packets() {
    let packets: Vec<DecodedPacket> = (0..50usize)
        .map(|i| {
            let bytes = vec![(i * i % 7) as u8; i % 3];
            let crc = crc32(&bytes);
            DecodedPacket { bytes, crc, tx_idx: i }
        })
        .collect();
    let groups = PacketGroups::of(&packets);
    let mut seen = vec![0; packets.len()];
    for g in &groups.groups {
        for &i in &g.tx_indices {
            seen[i] += 1;
            assert_eq!((packets[i].bytes.len(), packets[i].crc), (g.byte_count, g.crc));
        }
    }
    assert!(seen.iter().all(|&n| n == 1));
    let rows = groups.rows();
    for w in rows.windows(2) {
        let (a, b) = (groups.groups[w[0]].tx_indices.len(), groups.groups[w[1]].tx_indices.len());
        assert!(a > b || (a == b && w[0] < w[1]));
    }
}

fn at(starts: &[u64]) -> Vec<Transaction> {
    starts.iter().map(|&s| Transaction { start: s, end: s + 1 }).collect()
}

#[test]
fn timing_of_regular_frames() {
    let t = TimingStats::compute(&at(&[0, 10, 20, 30, 40, 100]), 1_000_000, false).unwrap();
    assert_eq!(t.intervals, vec![10, 10, 10, 10, 60]);
    assert_eq!(t.period_outliers, vec![(4, 5, 60)]);
    assert_eq!((t.min, t.max, t.p50, t.p95, t.p99), (10, 60, 10, 60, 60));
    assert_eq!((t.counted, t.sum), (5, 100));
    assert!(!t.excludes_outliers);
    let t = TimingStats::compute(&at(&[0, 10, 20, 30, 40, 100]), 1_000_000, true).unwrap();
    assert_eq!((t.min, t.max, t.counted, t.sum), (10, 10, 4, 40));
    assert_eq!(t.intervals.len(), 5);
    assert!(t.excludes_outliers);
}

#[test]
fn a_period_of_twice_the_median_is_an_outlier() {
    let t = TimingStats::compute(&at(&[0, 10, 20, 40, 59]), 1, false).unwrap();
    assert_eq!(t.intervals, vec![10, 10, 19, 20]);
    assert!(t.period_outliers.is_empty());
    let t = TimingStats::compute(&at(&[0, 10, 20, 30, 50]), 1, false).unwrap();
    assert_eq!(t.period_outliers, vec![(3, 4, 20)]);
}

#[test]
fn there_is_no_timing_without_intervals_or_rate() {
    assert!(TimingStats::compute(&[], 1, false).is_none());
    assert!(TimingStats::compute(&at(&[5]), 1, false).is_none());
    assert!(TimingStats::compute(&at(&[5, 6]), 0, false).is_none());
    // Where the median is zero, every interval is an outlier.
    assert!(TimingStats::compute(&at(&[5, 5, 5, 9]), 1, true).is_none());
    let t = TimingStats::compute(&at(&[5, 5, 5, 9]), 1, false).unwrap();
    assert_eq!(t.period_outliers.len(), 3);
    // An interval never counts as negative.
    let t = TimingStats::compute(&at(&[9, 5]), 1, false).unwrap();
    assert_eq!(t.intervals, vec![0]);
}

#[test]
fn percentiles_agree_with_double_precision() {
    for n in 1..400usize {
        let starts: Vec<u64> = (0..=n as u64).map(|i| i * (i + 1) / 2).collect();
        let t = TimingStats::compute(&at(&starts), 1_000, false).unwrap();
        let mut sorted: Vec<u64> = (1..=n as u64).collect();
        sorted.sort();
        assert_eq!(t.intervals, sorted);
        assert_eq!(t.p50, sorted[n / 2]);
        assert_eq!(t.p95, sorted[(n as f64 * 0.95) as usize]);
        assert_eq!(t.p99, sorted[(n as f64 * 0.99) as usize]);
    }
}

fn expect_double_precision(starts: &[u64], rate: u64) {
    let us = 1_000_000.0 / rate as f64;
    let raw: Vec<f64> =
        starts.windows(2).map(|w| w[1].saturating_sub(w[0]) as f64 * us).collect();
    let mut sorted = raw.clone();
    sorted.sort_by(|a, b| a.partial_cmp(b).unwrap());
    let median = sorted[sorted.len() / 2];
    let outliers: Vec<usize> = (0..raw.len()).filter(|&i| raw[i] >= median * 2.0).collect();
    let below = sorted.partition_point(|&v| v < median * 2.0);
    for exclude in [false, true] {
        let counted = if exclude && !outliers.is_empty() { below } else { sorted.len() };
        let Some(t) = TimingStats::compute(&at(starts), rate, exclude) else {
            assert_eq!(counted, 0);
            continue;
        };
        let found: Vec<usize> = t.period_outliers.iter().map(|o| o.0).collect();
        assert_eq!(found, outliers);
        assert_eq!(t.counted, counted);
        assert_eq!(t.min as f64 * us, sorted[0]);
        assert_eq!(t.max as f64 * us, sorted[counted - 1]);
        assert_eq!(t.p50 as f64 * us, sorted[counted / 2]);
        assert_eq!(t.p95 as f64 * us, sorted[(counted as f64 * 0.95) as usize]);
        assert_eq!(t.p99 as f64 * us, sorted[(counted as f64 * 0.99) as usize]);
    }
}

#[test]
fn outlying_periods_agree_with_double_precision() {
    let mut x: u64 = 12345;
    for _ in 0..200 {
        let mut starts = vec![0u64];
        for _ in 0..20 {
            x = x.wrapping_mul(6364136223846793005).wrapping_add(1442695040888963407);
            let last = *starts.last().unwrap();
            starts.push(last + (x >> 33) % 40);
        }
        expect_double_precision(&starts, 1 + (x >> 40) % 400_000_000);
    }
}

#[test]
fn huge_periods_agree_with_double_precision() {
    let mut x: u64 = 99;
    for round in 0..400u64 {
        let mut starts = vec![0u64];
        for _ in 0..6 {
            x = x.wrapping_mul(6364136223846793005).wrapping_add(1442695040888963407);
            // Some starts lie beyond what a double can tell apart.
            let near = (1u64 << (round % 60)) + (x >> 60);
            let last = *starts.last().unwrap();
            starts.push(last.saturating_add(near << ((x >> 50) % 2)).min(u64::MAX - 1));
        }
        for rate in [1, 3, 1_000_003, x, u64::MAX] {
            expect_double_precision(&starts, rate.max(1));
        }
    }
}

#[test]
fn a_period_that_rounds_to_twice_the_median_is_an_outlier() {
    let median = 1u64 << 53;
    let long = (1u64 << 54) - 1;
    let starts = [0, median, 2 * median, 2 * median + long];
    for rate in [1_000_000, 48_000, 7] {
        let t = TimingStats::compute(&at(&starts), rate, true).unwrap();
        assert_eq!(t.intervals, vec![median, median, long]);
        assert_eq!(t.period_outliers, vec![(2, 3, long)]);
        assert_eq!((t.counted, t.sum), (2, 2 * median as u128));
    }
    expect_double_precision(&starts, 1_000_000);
}

#[test]
fn what_is_counted_lies_below_what_is_left_out() {
    let starts = [0, 5, 9, 30, 34, 90];
    let t = TimingStats::compute(&at(&starts), 250_000, true).unwrap();
    assert_eq!(t.intervals, vec![4, 4, 5, 21, 56]);
    assert_eq!(t.counted, 3);
    for (i, &v) in t.intervals.iter().enumerate() {
        assert_eq!(i < t.counted, v < 2 * t.intervals[2]);
    }
    assert_eq!(t.sum, 13);
    let n = t.counted as u128;
    assert!(t.min as u128 * n <= t.sum && t.sum <= t.max as u128 * n);
}

#[test]
fn sums_go_beyond_sixty_four_bits() {
    let ts = [u64::MAX, u64::MAX, 5];
    assert_eq!(sum_of_first(&ts, 0), 0);
    assert_eq!(sum_of_first(&ts, 2), 36_893_488_147_419_103_230);
    assert_eq!(sum_of_first(&ts, 3), 36_893_488_147_419_103_235);
}

#[test]
fn a_tally_counts_each_bucket() {
    assert_eq!(tally(&vec![2, 0, 2, 3, 2], 5), vec![1, 0, 3, 1, 0]);
    assert_eq!(tally(&vec![], 3), vec![0, 0, 0]);
    assert_eq!(tally(&vec![], 0), Vec::<usize>::new());
}

#[test]
fn a_tally_holds_every_entry() {
    let buckets: Vec<usize> = (0..97).map(|i| i * i % 13).collect();
    assert_eq!(tally(&buckets, 13).iter().sum::<usize>(), buckets.len());
}

#[test]
fn a_window_that_ends_before_it_starts_may_not_be_decodable() {
    let transitions = vec![10u64, 20];
    let clk = ChannelView { first_value: 0, transitions: &transitions };
    assert!(can_decode(&clk, &[Transaction { start: 0, end: 30 }]));
    assert!(can_decode(&clk, &[Transaction { start: 9, end: 5 }]));
    assert!(!can_decode(&clk, &[Transaction { start: 15, end: 5 }]));
    assert!(can_decode(&clk, &[]));
}

#[test]
fn jumps_in_a_group_go_round() {
    let txs = at(&[5, 50, 500]);
    assert_eq!(next_in_group(&txs, &[0, 2], 0, 4), Some(5));
    assert_eq!(next_in_group(&txs, &[0, 2], 0, 5), Some(500));
    assert_eq!(next_in_group(&txs, &[0, 2], 400, 100), Some(5));
    assert_eq!(next_in_group(&txs, &[1], 600, 0), Some(50));
    assert_eq!(next_in_group(&txs, &[], 0, 0), None);
}
