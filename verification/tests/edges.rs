use visor::waveform::blocks::{
    extract_block_transitions, offsets_fit, MAX_RAW_BYTES, SAMPLES_PER_BLOCK,
};
use visor::waveform::edges::{block_key, block_span, ChannelData, EdgeStore};
use visor::waveform::signal::{
    count_at_most, count_less, flipped, ChannelView, SparseChannel,
};

struct Lcg(u64);

impl Lcg {
    fn next(&mut self) -> u64 {
        self.0 = self.0.wrapping_mul(6364136223846793005).wrapping_add(1442695040888963407);
        self.0 >> 33
    }
}

fn bit(raw: &[u8], i: usize) -> u8 {
    (raw[i / 8] >> (i % 8)) & 1
}

fn random_block(rng: &mut Lcg, len: usize) -> Vec<u8> {
    (0..len)
        .map(|_| match rng.next() % 4 {
            0 => 0x00,
            1 => 0xff,
            _ => rng.next() as u8,
        })
        .collect()
}

#[test]
fn block_transitions_are_the_flips_of_its_bits() {
    assert_eq!(extract_block_transitions(&[]), (0, vec![]));
    assert_eq!(extract_block_transitions(&[0x00]), (0, vec![]));
    assert_eq!(extract_block_transitions(&[0xff]), (1, vec![]));
    assert_eq!(extract_block_transitions(&[0x0f]), (1, vec![4]));
    assert_eq!(extract_block_transitions(&[0xf0]), (0, vec![4]));
    assert_eq!(extract_block_transitions(&[0x55]), (1, vec![1, 2, 3, 4, 5, 6, 7]));
    assert_eq!(extract_block_transitions(&[0x00, 0xff, 0x00, 0x01]), (0, vec![8, 16, 24, 25]));
    assert_eq!(extract_block_transitions(&[0xff, 0x00, 0xff]), (1, vec![8, 16]));
}

#[test]
fn block_edges_give_back_every_bit() {
    let mut rng = Lcg(1);
    for len in [1usize, 2, 7, 64] {
        let raw = random_block(&mut rng, len);
        let (first_value, flips) = extract_block_transitions(&raw);
        let channel = SparseChannel {
            first_value,
            transitions: flips.iter().map(|&t| t as u64).collect(),
        };
        for i in 0..8 * len {
            assert_eq!(channel.value_at(i as u64), bit(&raw, i));
        }
    }
}

#[test]
fn sparse_channel_counts_and_slices() {
    let channel = SparseChannel { first_value: 1, transitions: vec![3, 5, 5, 9] };
    assert_eq!(channel.value_at(0), 1);
    assert_eq!(channel.value_at(2), 1);
    assert_eq!(channel.value_at(3), 0);
    assert_eq!(channel.value_at(5), 0);
    assert_eq!(channel.value_at(9), 1);
    assert_eq!(channel.value_at(u64::MAX), 1);
    assert_eq!(channel.transitions_in_range(3, 9).to_vec(), vec![3, 5, 5]);
    assert_eq!(channel.transitions_in_range(4, 5).to_vec(), Vec::<u64>::new());
    assert_eq!(channel.transition_count_in_range(0, 10), 4);
    assert_eq!(channel.transition_count_in_range(5, 9), 2);
    assert_eq!(channel.transition_count_in_range(7, 7), 0);
    assert_eq!(SparseChannel::new().value_at(12), 0);
}

#[test]
fn many_flips_keep_their_parity() {
    let channel = SparseChannel { first_value: 1, transitions: (1..=1000).collect() };
    for s in 0..1000u64 {
        assert_eq!(channel.value_at(s) as u64, (1 + s) % 2);
    }
    assert_eq!(flipped(1, 255), 0);
    assert_eq!(flipped(1, 256), 1);
    assert_eq!(flipped(0, 0), 0);
}

#[test]
fn view_reads_like_the_channel() {
    let transitions = vec![2u64, 4, 8];
    let view = ChannelView { first_value: 0, transitions: &transitions };
    assert_eq!(view.value_at(1), 0);
    assert_eq!(view.value_at(2), 1);
    assert_eq!(view.value_before(2), 0);
    assert_eq!(view.value_before(3), 1);
    assert_eq!(view.value_before(0), 0);
    assert_eq!(view.transitions_in_range(2, 8).to_vec(), vec![2, 4]);
    assert_eq!(count_less(&transitions, 4), 1);
    assert_eq!(count_at_most(&transitions, 4), 2);
    assert_eq!(count_at_most(&transitions, u64::MAX), 3);
}

#[test]
fn blocks_are_chained_with_boundary_transitions() {
    let mut data = ChannelData::new();
    data.ingest_raw(0, &[0x0f]);
    assert_eq!(data.resolved.transitions, vec![4]);
    assert_eq!((data.resolved_tail, data.tail_value), (Some(0), 0));
    // The next block begins high, so the boundary is a transition.
    data.ingest_raw(1, &[0x03]);
    assert_eq!(
        data.resolved.transitions,
        vec![4, SAMPLES_PER_BLOCK, SAMPLES_PER_BLOCK + 2]
    );
    assert_eq!((data.resolved_tail, data.tail_value), (Some(1), 0));
    // This one begins low, as the last one ended.
    data.ingest_raw(2, &[0xfc]);
    assert_eq!(data.resolved.transitions[3], 2 * SAMPLES_PER_BLOCK + 2);
    assert_eq!((data.resolved_tail, data.tail_value), (Some(2), 1));
}

#[test]
fn merging_stops_at_a_gap_and_goes_no_further_than_asked() {
    let mut data = ChannelData::new();
    data.ingest_raw(1, &[0x01]);
    assert_eq!(data.resolved_tail, None);
    data.ingest_raw(0, &[0x00]);
    assert_eq!(data.resolved_tail, Some(0));
    data.ingest_raw(2, &[0x00]);
    assert_eq!(data.resolved_tail, Some(2));
    assert_eq!(
        data.resolved.transitions,
        vec![SAMPLES_PER_BLOCK, SAMPLES_PER_BLOCK + 1]
    );
}

#[test]
fn merging_more_keeps_what_was_merged() {
    let mut rng = Lcg(5);
    let mut data = ChannelData::new();
    let mut before: Vec<u64> = Vec::new();
    for blk in 0..20u32 {
        let raw = random_block(&mut rng, 9);
        data.ingest_raw(blk, &raw);
        let now = data.resolved.transitions.clone();
        assert_eq!(&now[..before.len()], &before[..]);
        assert!(now.windows(2).all(|w| w[0] < w[1]));
        before = now;
    }
}

#[test]
fn a_store_reads_back_the_raw_blocks() {
    let mut rng = Lcg(9);
    let mut store = EdgeStore::new(3, 4, 4 * SAMPLES_PER_BLOCK);
    let raws: Vec<Vec<Vec<u8>>> = (0..3)
        .map(|_| (0..4).map(|_| random_block(&mut rng, 33)).collect())
        .collect();
    for blk in 0..4u32 {
        for ch in [2u32, 0, 1] {
            store.apply_loaded(ch, blk, &raws[ch as usize][blk as usize]);
        }
    }
    for ch in 0..3u32 {
        let view = store.channel(ch);
        for blk in 0..4u64 {
            let raw = &raws[ch as usize][blk as usize];
            for off in 0..8 * raw.len() {
                assert_eq!(view.value_at(blk * SAMPLES_PER_BLOCK + off as u64), bit(raw, off));
            }
        }
    }
}

#[test]
fn full_blocks_read_back_across_their_boundary() {
    let full = (SAMPLES_PER_BLOCK / 8) as usize;
    let mut store = EdgeStore::new(1, 2, 2 * SAMPLES_PER_BLOCK);
    let mut first = vec![0u8; full];
    first[full - 1] = 0x80;
    let mut second = vec![0xffu8; full];
    second[0] = 0xfe;
    store.apply_loaded(0, 0, &first);
    store.apply_loaded(0, 1, &second);
    let view = store.channel(0);
    assert_eq!(
        view.transitions.to_vec(),
        vec![SAMPLES_PER_BLOCK - 1, SAMPLES_PER_BLOCK, SAMPLES_PER_BLOCK + 1]
    );
    assert_eq!(view.value_at(SAMPLES_PER_BLOCK - 2), 0);
    assert_eq!(view.value_at(SAMPLES_PER_BLOCK - 1), 1);
    assert_eq!(view.value_at(SAMPLES_PER_BLOCK), 0);
    assert_eq!(view.value_at(2 * SAMPLES_PER_BLOCK - 1), 1);
}

#[test]
fn a_block_is_ingested_once() {
    let mut store = EdgeStore::new(2, 2, 16);
    assert!(!store.is_block_ingested(0, 0));
    store.apply_loaded(0, 0, &[0x0f]);
    assert!(store.is_block_ingested(0, 0));
    assert!(!store.is_block_ingested(1, 0));
    assert!(!store.is_block_ingested(0, 1));
    store.apply_loaded(0, 0, &[0xff]);
    assert_eq!(store.channel(0).first_value, 1);
    assert_eq!(store.channel(0).transitions.to_vec(), vec![4]);
}

#[test]
fn first_values_come_from_block_zero() {
    let mut store = EdgeStore::new(2, 2, 16);
    store.apply_loaded(1, 1, &[0x01]);
    assert_eq!(store.channel(1).first_value, 0);
    store.apply_loaded(1, 0, &[0x01]);
    assert_eq!(store.channel(1).first_value, 1);
    store.apply_loaded(0, 0, &[]);
    assert_eq!(store.channel(0).first_value, 0);
    assert!(store.is_block_ingested(0, 0));
}

#[test]
fn a_plan_covers_its_range() {
    let store = EdgeStore::new(2, 4, 4 * SAMPLES_PER_BLOCK);
    assert_eq!(store.range_plan(0, 1), vec![(0, 0), (0, 0), (1, 0), (1, 0)]);
    assert_eq!(
        store.range_plan(SAMPLES_PER_BLOCK, 3 * SAMPLES_PER_BLOCK),
        vec![(0, 0), (0, 1), (0, 2), (1, 0), (1, 1), (1, 2)]
    );
    assert_eq!(
        store.range_plan(3 * SAMPLES_PER_BLOCK, u64::MAX),
        vec![(0, 0), (0, 3), (1, 0), (1, 3)]
    );
    assert_eq!(store.range_plan(9 * SAMPLES_PER_BLOCK, u64::MAX), vec![(0, 0), (1, 0)]);
    assert_eq!(block_span(0, 0, 1), (0, 0));
    assert_eq!(block_span(SAMPLES_PER_BLOCK - 1, SAMPLES_PER_BLOCK + 1, 9), (0, 1));
}

#[test]
fn blocks_of_a_range_are_numbered() {
    assert_eq!(EdgeStore::blocks_for_range(0, 0), vec![0]);
    assert_eq!(EdgeStore::blocks_for_range(0, SAMPLES_PER_BLOCK), vec![0]);
    assert_eq!(EdgeStore::blocks_for_range(0, SAMPLES_PER_BLOCK + 1), vec![0, 1]);
    assert_eq!(
        EdgeStore::blocks_for_range(5 * SAMPLES_PER_BLOCK, 7 * SAMPLES_PER_BLOCK + 1),
        vec![5, 6, 7]
    );
    assert_eq!(
        EdgeStore::blocks_for_range(5 * SAMPLES_PER_BLOCK, SAMPLES_PER_BLOCK),
        Vec::<u32>::new()
    );
}

#[test]
fn keys_of_blocks_differ() {
    assert_eq!(block_key(0, 7), 7);
    assert_eq!(block_key(1, 0), 1 << 32);
    assert_eq!(block_key(u32::MAX, u32::MAX), u64::MAX);
}

#[test]
fn the_order_of_blocks_does_not_matter_if_the_last_comes_last() {
    let mut rng = Lcg(21);
    let raws: Vec<Vec<u8>> = (0..4).map(|_| random_block(&mut rng, 11)).collect();
    let run = |order: [u32; 4]| {
        let mut data = ChannelData::new();
        for b in order {
            data.ingest_raw(b, &raws[b as usize]);
        }
        (data.resolved.transitions, data.resolved_tail, data.tail_value)
    };
    let in_turn = run([0, 1, 2, 3]);
    assert_eq!(in_turn.1, Some(3));
    for order in [[0, 2, 1, 3], [1, 0, 2, 3], [1, 2, 0, 3], [2, 0, 1, 3], [2, 1, 0, 3]] {
        assert_eq!(run(order), in_turn);
    }
}

#[test]
fn short_blocks_always_fit() {
    assert!(offsets_fit(&[]));
    assert!(offsets_fit(&[0x55, 0xAA, 0xFF]));
}

#[test]
fn a_longer_block_fits_unless_it_flips_late() {
    let mut raw = vec![0u8; MAX_RAW_BYTES + 2];
    assert!(offsets_fit(&raw));
    raw[MAX_RAW_BYTES - 1] = 0x40;
    assert!(offsets_fit(&raw));
    raw[MAX_RAW_BYTES - 1] = 0x80;
    assert!(!offsets_fit(&raw));
    raw[MAX_RAW_BYTES] = 0xFF;
    raw[MAX_RAW_BYTES + 1] = 0xFF;
    assert!(offsets_fit(&raw));
    raw[MAX_RAW_BYTES + 1] = 0xFE;
    assert!(!offsets_fit(&raw));
}
