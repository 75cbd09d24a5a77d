use std::io::{Cursor, Write};

use visor::parser::{
    assemble_project, channel_samples, parse_dsl_zip, parse_header, DslHeader, SessionChannel,
    SessionData,
};
use visor::waveform::edges::{EdgeStore, Loaded};
use visor::waveform::source::{block_name, BlockSource};
use visor::waveform::state::WaveformState;

const HEADER: &str = "[version]\n\
    version = 3\n\
    \n\
    [header]\n\
    driver = DSLogic\n\
    device mode = 0\n\
    capturefile = data\n\
    total samples = 1000\n\
    total probes = 2\n\
    total blocks = 1\n\
    samplerate = 100 MHz\n\
    trigger time = 1700000000\n\
    trigger pos = 12\n\
    probe0 = SCK\n\
    probe1 = MOSI\n";

fn zip_of(entries: &[(&str, &[u8])]) -> Vec<u8> {
    let mut writer = zip::ZipWriter::new(Cursor::new(Vec::new()));
    for (name, data) in entries {
        let options = zip::write::SimpleFileOptions::default()
            .compression_method(zip::CompressionMethod::Deflated);
        if name.ends_with('/') {
            writer.add_directory(*name, options).unwrap();
        } else {
            writer.start_file(*name, options).unwrap();
            writer.write_all(data).unwrap();
        }
    }
    writer.finish().unwrap().into_inner()
}

fn session(rate: Option<&str>, count: Option<&str>, names: &[&str]) -> SessionData {
    let channel = names
        .iter()
        .enumerate()
        .map(|(i, n)| SessionChannel {
            index: i as u32,
            name: n.to_string(),
            enabled: i % 2 == 0,
            channel_type: 10000,
        })
        .collect::<Vec<_>>();
    SessionData {
        sample_rate: rate.map(|s| s.to_string()),
        sample_count: count.map(|s| s.to_string()),
        channel: if names.is_empty() { None } else { Some(channel) },
    }
}

fn header(text: &str) -> DslHeader {
    parse_header(text).unwrap()
}

#[test]
fn header_fields_are_read() {
    let h = header(HEADER);
    assert_eq!(h.version, 3);
    assert_eq!(h.driver, "DSLogic");
    assert_eq!(h.device_mode, 0);
    assert_eq!(h.total_samples, 1000);
    assert_eq!(h.total_probes, 2);
    assert_eq!(h.total_blocks, 1);
    assert_eq!(h.samplerate_hz, 100_000_000);
    assert_eq!(h.trigger_time, 1_700_000_000);
    assert_eq!(h.trigger_pos, 12);
    assert_eq!(h.probes, vec![(0, "SCK".to_string()), (1, "MOSI".to_string())]);
}

#[test]
fn an_empty_header_says_nothing() {
    let h = header("");
    assert_eq!(h.version, 0);
    assert_eq!(h.driver, "");
    assert_eq!(h.samplerate_hz, 0);
    assert!(h.probes.is_empty());
}

#[test]
fn odd_header_lines_are_passed_over() {
    let h = header(
        "  [section] = 1\r\nno equals sign\r\n\t version\u{a0}=\u{3000}7 \r\n= 5\n\
         driver = a = b\nversion2 = 9\nprobeX = x\nprobe = y\nprobeprobe3 = z\nprobe+4 =\n\
         probe5\n probe 6 = w\nprobe4294967296 = too large",
    );
    assert_eq!(h.version, 7);
    assert_eq!(h.driver, "a = b");
    assert_eq!(h.probes, vec![(3, "z".to_string()), (4, String::new())]);
}

#[test]
fn unparsable_numbers_are_zero_and_later_fields_win() {
    let h = header(
        "version = x\ntotal samples = 18446744073709551615\ntotal blocks = 4294967296\n\
         total probes = -1\ndevice mode = 1\ndevice mode = 2\ntrigger pos = 18446744073709551616\n\
         samplerate = 1.5 ghz",
    );
    assert_eq!(h.version, 0);
    assert_eq!(h.total_samples, u64::MAX);
    assert_eq!(h.total_blocks, 0);
    assert_eq!(h.total_probes, 0);
    assert_eq!(h.device_mode, 2);
    assert_eq!(h.trigger_pos, 0);
    assert_eq!(h.samplerate_hz, 1_500_000_000);
}

#[test]
fn a_capture_file_is_read() {
    let bytes = zip_of(&[
        ("header", HEADER.as_bytes()),
        ("session", b"{\"x\": 1}"),
        ("L-0/", b""),
        ("L-0/0", &[0xAA; 100]),
        ("L-0/1", &[0xAA; 20]),
        ("L-1/0", &[0x55; 100]),
        ("L-00/0", &[1; 7]),
    ]);
    let file = parse_dsl_zip(bytes).unwrap();
    assert_eq!(file.header.driver, "DSLogic");
    assert_eq!(file.session, "{\"x\": 1}");
    assert_eq!(file.entries.len(), 7);
    assert_eq!(file.entries[3], ("L-0/0".to_string(), 100));
    assert_eq!(channel_samples(&file.entries), Some(960));

    let project = assemble_project(
        file.header,
        session(Some("50000000"), Some("7"), &["A", "B"]),
        &file.entries,
    );
    assert_eq!(project.sample_count, 960);
    assert_eq!(project.sample_rate, 50_000_000);
    assert_eq!(project.channels.len(), 2);
    assert_eq!(project.channel_names(), vec!["A".to_string(), "B".to_string()]);
}

#[test]
fn without_data_the_session_or_the_header_counts_samples() {
    let none: Vec<(String, u64)> = vec![("L-1/0".to_string(), 5), ("L-0/x/".to_string(), 5)];
    assert_eq!(channel_samples(&none), Some(0));
    let h = header(HEADER);
    let p = assemble_project(h.clone(), session(None, Some("77"), &[]), &none);
    assert_eq!((p.sample_count, p.sample_rate), (77, 100_000_000));
    let p = assemble_project(h.clone(), session(Some("+5"), Some("77 "), &[]), &none);
    assert_eq!((p.sample_count, p.sample_rate), (1000, 5));
    let p = assemble_project(h.clone(), session(Some("x"), None, &[]), &none);
    assert_eq!((p.sample_count, p.sample_rate), (1000, 100_000_000));
    assert!(p.channels.is_empty());
    assert_eq!(p.channel_names(), vec!["SCK".to_string(), "MOSI".to_string()]);
}

#[test]
fn too_much_data_cannot_be_counted() {
    let entries = vec![("L-0/0".to_string(), u64::MAX), ("L-0/1".to_string(), 1)];
    assert_eq!(channel_samples(&entries), None);
    let entries = vec![("L-0/0".to_string(), u64::MAX / 8)];
    assert_eq!(channel_samples(&entries), Some(u64::MAX / 8 * 8));
    let entries = vec![("L-0/0".to_string(), u64::MAX / 8 + 1)];
    assert_eq!(channel_samples(&entries), None);
}

#[test]
fn broken_capture_files_are_refused() {
    let e = parse_dsl_zip(b"not an archive at all".to_vec()).unwrap_err();
    assert!(e.starts_with("invalid Zip archive"), "{e}");
    assert_eq!(parse_dsl_zip(zip_of(&[("session", b"{}")])).unwrap_err(), "missing header");
    assert_eq!(
        parse_dsl_zip(zip_of(&[("header", HEADER.as_bytes())])).unwrap_err(),
        "missing session"
    );
    let e = parse_dsl_zip(zip_of(&[("header", &[0xff, 0xfe]), ("session", b"{}")])).unwrap_err();
    assert!(e.contains("UTF-8"), "{e}");
    let e = parse_dsl_zip(zip_of(&[("header", b""), ("session", &[0x80])])).unwrap_err();
    assert!(e.contains("UTF-8"), "{e}");
}

#[test]
fn blocks_are_found_by_channel_and_number() {
    assert_eq!(block_name(0, 0), "L-0/0");
    assert_eq!(block_name(12, 345), "L-12/345");
    assert_eq!(block_name(u32::MAX, 10), "L-4294967295/10");
    let mut source = BlockSource::open(zip_of(&[
        ("header", b""),
        ("L-0/0", &[1, 2, 3]),
        ("L-1/10", &[9]),
        ("L-11/0", &[8, 8]),
    ]))
    .unwrap();
    assert_eq!(source.read_block(0, 0), Some(vec![1, 2, 3]));
    assert_eq!(source.read_block(1, 10), Some(vec![9]));
    assert_eq!(source.read_block(11, 0), Some(vec![8, 8]));
    assert_eq!(source.read_block(1, 1), None);
    assert_eq!(source.read_block(0, 0), Some(vec![1, 2, 3]));
}

#[test]
fn a_damaged_block_cannot_be_read() {
    let good = zip_of(&[("L-0/0", &[7; 4000]), ("L-0/1", &[5])]);
    let mut bad = good.clone();
    // The compressed data of the first entry begins behind its local header.
    let at = 30 + "L-0/0".len();
    bad[at] ^= 0xff;
    bad[at + 1] ^= 0xff;
    let mut source = BlockSource::open(bad).unwrap();
    assert_eq!(source.read_block(0, 0), None);
    assert_eq!(source.read_block(0, 1), Some(vec![5]));
}

#[test]
fn a_store_loads_its_blocks_from_the_file() {
    let (mut store, mut source) =
        EdgeStore::open(zip_of(&[("L-0/0", &[0x0f]), ("L-1/0", &[0x01])]), 2, 3, 8).unwrap();
    assert_eq!(store.ingest_block(&mut source, 0, 0), Loaded::Now);
    assert_eq!(store.ingest_block(&mut source, 0, 0), Loaded::Before);
    assert_eq!(store.ingest_block(&mut source, 0, 1), Loaded::Missing);
    // A block that is missing is passed over, whatever its channel.
    assert_eq!(store.ingest_block(&mut source, 99, 0), Loaded::Missing);
    assert!(!store.is_block_ingested(99, 0));
    assert!(store.is_block_ingested(0, 0));
    assert!(!store.is_block_ingested(0, 1));
    assert_eq!(store.channel(0).first_value, 1);
    assert_eq!(store.channel(0).transitions.to_vec(), vec![4]);
    store.ensure_range(&mut source, 0, 8);
    assert!(store.is_block_ingested(1, 0));
    assert_eq!(store.channel(1).transitions.to_vec(), vec![1]);
}

#[test]
fn a_store_refuses_what_is_no_archive() {
    assert!(EdgeStore::open(vec![0; 10], 1, 1, 1).is_err());
}

#[test]
fn a_range_is_ensured_for_every_channel() {
    let blocks: Vec<(String, Vec<u8>)> = (0..3u32)
        .flat_map(|ch| (0..4u32).map(move |b| (format!("L-{ch}/{b}"), vec![(ch + b) as u8])))
        .collect();
    let listed: Vec<(&str, &[u8])> =
        blocks.iter().map(|(n, d)| (n.as_str(), d.as_slice())).collect();
    let (mut store, mut source) = EdgeStore::open(zip_of(&listed), 3, 4, 4 << 24).unwrap();
    store.ensure_range(&mut source, 2 << 24, (3 << 24) + 1);
    for ch in 0..3 {
        assert!(store.is_block_ingested(ch, 0));
        assert!(!store.is_block_ingested(ch, 1));
        assert!(store.is_block_ingested(ch, 2));
        assert!(store.is_block_ingested(ch, 3));
    }
}

#[test]
fn a_project_opens_in_its_initial_state() {
    let bytes = zip_of(&[("header", HEADER.as_bytes()), ("session", b"{}")]);
    let file = parse_dsl_zip(bytes.clone()).unwrap();
    let project = assemble_project(file.header, session(None, None, &[]), &file.entries);
    let (state, _source) = WaveformState::from_project(bytes, &project).ok().unwrap();
    assert_eq!(state.view.sample_offset, 0);
    assert_eq!(state.view.total_samples, 1000);
    assert_eq!(state.store.num_channels, 2);
    assert_eq!(state.store.blocks_per_channel, 1);
    assert_eq!(state.channel_names, vec!["SCK".to_string(), "MOSI".to_string()]);
    assert_eq!(state.qspi.channel_roles.len(), 2);
    assert!(!state.qspi.enabled);
    assert_eq!(state.samplerate_hz, 100_000_000);
    assert_eq!(state.qspi_config_gen, 1);
    assert!(state.transactions.is_empty());
    assert!(state.packet_stats.is_none());
    assert!(WaveformState::from_project(vec![1, 2, 3], &project).is_err());
}

#[test]
fn a_header_grows_line_by_line() {
    let whole = header("version = 1\nprobe0 = a\nversion = 2\nprobe1 = b");
    assert_eq!(whole.version, 2);
    assert_eq!(whole.probes.len(), 2);
    let front = header("version = 1\nprobe0 = a");
    assert_eq!((front.version, front.probes.len()), (1, 1));
}

#[test]
fn what_the_file_holds_is_what_the_channels_show() {
    let blocks: Vec<(String, Vec<u8>)> = (0..3u32)
        .flat_map(|ch| {
            (0..3u32).map(move |b| {
                let data = (0..40u32).map(|i| (i * 37 + ch * 11 + b * 5) as u8).collect();
                (format!("L-{ch}/{b}"), data)
            })
        })
        .collect();
    let listed: Vec<(&str, &[u8])> =
        blocks.iter().map(|(n, d)| (n.as_str(), d.as_slice())).collect();
    let (mut store, mut source) = EdgeStore::open(zip_of(&listed), 3, 3, 3 << 24).unwrap();
    store.ensure_range(&mut source, 0, 3 << 24);
    for ch in 0..3u32 {
        let view = store.channel(ch);
        for b in 0..3u64 {
            let raw = &blocks[ch as usize * 3 + b as usize].1;
            for off in 0..8 * raw.len() as u64 {
                let bit = (raw[off as usize / 8] >> (off % 8)) & 1;
                assert_eq!(view.value_at((b << 24) + off), bit);
            }
        }
    }
}
