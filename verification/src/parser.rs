//! The header of a capture and the project that it describes.

use vstd::prelude::*;
use vstd::string::StrSliceExecFns;
use zip::ZipArchive;

use std::io::Cursor;

use crate::archive;
use crate::archive::{archive_len, entry_info, entry_text, open_archive, EntryModel};
use crate::samplerate;
use crate::samplerate::parse_rate;
pub use crate::samplerate::{format_samplerate, parse_samplerate};
use crate::text;
use crate::text::{characters, find, is_literal, parse_unsigned, trim};

verus! {

#[derive(Debug, Clone)]
pub struct DslHeader {
    pub version: u32,
    pub driver: String,
    pub device_mode: u32,
    pub total_samples: u64,
    pub total_probes: u32,
    pub total_blocks: u32,
    pub samplerate_hz: u64,
    pub trigger_time: u64,
    pub trigger_pos: u64,
    pub probes: Vec<(u32, String)>,
}

/// Contents of a header.
#[verifier::ext_equal]
pub struct HeaderModel {
    pub version: u32,
    pub driver: Seq<char>,
    pub device_mode: u32,
    pub total_samples: u64,
    pub total_probes: u32,
    pub total_blocks: u32,
    pub samplerate_hz: u64,
    pub trigger_time: u64,
    pub trigger_pos: u64,
    pub probes: Seq<(u32, Seq<char>)>,
}

impl View for DslHeader {
    type V = HeaderModel;

    open spec fn view(&self) -> HeaderModel {
        HeaderModel {
            version: self.version,
            driver: self.driver@,
            device_mode: self.device_mode,
            total_samples: self.total_samples,
            total_probes: self.total_probes,
            total_blocks: self.total_blocks,
            samplerate_hz: self.samplerate_hz,
            trigger_time: self.trigger_time,
            trigger_pos: self.trigger_pos,
            probes: probe_list(self.probes@),
        }
    }
}

/// Probes as numbers and names.
pub open spec fn probe_list(probes: Seq<(u32, String)>) -> Seq<(u32, Seq<char>)> {
    Seq::new(probes.len(), |i: int| (probes[i].0, probes[i].1@))
}

/// A header that says nothing.
pub open spec fn empty_header() -> HeaderModel {
    HeaderModel {
        version: 0,
        driver: Seq::empty(),
        device_mode: 0,
        total_samples: 0,
        total_probes: 0,
        total_blocks: 0,
        samplerate_hz: 0,
        trigger_time: 0,
        trigger_pos: 0,
        probes: Seq::empty(),
    }
}

/// Number that a value spells, or zero where it spells none or a larger one than `max`.
pub open spec fn number_or_zero(value: Seq<char>, max: nat) -> nat {
    match text::unsigned_of(value) {
        Some(n) => if n <= max {
            n
        } else {
            0
        },
        None => 0,
    }
}

/// What is left of a key when `probe` is taken from its front as often as it stands there.
pub open spec fn probe_number(key: Seq<char>) -> Seq<char>
    decreases key.len(),
{
    if key.len() >= 5 && text::starts_with(key, "probe"@) {
        probe_number(key.skip(5))
    } else {
        key
    }
}

/// Header after one more field. An unknown key changes nothing.
pub open spec fn with_field(h: HeaderModel, key: Seq<char>, value: Seq<char>) -> HeaderModel {
    let small = number_or_zero(value, u32::MAX as nat) as u32;
    let large = number_or_zero(value, u64::MAX as nat) as u64;
    if key == "version"@ {
        HeaderModel { version: small, ..h }
    } else if key == "driver"@ {
        HeaderModel { driver: value, ..h }
    } else if key == "device mode"@ {
        HeaderModel { device_mode: small, ..h }
    } else if key == "total samples"@ {
        HeaderModel { total_samples: large, ..h }
    } else if key == "total probes"@ {
        HeaderModel { total_probes: small, ..h }
    } else if key == "total blocks"@ {
        HeaderModel { total_blocks: small, ..h }
    } else if key == "samplerate"@ {
        HeaderModel { samplerate_hz: samplerate::samplerate_of(value), ..h }
    } else if key == "trigger time"@ {
        HeaderModel { trigger_time: large, ..h }
    } else if key == "trigger pos"@ {
        HeaderModel { trigger_pos: large, ..h }
    } else if text::starts_with(key, "probe"@) {
        match text::unsigned_of(probe_number(key)) {
            Some(n) => if n <= u32::MAX {
                HeaderModel { probes: h.probes.push((n as u32, value)), ..h }
            } else {
                h
            },
            None => h,
        }
    } else {
        h
    }
}

/// Header after one more line. Empty lines, section lines and lines without
/// an equals sign change nothing.
pub open spec fn with_line(h: HeaderModel, line: Seq<char>) -> HeaderModel {
    let line = text::trimmed(line);
    let eq = text::find_from(line, '=', 0);
    if line.len() == 0 || line[0] == '[' || eq >= line.len() {
        h
    } else {
        with_field(h, text::trimmed(line.take(eq)), text::trimmed(line.skip(eq + 1)))
    }
}

/// Header after the lines of `s` from `from` on.
pub open spec fn with_lines(h: HeaderModel, s: Seq<char>, from: int) -> HeaderModel
    decreases s.len() + 1 - from,
{
    if from < 0 || from >= s.len() {
        h
    } else {
        let end = text::find_from(s, '\n', from);
        proof {
            text::lemma_find_from(s, '\n', from);
        }
        with_lines(with_line(h, s.subrange(from, end)), s, end + 1)
    }
}

/// Header that a text describes.
pub open spec fn header_of(s: Seq<char>) -> HeaderModel {
    with_lines(empty_header(), s, 0)
}

/// Whether the characters begin with `probe`.
fn begins_with_probe(s: &[char]) -> (b: bool)
    ensures
        b == text::starts_with(s@, "probe"@),
        b ==> s@.len() >= 5,
{
    proof {
        reveal_strlit("probe");
    }
    if s.len() < 5 {
        return false;
    }
    let head: &[char] = &s[0..5];
    assert(head@ =~= s@.take(5));
    is_literal(head, "probe")
}

/// Number of a probe key.
fn parse_probe(key: &[char]) -> (n: Option<u64>)
    ensures
        match n {
            Some(n) => text::unsigned_of(probe_number(key@)) == Some(n as nat) && n <= u32::MAX,
            None => match text::unsigned_of(probe_number(key@)) {
                Some(n) => n > u32::MAX,
                None => true,
            },
        },
{
    let mut start: usize = 0;
    assert(key@.skip(0) =~= key@);
    while begins_with_probe(&key[start..key.len()])
        invariant
            start <= key@.len(),
            probe_number(key@.skip(start as int)) == probe_number(key@),
        decreases key@.len() - start,
    {
        assert(key@.subrange(start as int, key@.len() as int) =~= key@.skip(start as int));
        assert(key@.skip(start as int).skip(5) =~= key@.skip(start + 5));
        start = start + 5;
    }
    let rest: &[char] = &key[start..key.len()];
    assert(rest@ =~= key@.skip(start as int));
    parse_unsigned(rest, 0xFFFF_FFFF)
}

/// Number that a value spells, or zero.
fn parse_or_zero(value: &[char], max: u64) -> (n: u64)
    ensures
        n == number_or_zero(value@, max as nat),
        n <= max,
{
    match parse_unsigned(value, max) {
        Some(n) => n,
        None => 0,
    }
}

/// Takes one line of the header text into account.
fn apply_line(header: &mut DslHeader, source: &str, chars: &Vec<char>, from: usize, to: usize)
    requires
        chars@ == source@,
        from <= to <= chars@.len(),
    ensures
        final(header)@ == with_line(old(header)@, chars@.subrange(from as int, to as int)),
{
    let ghost raw = chars@.subrange(from as int, to as int);
    let (lo, hi) = trim(chars.as_slice(), from, to);
    let line: &[char] = &chars.as_slice()[lo..hi];
    assert(line@ == text::trimmed(raw));
    if line.len() == 0 || line[0] == '[' {
        return;
    }
    let eq: usize = find(line, '=', 0);
    if eq >= line.len() {
        return;
    }
    let (klo, khi) = trim(line, 0, eq);
    let (vlo, vhi) = trim(line, eq + 1, line.len());
    assert(line@.subrange(0, eq as int) =~= line@.take(eq as int));
    assert(line@.subrange(eq + 1, line@.len() as int) =~= line@.skip(eq + 1));
    let key: &[char] = &line[klo..khi];
    let value: &[char] = &line[vlo..vhi];
    let ghost before = header@;
    if is_literal(key, "version") {
        header.version = parse_or_zero(value, 0xFFFF_FFFF) as u32;
    } else if is_literal(key, "driver") {
        let name: &str = source.substring_char(lo + vlo, lo + vhi);
        header.driver = name.to_owned();
        assert(header.driver@ =~= value@);
    } else if is_literal(key, "device mode") {
        header.device_mode = parse_or_zero(value, 0xFFFF_FFFF) as u32;
    } else if is_literal(key, "total samples") {
        header.total_samples = parse_or_zero(value, u64::MAX);
    } else if is_literal(key, "total probes") {
        header.total_probes = parse_or_zero(value, 0xFFFF_FFFF) as u32;
    } else if is_literal(key, "total blocks") {
        header.total_blocks = parse_or_zero(value, 0xFFFF_FFFF) as u32;
    } else if is_literal(key, "samplerate") {
        header.samplerate_hz = parse_rate(value);
    } else if is_literal(key, "trigger time") {
        header.trigger_time = parse_or_zero(value, u64::MAX);
    } else if is_literal(key, "trigger pos") {
        header.trigger_pos = parse_or_zero(value, u64::MAX);
    } else if begins_with_probe(key) {
        if let Some(n) = parse_probe(key) {
            let name: &str = source.substring_char(lo + vlo, lo + vhi);
            assert(name@ =~= value@);
            let ghost probes = header.probes@;
            header.probes.push((n as u32, name.to_owned()));
            assert(probe_list(header.probes@) =~= probe_list(probes).push((n as u32, value@)));
        }
    }
    assert(header@ =~= with_field(before, key@, value@));
}

/// Parses the header text of a capture. Lines that it does not know are passed
/// over, so every text is a header.
pub fn parse_header(source: &str) -> (r: Result<DslHeader, String>)
    ensures
        r matches Ok(header) && header@ == header_of(source@),
{
    let mut header = DslHeader {
        version: 0,
        driver: String::new(),
        device_mode: 0,
        total_samples: 0,
        total_probes: 0,
        total_blocks: 0,
        samplerate_hz: 0,
        trigger_time: 0,
        trigger_pos: 0,
        probes: Vec::new(),
    };
    assert(header@ =~= empty_header());
    let chars: Vec<char> = characters(source);
    let mut from: usize = 0;
    while from < chars.len()
        invariant
            chars@ == source@,
            from <= chars@.len(),
            with_lines(header@, chars@, from as int) == header_of(source@),
        decreases chars@.len() - from,
    {
        let end: usize = find(chars.as_slice(), '\n', from);
        apply_line(&mut header, source, &chars, from, end);
        assert(with_lines(header@, chars@, end + 1) == header_of(source@));
        if end >= chars.len() {
            from = end;
        } else {
            from = end + 1;
        }
    }
    Ok(header)
}

#[derive(Debug, Clone)]
pub struct SessionChannel {
    pub index: u32,
    pub name: String,
    pub enabled: bool,
    pub channel_type: u32,
}

#[derive(Debug, Clone)]
pub struct SessionData {
    pub sample_rate: Option<String>,
    pub sample_count: Option<String>,
    pub channel: Option<Vec<SessionChannel>>,
}

/// A capture. It lasts `sample_count / sample_rate` seconds, or no time if its
/// sample rate is zero.
#[derive(Debug, Clone)]
pub struct DslProject {
    pub header: DslHeader,
    pub channels: Vec<SessionChannel>,
    pub sample_count: u64,
    pub sample_rate: u64,
}

/// A capture file whose session text is still to be decoded.
#[derive(Debug)]
pub struct DslFile {
    pub header: DslHeader,
    /// The session, in JSON.
    pub session: String,
    /// Names and sizes of the entries of the archive.
    pub entries: Vec<(String, u64)>,
}

/// Names and sizes as plain values.
pub open spec fn entry_list(entries: Seq<(String, u64)>) -> Seq<(Seq<char>, u64)> {
    Seq::new(entries.len(), |i: int| (entries[i].0@, entries[i].1))
}

/// Names and sizes of those entries that can be opened.
pub open spec fn opened_entries(entries: Seq<EntryModel>) -> Seq<(Seq<char>, u64)>
    decreases entries.len(),
{
    if entries.len() == 0 {
        Seq::empty()
    } else {
        let before = opened_entries(entries.drop_last());
        match archive::info_of(entries.last()) {
            Ok(info) => before.push(info),
            Err(_) => before,
        }
    }
}

/// Whether an entry holds data of channel 0.
pub open spec fn is_data_entry(name: Seq<char>) -> bool {
    text::starts_with(name, "L-0/"@) && !text::ends_with(name, "/"@)
}

/// Bytes of data that the entries of channel 0 hold together.
pub open spec fn channel_bytes(entries: Seq<(Seq<char>, u64)>) -> nat
    decreases entries.len(),
{
    if entries.len() == 0 {
        0
    } else {
        let before = channel_bytes(entries.drop_last());
        if is_data_entry(entries.last().0) {
            before + entries.last().1 as nat
        } else {
            before
        }
    }
}

/// Number that a text spells, or `default` if there is no text, or none that
/// spells a number below 2^64.
pub open spec fn number_or(value: Option<String>, default: u64) -> u64 {
    match value {
        Some(s) => match text::unsigned_of(s@) {
            Some(n) => if n <= u64::MAX {
                n as u64
            } else {
                default
            },
            None => default,
        },
        None => default,
    }
}

/// Samples in a capture: eight for each byte of channel 0, or where there is no
/// data, what the session says, or the header.
pub open spec fn sample_count_of(
    header: DslHeader,
    session: SessionData,
    entries: Seq<(Seq<char>, u64)>,
) -> int {
    if channel_bytes(entries) > 0 {
        8 * channel_bytes(entries) as int
    } else {
        number_or(session.sample_count, header.total_samples) as int
    }
}

/// What a file holds, as far as it can be told without its session being decoded.
pub open spec fn file_of(bytes: Seq<u8>) -> Result<
    (HeaderModel, Seq<char>, Seq<(Seq<char>, u64)>),
    Seq<char>,
> {
    match archive::zip_listing(bytes) {
        Err(e) => Err(e),
        Ok(entries) => match archive::text_of(entries, "header"@) {
            None => Err("missing header"@),
            Some(Err(e)) => Err(e),
            Some(Ok(header)) => match archive::text_of(entries, "session"@) {
                None => Err("missing session"@),
                Some(Err(e)) => Err(e),
                Some(Ok(session)) => Ok((header_of(header), session, opened_entries(entries))),
            },
        },
    }
}

fn opened(archive: &mut ZipArchive<Cursor<Vec<u8>>>) -> (list: Vec<(String, u64)>)
    ensures
        entry_list(list@) == opened_entries(archive::archive_entries(*old(archive))),
{
    let n: usize = archive_len(archive);
    let mut list: Vec<(String, u64)> = Vec::new();
    let mut i: usize = 0;
    let ghost entries = archive::archive_entries(*archive);
    assert(entry_list(list@) =~= opened_entries(entries.take(0)));
    while i < n
        invariant
            i <= n == entries.len(),
            archive::archive_entries(*archive) == entries,
            entry_list(list@) == opened_entries(entries.take(i as int)),
        decreases n - i,
    {
        let ghost before = list@;
        assert(entries.take(i + 1).drop_last() =~= entries.take(i as int));
        if let Ok(info) = entry_info(archive, i) {
            list.push(info);
            assert(entry_list(list@) =~= entry_list(before).push((info.0@, info.1)));
        }
        i = i + 1;
    }
    assert(entries.take(n as int) =~= entries);
    list
}

/// Reads a capture file: the header, the text of the session, and what the
/// archive lists.
pub fn parse_dsl_zip(bytes: Vec<u8>) -> (r: Result<DslFile, String>)
    ensures
        match (r, file_of(bytes@)) {
            (Ok(file), Ok((header, session, entries))) => file.header@ == header && file.session@
                == session && entry_list(file.entries@) == entries,
            (Err(e), Err(m)) => e@ == m,
            _ => false,
        },
{
    let mut archive: ZipArchive<Cursor<Vec<u8>>> = match open_archive(bytes) {
        Ok(archive) => archive,
        Err(e) => {
            return Err(e);
        },
    };
    let header_text: String = match entry_text(&mut archive, "header") {
        None => {
            return Err("missing header".to_owned());
        },
        Some(Err(e)) => {
            return Err(e);
        },
        Some(Ok(t)) => t,
    };
    let session: String = match entry_text(&mut archive, "session") {
        None => {
            return Err("missing session".to_owned());
        },
        Some(Err(e)) => {
            return Err(e);
        },
        Some(Ok(t)) => t,
    };
    let header: DslHeader = match parse_header(header_text.as_str()) {
        Ok(header) => header,
        Err(e) => {
            return Err(e);
        },
    };
    let entries: Vec<(String, u64)> = opened(&mut archive);
    Ok(DslFile { header, session, entries })
}

fn holds_data(name: &str) -> (b: bool)
    ensures
        b == is_data_entry(name@),
{
    proof {
        reveal_strlit("L-0/");
        reveal_strlit("/");
    }
    let n: usize = name.unicode_len();
    if n < 4 {
        return false;
    }
    let s: Vec<char> = characters(name);
    let head: &[char] = &s.as_slice()[0..4];
    assert(head@ =~= s@.take(4));
    let slash: bool = s[n - 1] == '/';
    assert(s@.skip(n - 1) =~= seq![s@[n - 1]]);
    assert("/"@ =~= seq!['/']);
    assert(slash == text::ends_with(s@, "/"@)) by {
        assert(s@.skip(n - 1)[0] == s@[n - 1]);
    }
    is_literal(head, "L-0/") && !slash
}

proof fn lemma_channel_bytes_prefix(entries: Seq<(Seq<char>, u64)>, n: int)
    requires
        0 <= n <= entries.len(),
    ensures
        channel_bytes(entries.take(n)) <= channel_bytes(entries),
    decreases entries.len(),
{
    if n < entries.len() {
        lemma_channel_bytes_prefix(entries.drop_last(), n);
        assert(entries.drop_last().take(n) =~= entries.take(n));
    } else {
        assert(entries.take(n) =~= entries);
    }
}

/// Samples that the data entries of channel 0 hold: each byte holds eight. All
/// channels have as many. `None` if they do not fit 64 bits.
pub fn channel_samples(entries: &Vec<(String, u64)>) -> (n: Option<u64>)
    ensures
        match n {
            Some(n) => n == 8 * channel_bytes(entry_list(entries@)),
            None => 8 * channel_bytes(entry_list(entries@)) > u64::MAX,
        },
{
    let ghost list = entry_list(entries@);
    let mut bytes: u64 = 0;
    let mut i: usize = 0;
    assert(list.take(0) =~= Seq::<(Seq<char>, u64)>::empty());
    while i < entries.len()
        invariant
            list == entry_list(entries@),
            i <= entries@.len(),
            bytes == channel_bytes(list.take(i as int)),
        decreases entries@.len() - i,
    {
        proof {
            assert(list.take(i + 1).drop_last() =~= list.take(i as int));
            lemma_channel_bytes_prefix(list, i + 1);
        }
        if holds_data(entries[i].0.as_str()) {
            let size: u64 = entries[i].1;
            if size > u64::MAX - bytes {
                return None;
            }
            bytes = bytes + size;
        }
        i = i + 1;
    }
    assert(list.take(i as int) =~= list);
    bytes.checked_mul(8)
}

fn parse_number_or(value: &Option<String>, default: u64) -> (n: u64)
    ensures
        n == number_or(*value, default),
{
    match value {
        Some(s) => {
            let chars: Vec<char> = characters(s.as_str());
            match parse_unsigned(chars.as_slice(), u64::MAX) {
                Some(n) => n,
                None => default,
            }
        },
        None => default,
    }
}

/// Puts a capture together from its header, its session and what its archive lists.
pub fn assemble_project(
    header: DslHeader,
    session: SessionData,
    entries: &Vec<(String, u64)>,
) -> (project: DslProject)
    requires
        8 * channel_bytes(entry_list(entries@)) <= u64::MAX,
    ensures
        project.header == header,
        match session.channel {
            Some(channels) => project.channels == channels,
            None => project.channels@ == Seq::<SessionChannel>::empty(),
        },
        project.sample_count == sample_count_of(header, session, entry_list(entries@)),
        project.sample_rate == number_or(session.sample_rate, header.samplerate_hz),
{
    let sample_rate: u64 = parse_number_or(&session.sample_rate, header.samplerate_hz);
    let actual: u64 = match channel_samples(entries) {
        Some(n) => n,
        None => 0,
    };
    let sample_count: u64 = if actual > 0 {
        actual
    } else {
        parse_number_or(&session.sample_count, header.total_samples)
    };
    let channels: Vec<SessionChannel> = match session.channel {
        Some(channels) => channels,
        None => Vec::new(),
    };
    DslProject { header, channels, sample_count, sample_rate }
}

/// Names of the channels of a capture: those of the session, or where it lists
/// no channels, those of the probes in the header.
pub open spec fn names_of(project: DslProject) -> Seq<Seq<char>> {
    if project.channels@.len() > 0 {
        Seq::new(project.channels@.len(), |i: int| project.channels@[i].name@)
    } else {
        Seq::new(project.header.probes@.len(), |i: int| project.header.probes@[i].1@)
    }
}

/// Texts as sequences of characters.
pub open spec fn texts(strings: Seq<String>) -> Seq<Seq<char>> {
    Seq::new(strings.len(), |i: int| strings[i]@)
}

impl DslProject {
    /// Names of the channels.
    pub fn channel_names(&self) -> (names: Vec<String>)
        ensures
            texts(names@) == names_of(*self),
    {
        let mut names: Vec<String> = Vec::new();
        let listed: bool = self.channels.len() > 0;
        let n: usize = if listed {
            self.channels.len()
        } else {
            self.header.probes.len()
        };
        let mut i: usize = 0;
        while i < n
            invariant
                i <= n == names_of(*self).len(),
                listed == (self.channels@.len() > 0),
                names@.len() == i,
                forall|k: int| 0 <= k < i ==> #[trigger] names@[k]@ == names_of(*self)[k],
            decreases n - i,
        {
            let name: String = if listed {
                self.channels[i].name.clone()
            } else {
                self.header.probes[i].1.clone()
            };
            names.push(name);
            i = i + 1;
        }
        assert(texts(names@) =~= names_of(*self));
        names
    }
}

/// Lines of a back part are read as if they stood alone.
proof fn lemma_lines_shift(h: HeaderModel, a: Seq<char>, b: Seq<char>, from: int)
    requires
        0 <= from <= b.len() + 1,
    ensures
        with_lines(h, a + b, a.len() + from) == with_lines(h, b, from),
    decreases b.len() + 1 - from,
{
    if from < b.len() {
        let end = text::find_from(b, '\n', from);
        text::lemma_find_from(b, '\n', from);
        text::lemma_find_from_shift(a, b, '\n', from);
        assert((a + b).subrange(a.len() + from, a.len() + end) =~= b.subrange(from, end));
        lemma_lines_shift(with_line(h, b.subrange(from, end)), a, b, end + 1);
    }
}

/// Lines of a front part, from `from` on, are read before those that follow.
proof fn lemma_lines_concat(h: HeaderModel, a: Seq<char>, b: Seq<char>, from: int)
    requires
        0 <= from <= a.len() + 1,
    ensures
        with_lines(h, a + seq!['\n'] + b, from) == with_lines(
            with_lines(h, a, from),
            b,
            0,
        ),
    decreases a.len() + 1 - from,
{
    let nl = seq!['\n'];
    let s = a + nl + b;
    let front = a + nl;
    assert(s =~= front + b);
    if from > a.len() {
        lemma_lines_shift(h, front, b, 0);
    } else {
        let end = text::find_from(a, '\n', from);
        text::lemma_find_from(a, '\n', from);
        text::lemma_find_from(s, '\n', from);
        let found = text::find_from(s, '\n', from);
        assert(s[a.len() as int] == '\n');
        assert(found <= a.len());
        if found < end {
            assert(a[found] == s[found]);
        }
        if end < found {
            assert(a[end] == s[end]);
        }
        assert(s.subrange(from, end) =~= a.subrange(from, end));
        let next = with_line(h, s.subrange(from, end));
        lemma_lines_concat(next, a, b, end + 1);
        if from == a.len() {
            assert(s.subrange(from, end) =~= Seq::<char>::empty());
            assert(text::trimmed(Seq::<char>::empty()) =~= Seq::<char>::empty());
            assert(next == h);
        }
    }
}

/// A header is read line by line: what follows a line is added to what stood
/// before it.
pub proof fn law_header_grows_line_by_line(a: Seq<char>, b: Seq<char>)
    ensures
        header_of(a + seq!['\n'] + b) == with_lines(header_of(a), b, 0),
{
    lemma_lines_concat(empty_header(), a, b, 0);
}

/// What an archive lists is what its entries list one after the other: an entry
/// that can be opened with its name and size, one that cannot not at all.
pub proof fn law_listing_is_by_entry(a: Seq<EntryModel>, b: Seq<EntryModel>, entry: EntryModel)
    ensures
        opened_entries(a + b) == opened_entries(a) + opened_entries(b),
        opened_entries(Seq::empty()) == Seq::<(Seq<char>, u64)>::empty(),
        entry.fault is None ==> opened_entries(seq![entry]) == seq![(entry.name, entry.size)],
        entry.fault is Some ==> opened_entries(seq![entry]) == Seq::<(Seq<char>, u64)>::empty(),
    decreases b.len(),
{
    reveal_with_fuel(opened_entries, 2);
    let none = Seq::<(Seq<char>, u64)>::empty();
    assert(seq![entry].drop_last() =~= Seq::<EntryModel>::empty());
    assert(none.push((entry.name, entry.size)) =~= seq![(entry.name, entry.size)]);
    if b.len() == 0 {
        assert(a + b =~= a);
        assert(opened_entries(a) + none =~= opened_entries(a));
    } else {
        law_listing_is_by_entry(a, b.drop_last(), entry);
        assert((a + b).drop_last() =~= a + b.drop_last());
        assert(opened_entries(a + b) =~= opened_entries(a) + opened_entries(b));
    }
}

/// The data of a capture is counted entry by entry: an entry whose name begins
/// with `L-0/` and does not end in a slash with its size, any other not at all.
pub proof fn law_data_is_counted_by_entry(
    a: Seq<(Seq<char>, u64)>,
    b: Seq<(Seq<char>, u64)>,
    name: Seq<char>,
    size: u64,
)
    ensures
        channel_bytes(a + b) == channel_bytes(a) + channel_bytes(b),
        channel_bytes(Seq::empty()) == 0,
        channel_bytes(seq![(name, size)]) == if name.len() > 4 && name[0] == 'L' && name[1] == '-'
            && name[2] == '0' && name[3] == '/' && name[name.len() - 1] != '/' {
            size
        } else {
            0
        },
    decreases b.len(),
{
    reveal_with_fuel(channel_bytes, 2);
    reveal_strlit("L-0/");
    reveal_strlit("/");
    assert(seq![(name, size)].drop_last() =~= Seq::<(Seq<char>, u64)>::empty());
    if name.len() >= 4 {
        let head = name.take(4);
        let tail = name.skip(name.len() - 1);
        assert(head[0] == name[0] && head[1] == name[1] && head[2] == name[2] && head[3]
            == name[3]);
        assert(tail[0] == name[name.len() - 1]);
        assert("/"@ =~= seq!['/']);
        if name[0] == 'L' && name[1] == '-' && name[2] == '0' && name[3] == '/' {
            assert(head =~= "L-0/"@);
        }
        if name[name.len() - 1] == '/' {
            assert(tail =~= "/"@);
        }
    }
    if b.len() == 0 {
        assert(a + b =~= a);
    } else {
        law_data_is_counted_by_entry(a, b.drop_last(), name, size);
        assert((a + b).drop_last() =~= a + b.drop_last());
    }
}

/// A number in the session counts before the one in the header, if it is one
/// and fits 64 bits.
pub proof fn law_session_counts_before_header(value: Option<String>, default: u64)
    ensures
        value is None ==> number_or(value, default) == default,
        value matches Some(s) ==> number_or(value, default) == match text::unsigned_of(s@) {
            Some(n) => if n <= 0xFFFF_FFFF_FFFF_FFFF {
                n as u64
            } else {
                default
            },
            None => default,
        },
{
}

/// A capture has eight samples for each byte of its data. Without data it has
/// as many as the session says, or the header.
pub proof fn law_samples_are_counted(
    header: DslHeader,
    session: SessionData,
    entries: Seq<(Seq<char>, u64)>,
)
    ensures
        channel_bytes(entries) > 0 ==> sample_count_of(header, session, entries) == 8
            * channel_bytes(entries),
        channel_bytes(entries) == 0 ==> sample_count_of(header, session, entries) == number_or(
            session.sample_count,
            header.total_samples,
        ),
{
}

/// The channels go by the names in the session, one for one, or where the
/// session lists none, by those of the probes.
pub proof fn law_channels_go_by_their_names(project: DslProject, i: int)
    ensures
        project.channels@.len() > 0 ==> names_of(project).len() == project.channels@.len(),
        project.channels@.len() == 0 ==> names_of(project).len() == project.header.probes@.len(),
        project.channels@.len() > 0 && 0 <= i < project.channels@.len() ==> names_of(project)[i]
            == project.channels@[i].name@,
        project.channels@.len() == 0 && 0 <= i < project.header.probes@.len() ==> names_of(
            project,
        )[i] == project.header.probes@[i].1@,
{
}

/// A capture file holds a header and a session; the first that is missing or
/// cannot be read says what is wrong.
pub proof fn law_file_needs_header_and_session(bytes: Seq<u8>, entries: Seq<EntryModel>)
    requires
        archive::zip_listing(bytes) == Ok::<Seq<EntryModel>, Seq<char>>(entries),
    ensures
        archive::text_of(entries, "header"@) is None ==> file_of(bytes) is Err && file_of(
            bytes,
        )->Err_0 == "missing header"@,
        archive::text_of(entries, "header"@) matches Some(Err(e)) ==> file_of(bytes) is Err
            && file_of(bytes)->Err_0 == e,
        archive::text_of(entries, "header"@) matches Some(Ok(_)) ==> archive::text_of(
            entries,
            "session"@,
        ) is None ==> file_of(bytes) is Err && file_of(bytes)->Err_0 == "missing session"@,
        archive::text_of(entries, "header"@) matches Some(Ok(_)) ==> archive::text_of(
            entries,
            "session"@,
        ) matches Some(Err(e)) ==> file_of(bytes) is Err && file_of(bytes)->Err_0 == e,
        archive::text_of(entries, "header"@) matches Some(Ok(h)) ==> archive::text_of(
            entries,
            "session"@,
        ) matches Some(Ok(t)) ==> file_of(bytes) is Ok && file_of(bytes)->Ok_0 == (
            header_of(h),
            t,
            opened_entries(entries),
        ),
{
}

} // verus!
