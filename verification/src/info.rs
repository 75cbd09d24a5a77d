//! The tables that describe a capture.

use vstd::prelude::*;

use crate::parser::{DslProject, SessionChannel};
use crate::samplerate;
use crate::samplerate::format_samplerate;
use crate::text;
use crate::text::push_decimal;

verus! {

/// Labels and values of a two-column table.
pub open spec fn pairs(rows: Seq<(String, String)>) -> Seq<(Seq<char>, Seq<char>)> {
    Seq::new(rows.len(), |i: int| (rows[i].0@, rows[i].1@))
}

/// Cells of a table.
pub open spec fn cells(rows: Seq<Vec<String>>) -> Seq<Seq<Seq<char>>> {
    Seq::new(rows.len(), |i: int| row_cells(rows[i]@))
}

/// Cells of a row.
pub open spec fn row_cells(row: Seq<String>) -> Seq<Seq<char>> {
    Seq::new(row.len(), |i: int| row[i]@)
}

/// What there is to say of a capture as a whole.
pub open spec fn info_of(project: DslProject, duration: Seq<char>) -> Seq<(Seq<char>, Seq<char>)> {
    let h = project.header;
    seq![
        ("Driver"@, h.driver@),
        ("Sample Rate"@, samplerate::samplerate_text(h.samplerate_hz)),
        ("Duration"@, duration),
        ("Total Samples"@, text::decimal(h.total_samples as nat)),
        ("Channels"@, text::decimal(h.total_probes as nat)),
        ("Blocks"@, text::decimal(h.total_blocks as nat)),
    ]
}

/// Row of a channel.
pub open spec fn channel_row(channel: SessionChannel) -> Seq<Seq<char>> {
    seq![
        text::decimal(channel.index as nat),
        channel.name@,
        if channel.enabled {
            "yes"@
        } else {
            "no"@
        },
    ]
}

/// Row of a probe.
pub open spec fn probe_row(probe: (u32, String)) -> Seq<Seq<char>> {
    seq![text::decimal(probe.0 as nat), probe.1@]
}

/// The channels of a capture, under a row of headings: those of the session,
/// or where it lists no channels, the probes in the header.
pub open spec fn channel_table(project: DslProject) -> Seq<Seq<Seq<char>>> {
    if project.channels@.len() > 0 {
        seq![seq!["Index"@, "Name"@, "Enabled"@]] + Seq::new(
            project.channels@.len(),
            |i: int| channel_row(project.channels@[i]),
        )
    } else {
        seq![seq!["Index"@, "Name"@]] + Seq::new(
            project.header.probes@.len(),
            |i: int| probe_row(project.header.probes@[i]),
        )
    }
}

fn decimal_text(n: u64) -> (s: String)
    ensures
        s@ == text::decimal(n as nat),
{
    let mut s: String = String::new();
    push_decimal(&mut s, n);
    assert(s@ =~= text::decimal(n as nat));
    s
}

/// What there is to say of a capture as a whole, with its duration already in words.
pub fn info_rows(project: &DslProject, duration: &str) -> (rows: Vec<(String, String)>)
    ensures
        pairs(rows@) == info_of(*project, duration@),
{
    let h = &project.header;
    let mut rows: Vec<(String, String)> = Vec::new();
    rows.push(("Driver".to_owned(), h.driver.clone()));
    rows.push(("Sample Rate".to_owned(), format_samplerate(h.samplerate_hz)));
    rows.push(("Duration".to_owned(), duration.to_owned()));
    rows.push(("Total Samples".to_owned(), decimal_text(h.total_samples)));
    rows.push(("Channels".to_owned(), decimal_text(h.total_probes as u64)));
    rows.push(("Blocks".to_owned(), decimal_text(h.total_blocks as u64)));
    assert(pairs(rows@) =~= info_of(*project, duration@));
    rows
}

fn row_of_channel(channel: &SessionChannel) -> (row: Vec<String>)
    ensures
        row_cells(row@) == channel_row(*channel),
{
    let mut row: Vec<String> = Vec::new();
    row.push(decimal_text(channel.index as u64));
    row.push(channel.name.clone());
    row.push(
        if channel.enabled {
            "yes".to_owned()
        } else {
            "no".to_owned()
        },
    );
    assert(row_cells(row@) =~= channel_row(*channel));
    row
}

fn row_of_probe(probe: &(u32, String)) -> (row: Vec<String>)
    ensures
        row_cells(row@) == probe_row(*probe),
{
    let mut row: Vec<String> = Vec::new();
    row.push(decimal_text(probe.0 as u64));
    row.push(probe.1.clone());
    assert(row_cells(row@) =~= probe_row(*probe));
    row
}

fn headings(enabled: bool) -> (row: Vec<String>)
    ensures
        row_cells(row@) == if enabled {
            seq!["Index"@, "Name"@, "Enabled"@]
        } else {
            seq!["Index"@, "Name"@]
        },
{
    let mut row: Vec<String> = Vec::new();
    row.push("Index".to_owned());
    row.push("Name".to_owned());
    if enabled {
        row.push("Enabled".to_owned());
        assert(row_cells(row@) =~= seq!["Index"@, "Name"@, "Enabled"@]);
    } else {
        assert(row_cells(row@) =~= seq!["Index"@, "Name"@]);
    }
    row
}

/// The channels of a capture, under a row of headings.
pub fn channel_rows(project: &DslProject) -> (rows: Vec<Vec<String>>)
    ensures
        cells(rows@) == channel_table(*project),
{
    let mut rows: Vec<Vec<String>> = Vec::new();
    let listed: bool = project.channels.len() > 0;
    rows.push(headings(listed));
    let n: usize = if listed {
        project.channels.len()
    } else {
        project.header.probes.len()
    };
    let mut i: usize = 0;
    while i < n
        invariant
            i <= n,
            listed == (project.channels@.len() > 0),
            n + 1 == channel_table(*project).len(),
            rows@.len() == i + 1,
            forall|k: int|
                0 <= k <= i ==> row_cells((#[trigger] rows@[k])@) == channel_table(*project)[k],
        decreases n - i,
    {
        let row: Vec<String> = if listed {
            row_of_channel(&project.channels[i])
        } else {
            row_of_probe(&project.header.probes[i])
        };
        assert(row_cells(row@) == channel_table(*project)[i + 1]);
        rows.push(row);
        i = i + 1;
    }
    assert(cells(rows@) =~= channel_table(*project));
    rows
}

/// The table of a capture names its driver, rate, duration, samples, channels
/// and blocks, and its numbers read back.
pub proof fn law_numbers_in_the_table_read_back(project: DslProject, duration: Seq<char>)
    ensures
        info_of(project, duration).len() == 6,
        info_of(project, duration)[0] == ("Driver"@, project.header.driver@),
        info_of(project, duration)[1].0 == "Sample Rate"@,
        info_of(project, duration)[1].1 == samplerate::samplerate_text(
            project.header.samplerate_hz,
        ),
        info_of(project, duration)[2] == ("Duration"@, duration),
        info_of(project, duration)[3].0 == "Total Samples"@,
        text::unsigned_of(info_of(project, duration)[3].1) == Some(
            project.header.total_samples as nat,
        ),
        info_of(project, duration)[4].0 == "Channels"@,
        text::unsigned_of(info_of(project, duration)[4].1) == Some(
            project.header.total_probes as nat,
        ),
        info_of(project, duration)[5].0 == "Blocks"@,
        text::unsigned_of(info_of(project, duration)[5].1) == Some(
            project.header.total_blocks as nat,
        ),
{
    text::law_decimal_reads_back(project.header.total_samples as nat);
    text::law_decimal_reads_back(project.header.total_probes as nat);
    text::law_decimal_reads_back(project.header.total_blocks as nat);
}

/// Below its headings the table of channels has one row for each channel of the
/// session, or where there is none, for each probe, with its number and name.
pub proof fn law_every_channel_has_a_row(project: DslProject, i: int)
    ensures
        project.channels@.len() > 0 ==> {
            &&& channel_table(project).len() == project.channels@.len() + 1
            &&& channel_table(project)[0] == seq!["Index"@, "Name"@, "Enabled"@]
            &&& 0 <= i < project.channels@.len() ==> {
                let row = channel_table(project)[i + 1];
                &&& row.len() == 3
                &&& text::unsigned_of(row[0]) == Some(project.channels@[i].index as nat)
                &&& row[1] == project.channels@[i].name@
                &&& row[2] == if project.channels@[i].enabled {
                    "yes"@
                } else {
                    "no"@
                }
            }
        },
        project.channels@.len() == 0 ==> {
            &&& channel_table(project).len() == project.header.probes@.len() + 1
            &&& channel_table(project)[0] == seq!["Index"@, "Name"@]
            &&& 0 <= i < project.header.probes@.len() ==> {
                let row = channel_table(project)[i + 1];
                &&& row.len() == 2
                &&& text::unsigned_of(row[0]) == Some(project.header.probes@[i].0 as nat)
                &&& row[1] == project.header.probes@[i].1@
            }
        },
{
    if project.channels@.len() > 0 {
        if 0 <= i < project.channels@.len() {
            text::law_decimal_reads_back(project.channels@[i].index as nat);
            assert(channel_table(project)[i + 1] == channel_row(project.channels@[i]));
        }
    } else if 0 <= i < project.header.probes@.len() {
        text::law_decimal_reads_back(project.header.probes@[i].0 as nat);
        assert(channel_table(project)[i + 1] == probe_row(project.header.probes@[i]));
    }
}

} // verus!
