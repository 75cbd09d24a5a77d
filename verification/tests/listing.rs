use visor::info::{channel_rows, info_rows};
use visor::parser::{parse_header, DslProject, SessionChannel};
use visor::projects::{has_capture_name, sort_newest_first, ProjectEntry, ProjectList};

fn entry(name: &str, modified: Option<i128>) -> ProjectEntry {
    ProjectEntry {
        path: format!("./projects/{name}").into_bytes(),
        name: name.to_string(),
        size: 1,
        modified,
    }
}

fn names(entries: &[ProjectEntry]) -> Vec<&str> {
    entries.iter().map(|e| e.name.as_str()).collect()
}

#[test]
fn captures_are_listed_newest_first() {
    let sorted = sort_newest_first(vec![
        entry("a.dsl", Some(5)),
        entry("b.dsl", None),
        entry("c.dsl", Some(9)),
        entry("d.dsl", Some(5)),
        entry("e.dsl", Some(-3)),
        entry("f.dsl", Some(0)),
    ]);
    assert_eq!(names(&sorted), vec!["c.dsl", "a.dsl", "d.dsl", "b.dsl", "f.dsl", "e.dsl"]);
    assert!(sort_newest_first(Vec::new()).is_empty());
}

#[test]
fn captures_have_their_extension() {
    assert!(has_capture_name("x.dsl"));
    assert!(has_capture_name("a.b.dsl"));
    assert!(has_capture_name("..dsl"));
    assert!(!has_capture_name(".dsl"));
    assert!(!has_capture_name("dsl"));
    assert!(!has_capture_name("x.DSL"));
    assert!(!has_capture_name("x.dsl "));
    assert!(!has_capture_name(""));
    for name in ["x.dsl", "..dsl", ".dsl", "x.dsl.gz", "xdsl", "é.dsl"] {
        let by_path = std::path::Path::new(name).extension().map(|e| e == "dsl").unwrap_or(false);
        assert_eq!(has_capture_name(name), by_path, "{name}");
    }
}

#[test]
fn the_selection_stays_on_its_file() {
    let mut list = ProjectList::new();
    list.refresh(vec![entry("a.dsl", Some(1)), entry("b.dsl", Some(2))]);
    assert_eq!(names(&list.projects), vec!["b.dsl", "a.dsl"]);
    assert_eq!(list.selected, None);
    assert!(list.select(0));
    assert!(!list.select(0));
    list.refresh(vec![
        entry("a.dsl", Some(1)),
        entry("b.dsl", Some(2)),
        entry("c.dsl", Some(3)),
    ]);
    assert_eq!(list.selected, Some(1));
    list.refresh(vec![entry("a.dsl", Some(1))]);
    assert_eq!(list.selected, None);
    list.selected = Some(9);
    list.refresh(vec![entry("a.dsl", Some(1))]);
    assert_eq!(list.selected, Some(9));
}

#[test]
fn renaming_keeps_the_extension() {
    let mut list = ProjectList::new();
    list.refresh(vec![entry("old name.dsl", Some(1))]);
    list.start_rename(0, "old name.dsl");
    assert_eq!(list.renaming, Some((0, "old name".to_string())));
    assert_eq!(list.commit_rename(), Some((0, "old name.dsl".to_string())));
    assert_eq!(list.renaming, None);
    assert_eq!(list.commit_rename(), None);

    list.renaming = Some((0, "  new\t".to_string()));
    assert_eq!(list.commit_rename(), Some((0, "new.dsl".to_string())));
    list.renaming = Some((0, "new.dsl".to_string()));
    assert_eq!(list.commit_rename(), Some((0, "new.dsl".to_string())));
    list.renaming = Some((0, " \u{3000} ".to_string()));
    assert_eq!(list.commit_rename(), None);
    assert_eq!(list.renaming, None);
    list.renaming = Some((3, "gone".to_string()));
    assert_eq!(list.commit_rename(), None);
    // The field starts from the name that was shown, whatever the list holds now.
    list.start_rename(4, "shown before.dsl");
    assert_eq!(list.renaming, Some((4, "shown before".to_string())));
    list.cancel_rename();
    assert_eq!(list.renaming, None);
}

#[test]
fn a_name_without_the_extension_is_edited_whole() {
    let mut list = ProjectList::new();
    list.refresh(vec![entry("odd.txt", None)]);
    list.start_rename(0, "odd.txt");
    assert_eq!(list.renaming, Some((0, "odd.txt".to_string())));
}

#[test]
fn deleting_the_selected_capture_clears_the_selection() {
    let mut list = ProjectList::new();
    list.refresh(vec![entry("a.dsl", Some(2)), entry("b.dsl", Some(1))]);
    list.select(1);
    assert_eq!(list.delete_candidate(), None);
    list.ask_delete(0);
    assert_eq!(list.delete_candidate(), Some(0));
    assert!(!list.deleted(0));
    assert_eq!(list.selected, Some(1));
    assert_eq!(list.delete_confirm, None);
    list.ask_delete(1);
    assert!(list.deleted(1));
    assert_eq!(list.selected, None);
    list.ask_delete(5);
    assert_eq!(list.delete_candidate(), None);
    list.cancel_delete();
    assert_eq!(list.delete_confirm, None);
}

fn project(channels: Vec<SessionChannel>) -> DslProject {
    DslProject {
        header: parse_header(
            "driver = D\ntotal samples = 4096\ntotal probes = 2\ntotal blocks = 3\n\
             samplerate = 2.5 MHz\nprobe7 = P",
        )
        .unwrap(),
        channels,
        sample_count: 1,
        sample_rate: 1,
    }
}

#[test]
fn captures_are_described_in_rows() {
    let rows = info_rows(&project(Vec::new()), "1.000 s");
    let rows: Vec<(&str, &str)> = rows.iter().map(|(a, b)| (a.as_str(), b.as_str())).collect();
    assert_eq!(
        rows,
        vec![
            ("Driver", "D"),
            ("Sample Rate", "2.500 MHz"),
            ("Duration", "1.000 s"),
            ("Total Samples", "4096"),
            ("Channels", "2"),
            ("Blocks", "3"),
        ]
    );
}

#[test]
fn channels_are_tabled_or_else_probes() {
    assert_eq!(channel_rows(&project(Vec::new())), vec![vec!["Index", "Name"], vec!["7", "P"]]);
    let channel = |index, enabled| SessionChannel {
        index,
        name: format!("c{index}"),
        enabled,
        channel_type: 0,
    };
    assert_eq!(
        channel_rows(&project(vec![channel(0, true), channel(15, false)])),
        vec![
            vec!["Index", "Name", "Enabled"],
            vec!["0", "c0", "yes"],
            vec!["15", "c15", "no"],
        ]
    );
}
