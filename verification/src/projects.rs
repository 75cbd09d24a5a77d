//! The list of captures: order, selection, renaming and deletion.

use vstd::prelude::*;
use vstd::string::{StrSliceExecFns, StringExecFns};

use crate::text;
use crate::text::{characters, is_literal, trim};

verus! {

/// A capture file.
#[derive(Debug, Clone)]
pub struct ProjectEntry {
    /// The path, in the bytes of the platform.
    pub path: Vec<u8>,
    /// The name of the file.
    pub name: String,
    pub size: u64,
    /// When the file was last modified, in nanoseconds since 1970.
    pub modified: Option<i128>,
}

/// The captures on offer and what is being done with them.
pub struct ProjectList {
    pub projects: Vec<ProjectEntry>,
    pub selected: Option<usize>,
    /// The capture that is being renamed, and the text in the field.
    pub renaming: Option<(usize, String)>,
    /// The capture that may be deleted, once confirmed.
    pub delete_confirm: Option<usize>,
}

/// When a file counts as last modified. Without a time it is 1970.
pub open spec fn time_of(entry: ProjectEntry) -> i128 {
    match entry.modified {
        Some(t) => t,
        None => 0,
    }
}

/// The entries of time `t`, in their order.
pub open spec fn dated(entries: Seq<ProjectEntry>, t: i128) -> Seq<ProjectEntry>
    decreases entries.len(),
{
    if entries.len() == 0 {
        Seq::empty()
    } else {
        let before = dated(entries.drop_last(), t);
        if time_of(entries.last()) == t {
            before.push(entries.last())
        } else {
            before
        }
    }
}

/// Whether `sorted` holds the entries, newest first, and entries of one time in
/// the order in which they came.
pub open spec fn newest_first(sorted: Seq<ProjectEntry>, entries: Seq<ProjectEntry>) -> bool {
    &&& forall|i: int, j: int|
        0 <= i <= j < sorted.len() ==> time_of(#[trigger] sorted[i]) >= time_of(
            #[trigger] sorted[j],
        )
    &&& forall|t: i128| #[trigger] dated(sorted, t) == dated(entries, t)
    &&& sorted.len() == entries.len()
}

/// Entries of one time come from the front part first.
proof fn lemma_dated_concat(a: Seq<ProjectEntry>, b: Seq<ProjectEntry>, t: i128)
    ensures
        dated(a + b, t) == dated(a, t) + dated(b, t),
    decreases b.len(),
{
    if b.len() == 0 {
        assert(a + b =~= a);
        assert(dated(a, t) + dated(b, t) =~= dated(a, t));
    } else {
        assert((a + b).drop_last() =~= a + b.drop_last());
        lemma_dated_concat(a, b.drop_last(), t);
        assert(dated(a + b, t) =~= dated(a, t) + dated(b, t));
    }
}

/// Older entries hold none of time `t`.
proof fn lemma_dated_older(s: Seq<ProjectEntry>, t: i128)
    requires
        forall|i: int| 0 <= i < s.len() ==> time_of(#[trigger] s[i]) < t,
    ensures
        dated(s, t) == Seq::<ProjectEntry>::empty(),
    decreases s.len(),
{
    if s.len() > 0 {
        assert(s.last() == s[s.len() - 1]);
        lemma_dated_older(s.drop_last(), t);
    }
}

/// Putting an entry behind all that are as new or newer keeps the order.
proof fn lemma_insert_newest_first(
    sorted: Seq<ProjectEntry>,
    entries: Seq<ProjectEntry>,
    pos: int,
    e: ProjectEntry,
)
    requires
        newest_first(sorted, entries),
        0 <= pos <= sorted.len(),
        forall|i: int| 0 <= i < pos ==> time_of(#[trigger] sorted[i]) >= time_of(e),
        forall|i: int| pos <= i < sorted.len() ==> time_of(#[trigger] sorted[i]) < time_of(e),
    ensures
        newest_first(sorted.insert(pos, e), entries.push(e)),
{
    let after = sorted.insert(pos, e);
    let more = entries.push(e);
    let a = sorted.take(pos);
    let b = sorted.skip(pos);
    assert(sorted =~= a + b);
    assert(after =~= a.push(e) + b);
    assert(more.drop_last() =~= entries);
    assert(a.push(e).drop_last() =~= a);
    assert forall|t: i128| #[trigger] dated(after, t) == dated(more, t) by {
        lemma_dated_concat(a, b, t);
        lemma_dated_concat(a.push(e), b, t);
        if t == time_of(e) {
            lemma_dated_older(b, t);
            assert(dated(after, t) =~= dated(sorted, t).push(e));
        }
        assert(dated(sorted, t) == dated(entries, t));
    }
    assert forall|i: int, j: int| 0 <= i <= j < after.len() implies time_of(#[trigger] after[i])
        >= time_of(#[trigger] after[j]) by {
        let oi = if i <= pos {
            i
        } else {
            i - 1
        };
        let oj = if j <= pos {
            j
        } else {
            j - 1
        };
        if i != pos {
            assert(after[i] == sorted[oi]);
        }
        if j != pos {
            assert(after[j] == sorted[oj]);
        }
    }
}

fn modified_time(entry: &ProjectEntry) -> (t: i128)
    ensures
        t == time_of(*entry),
{
    match entry.modified {
        Some(t) => t,
        None => 0,
    }
}

/// Sorts captures by when they were modified, newest first.
pub fn sort_newest_first(entries: Vec<ProjectEntry>) -> (sorted: Vec<ProjectEntry>)
    ensures
        newest_first(sorted@, entries@),
{
    let ghost all = entries@;
    let mut rest: Vec<ProjectEntry> = entries;
    let mut sorted: Vec<ProjectEntry> = Vec::new();
    let ghost mut n: int = 0;
    assert(all.skip(0) =~= all);
    assert(all.take(0) =~= Seq::<ProjectEntry>::empty());
    while rest.len() > 0
        invariant
            0 <= n <= all.len(),
            rest@ == all.skip(n),
            newest_first(sorted@, all.take(n)),
        decreases rest@.len(),
    {
        let e: ProjectEntry = rest.remove(0);
        let t: i128 = modified_time(&e);
        let mut pos: usize = sorted.len();
        while pos > 0 && modified_time(&sorted[pos - 1]) < t
            invariant
                t == time_of(e),
                pos <= sorted@.len(),
                forall|i: int| pos <= i < sorted@.len() ==> time_of(#[trigger] sorted@[i]) < t,
            decreases pos,
        {
            pos = pos - 1;
        }
        proof {
            assert(all.take(n + 1) =~= all.take(n).push(e));
            assert(rest@ =~= all.skip(n + 1));
            lemma_insert_newest_first(sorted@, all.take(n), pos as int, e);
            n = n + 1;
        }
        sorted.insert(pos, e);
    }
    assert(all.take(n) =~= all);
    sorted
}

/// Whether a file of this name is a capture: its extension is `dsl`.
pub open spec fn is_capture_name(name: Seq<char>) -> bool {
    name.len() > 4 && text::ends_with(name, ".dsl"@)
}

/// Position of the first entry with the given path, or the number of entries.
pub open spec fn path_position(entries: Seq<ProjectEntry>, path: Seq<u8>) -> int
    decreases entries.len(),
{
    if entries.len() == 0 {
        0
    } else if entries.first().path@ == path {
        0
    } else {
        1 + path_position(entries.drop_first(), path)
    }
}

/// The selection after the list has been replaced: it stays on the file.
pub open spec fn selection_after(
    projects: Seq<ProjectEntry>,
    selected: Option<usize>,
    entries: Seq<ProjectEntry>,
) -> Option<usize> {
    match selected {
        Some(sel) => if sel < projects.len() {
            let i = path_position(entries, projects[sel as int].path@);
            if i < entries.len() {
                Some(i as usize)
            } else {
                None
            }
        } else {
            selected
        },
        None => None,
    }
}

/// Text in the field when a file is to be renamed: its name without extension.
pub open spec fn stem_of(name: Seq<char>) -> Seq<char> {
    if text::ends_with(name, ".dsl"@) {
        name.take(name.len() - 4)
    } else {
        name
    }
}

/// Name that a text in the field asks for. `None` for a blank text.
pub open spec fn file_name_for(field: Seq<char>) -> Option<Seq<char>> {
    let name = text::trimmed(field);
    if name.len() == 0 {
        None
    } else if text::ends_with(name, ".dsl"@) {
        Some(name)
    } else {
        Some(name + ".dsl"@)
    }
}

/// Whether the characters end in `.dsl`.
fn ends_in_dsl(s: &[char]) -> (b: bool)
    ensures
        b == text::ends_with(s@, ".dsl"@),
        b ==> s@.len() >= 4,
{
    proof {
        reveal_strlit(".dsl");
    }
    if s.len() < 4 {
        return false;
    }
    let n: usize = s.len();
    let tail: &[char] = &s[n - 4..n];
    assert(tail@ =~= s@.skip(n - 4));
    is_literal(tail, ".dsl")
}

/// Whether a file of this name is a capture.
pub fn has_capture_name(name: &str) -> (b: bool)
    ensures
        b == is_capture_name(name@),
{
    let s: Vec<char> = characters(name);
    s.len() > 4 && ends_in_dsl(s.as_slice())
}

fn same_path(a: &Vec<u8>, b: &Vec<u8>) -> (same: bool)
    ensures
        same == (a@ == b@),
{
    if a.len() != b.len() {
        return false;
    }
    let mut i: usize = 0;
    while i < a.len()
        invariant
            i <= a@.len() == b@.len(),
            forall|k: int| 0 <= k < i ==> a@[k] == b@[k],
        decreases a@.len() - i,
    {
        if a[i] != b[i] {
            return false;
        }
        i = i + 1;
    }
    assert(a@ =~= b@);
    true
}

fn find_path(entries: &Vec<ProjectEntry>, path: &Vec<u8>) -> (r: Option<usize>)
    ensures
        match r {
            Some(i) => i == path_position(entries@, path@) && i < entries@.len(),
            None => path_position(entries@, path@) >= entries@.len(),
        },
{
    let mut i: usize = 0;
    assert(entries@.skip(0) =~= entries@);
    while i < entries.len()
        invariant
            i <= entries@.len(),
            path_position(entries@, path@) == i + path_position(entries@.skip(i as int), path@),
        decreases entries@.len() - i,
    {
        assert(entries@.skip(i as int).drop_first() =~= entries@.skip(i + 1));
        if same_path(&entries[i].path, path) {
            return Some(i);
        }
        i = i + 1;
    }
    None
}

impl ProjectList {
    pub fn new() -> (list: Self)
        ensures
            list.projects@.len() == 0,
            list.selected is None,
            list.renaming is None,
            list.delete_confirm is None,
    {
        ProjectList { projects: Vec::new(), selected: None, renaming: None, delete_confirm: None }
    }

    /// Replaces the list. The selection stays on the file that was selected.
    pub fn refresh(&mut self, entries: Vec<ProjectEntry>)
        ensures
            newest_first(final(self).projects@, entries@),
            final(self).selected == selection_after(
                old(self).projects@,
                old(self).selected,
                final(self).projects@,
            ),
            final(self).renaming == old(self).renaming,
            final(self).delete_confirm == old(self).delete_confirm,
    {
        let sorted: Vec<ProjectEntry> = sort_newest_first(entries);
        if let Some(sel) = self.selected {
            if sel < self.projects.len() {
                self.selected = find_path(&sorted, &self.projects[sel].path);
            }
        }
        self.projects = sorted;
    }

    /// Selects a capture. Returns whether it has to be loaded.
    pub fn select(&mut self, i: usize) -> (load: bool)
        ensures
            load == (old(self).selected != Some(i)),
            final(self).selected == Some(i),
            final(self).projects == old(self).projects,
            final(self).renaming == old(self).renaming,
            final(self).delete_confirm == old(self).delete_confirm,
    {
        let load: bool = match self.selected {
            Some(sel) => sel != i,
            None => true,
        };
        if load {
            self.selected = Some(i);
        }
        load
    }

    /// Opens the field in which a capture is renamed. `name` is its name as the
    /// list showed it.
    pub fn start_rename(&mut self, i: usize, name: &str)
        ensures
            final(self).renaming matches Some((idx, field)) && idx == i && field@ == stem_of(name@),
            final(self).projects == old(self).projects,
            final(self).selected == old(self).selected,
            final(self).delete_confirm == old(self).delete_confirm,
    {
        let chars: Vec<char> = characters(name);
        let field: String = if ends_in_dsl(chars.as_slice()) {
            let stem: &str = name.substring_char(0, chars.len() - 4);
            assert(stem@ =~= name@.take(name@.len() - 4));
            stem.to_owned()
        } else {
            name.to_owned()
        };
        proof {
            reveal_strlit(".dsl");
        }
        self.renaming = Some((i, field));
    }

    pub fn cancel_rename(&mut self)
        ensures
            final(self).renaming is None,
            final(self).projects == old(self).projects,
            final(self).selected == old(self).selected,
            final(self).delete_confirm == old(self).delete_confirm,
    {
        self.renaming = None;
    }

    /// Closes the field. Returns which capture is to be renamed, and to what,
    /// unless the field is blank or the capture is gone.
    pub fn commit_rename(&mut self) -> (r: Option<(usize, String)>)
        ensures
            final(self).renaming is None,
            final(self).projects == old(self).projects,
            final(self).selected == old(self).selected,
            final(self).delete_confirm == old(self).delete_confirm,
            match (r, old(self).renaming) {
                (Some((i, name)), Some((idx, field))) => {
                    &&& i == idx
                    &&& idx < old(self).projects@.len()
                    &&& file_name_for(field@) == Some(name@)
                },
                (None, Some((idx, field))) => idx >= old(self).projects@.len() || file_name_for(
                    field@,
                ) is None,
                (None, None) => true,
                (Some(_), None) => false,
            },
    {
        let (idx, field) = match self.renaming.take() {
            Some(pair) => pair,
            None => {
                return None;
            },
        };
        if idx >= self.projects.len() {
            return None;
        }
        let chars: Vec<char> = characters(field.as_str());
        let (lo, hi) = trim(chars.as_slice(), 0, chars.len());
        assert(chars@.subrange(0, chars@.len() as int) =~= field@);
        if lo == hi {
            return None;
        }
        let trimmed: &[char] = &chars.as_slice()[lo..hi];
        let mut name: String = field.as_str().substring_char(lo, hi).to_owned();
        assert(name@ =~= text::trimmed(field@));
        if !ends_in_dsl(trimmed) {
            name.append(".dsl");
        }
        Some((idx, name))
    }

    /// Asks whether a capture is to be deleted.
    pub fn ask_delete(&mut self, i: usize)
        ensures
            final(self).delete_confirm == Some(i),
            final(self).projects == old(self).projects,
            final(self).selected == old(self).selected,
            final(self).renaming == old(self).renaming,
    {
        self.delete_confirm = Some(i);
    }

    pub fn cancel_delete(&mut self)
        ensures
            final(self).delete_confirm is None,
            final(self).projects == old(self).projects,
            final(self).selected == old(self).selected,
            final(self).renaming == old(self).renaming,
    {
        self.delete_confirm = None;
    }

    /// The capture that may be deleted, if it is still in the list.
    pub fn delete_candidate(&self) -> (i: Option<usize>)
        ensures
            i == match self.delete_confirm {
                Some(i) => if i < self.projects@.len() {
                    Some(i)
                } else {
                    None
                },
                None => None,
            },
    {
        match self.delete_confirm {
            Some(i) => {
                if i < self.projects.len() {
                    Some(i)
                } else {
                    None
                }
            },
            None => None,
        }
    }

    /// Notes that capture `i` has been deleted. Returns whether it was the
    /// selected one, so that nothing is selected now.
    pub fn deleted(&mut self, i: usize) -> (was_selected: bool)
        ensures
            was_selected == (old(self).selected == Some(i)),
            final(self).selected == if was_selected {
                None
            } else {
                old(self).selected
            },
            final(self).delete_confirm is None,
            final(self).projects == old(self).projects,
            final(self).renaming == old(self).renaming,
    {
        let was_selected: bool = match self.selected {
            Some(sel) => sel == i,
            None => false,
        };
        if was_selected {
            self.selected = None;
        }
        self.delete_confirm = None;
        was_selected
    }
}

/// The file that is found under a path has that path, and none before it does.
proof fn lemma_path_position(entries: Seq<ProjectEntry>, path: Seq<u8>)
    ensures
        0 <= path_position(entries, path) <= entries.len(),
        path_position(entries, path) < entries.len() ==> entries[path_position(
            entries,
            path,
        )].path@ == path,
        forall|j: int|
            0 <= j < path_position(entries, path) ==> (#[trigger] entries[j]).path@ != path,
    decreases entries.len(),
{
    if entries.len() > 0 && entries.first().path@ != path {
        let rest = entries.drop_first();
        lemma_path_position(rest, path);
        assert forall|j: int| 0 <= j < path_position(entries, path) implies (
        #[trigger] entries[j]).path@ != path by {
            if j > 0 {
                assert(rest[j - 1] == entries[j]);
            }
        }
    }
}

/// Whatever happens to the list, the selected file stays selected for as long
/// as it is there: at the first place that has its path.
pub proof fn law_selection_follows_file(
    projects: Seq<ProjectEntry>,
    selected: usize,
    entries: Seq<ProjectEntry>,
)
    requires
        selected < projects.len(),
        entries.len() <= usize::MAX,
    ensures
        selection_after(projects, Some(selected), entries) matches Some(i) ==> i < entries.len()
            && entries[i as int].path@ == projects[selected as int].path@ && forall|j: int|
            0 <= j < i ==> (#[trigger] entries[j]).path@ != projects[selected as int].path@,
        selection_after(projects, Some(selected), entries) is None ==> forall|i: int|
            0 <= i < entries.len() ==> (#[trigger] entries[i]).path@
                != projects[selected as int].path@,
{
    let path = projects[selected as int].path@;
    lemma_path_position(entries, path);
    if path_position(entries, path) >= entries.len() {
        lemma_path_absent(entries, path);
    }
}

/// A path that is not found is not there.
proof fn lemma_path_absent(entries: Seq<ProjectEntry>, path: Seq<u8>)
    requires
        path_position(entries, path) >= entries.len(),
    ensures
        forall|i: int| 0 <= i < entries.len() ==> (#[trigger] entries[i]).path@ != path,
    decreases entries.len(),
{
    if entries.len() > 0 {
        let rest = entries.drop_first();
        lemma_path_absent(rest, path);
        assert forall|i: int| 0 <= i < entries.len() implies (#[trigger] entries[i]).path@
            != path by {
            if i > 0 {
                assert(rest[i - 1] == entries[i]);
            }
        }
    }
}

/// A capture keeps its extension when it is renamed, so that it stays in the
/// list, unless the extension is all that the field holds.
pub proof fn law_renamed_file_is_a_capture(field: Seq<char>)
    requires
        text::trimmed(field) != ".dsl"@,
    ensures
        file_name_for(field) matches Some(name) ==> is_capture_name(name),
{
    reveal_strlit(".dsl");
    let name = text::trimmed(field);
    if name.len() > 0 {
        if text::ends_with(name, ".dsl"@) {
            if name.len() == 4 {
                assert(name.skip(0) =~= name);
            }
        } else {
            let full = name + ".dsl"@;
            assert(full.skip(full.len() - 4) =~= ".dsl"@);
        }
    }
}

/// Opening the field and closing it again asks for the name that the file has,
/// unless the name without its extension begins or ends in white space, or
/// ends in the extension once more.
pub proof fn law_rename_without_edit_keeps_name(name: Seq<char>)
    requires
        is_capture_name(name),
        text::trimmed(stem_of(name)) == stem_of(name),
        !text::ends_with(stem_of(name), ".dsl"@),
    ensures
        file_name_for(stem_of(name)) == Some(name),
{
    reveal_strlit(".dsl");
    assert(stem_of(name) + ".dsl"@ =~= name);
}

/// What has a time of its own is found among the entries of that time.
proof fn lemma_dated_count(s: Seq<ProjectEntry>, e: ProjectEntry)
    ensures
        s.to_multiset().count(e) == dated(s, time_of(e)).to_multiset().count(e),
    decreases s.len(),
{
    broadcast use vstd::seq_lib::group_to_multiset_ensures;

    let t = time_of(e);
    if s.len() > 0 {
        let shorter = s.drop_last();
        lemma_dated_count(shorter, e);
        assert(s =~= shorter.push(s.last()));
        vstd::seq_lib::to_multiset_build(shorter, s.last());
        if time_of(s.last()) == t {
            vstd::seq_lib::to_multiset_build(dated(shorter, t), s.last());
        }
    }
}

/// The list holds every capture as often as it was found, newest first, and
/// captures of one time in the order in which they were found. A capture
/// without a time counts as being from the start of 1970.
pub proof fn law_list_holds_every_capture(sorted: Seq<ProjectEntry>, entries: Seq<ProjectEntry>)
    requires
        newest_first(sorted, entries),
    ensures
        sorted.to_multiset() == entries.to_multiset(),
        forall|t: i128| #[trigger] dated(sorted, t) == dated(entries, t),
        forall|i: int, j: int|
            0 <= i <= j < sorted.len() ==> match ((#[trigger] sorted[i]).modified, (
            #[trigger] sorted[j]).modified) {
                (Some(a), Some(b)) => a >= b,
                (Some(a), None) => a >= 0,
                (None, Some(b)) => b <= 0,
                (None, None) => true,
            },
{
    assert forall|e: ProjectEntry| sorted.to_multiset().count(e) == entries.to_multiset().count(
        e,
    ) by {
        lemma_dated_count(sorted, e);
        lemma_dated_count(entries, e);
        assert(dated(sorted, time_of(e)) == dated(entries, time_of(e)));
    }
    assert(sorted.to_multiset() =~= entries.to_multiset());
    assert forall|i: int, j: int| 0 <= i <= j < sorted.len() implies match ((
    #[trigger] sorted[i]).modified, (#[trigger] sorted[j]).modified) {
        (Some(a), Some(b)) => a >= b,
        (Some(a), None) => a >= 0,
        (None, Some(b)) => b <= 0,
        (None, None) => true,
    } by {
        assert(time_of(sorted[i]) >= time_of(sorted[j]));
    }
}

/// Captures of one time stay in the order in which they were found: what is
/// listed of a time is listed front part first.
pub proof fn law_captures_of_one_time_keep_their_order(
    a: Seq<ProjectEntry>,
    b: Seq<ProjectEntry>,
    e: ProjectEntry,
    t: i128,
)
    ensures
        dated(a + b, t) == dated(a, t) + dated(b, t),
        dated(Seq::empty(), t) == Seq::<ProjectEntry>::empty(),
        (e.modified == Some(t) || (e.modified is None && t == 0)) ==> dated(seq![e], t) == seq![e],
        !(e.modified == Some(t) || (e.modified is None && t == 0)) ==> dated(seq![e], t)
            == Seq::<ProjectEntry>::empty(),
{
    lemma_dated_concat(a, b, t);
    reveal_with_fuel(dated, 2);
    assert(seq![e].drop_last() =~= Seq::<ProjectEntry>::empty());
    assert(Seq::<ProjectEntry>::empty().push(e) =~= seq![e]);
}

/// A selection that names no capture of the list stays as it is.
pub proof fn law_no_selection_stays_none(
    projects: Seq<ProjectEntry>,
    selected: Option<usize>,
    entries: Seq<ProjectEntry>,
)
    ensures
        selected is None ==> selection_after(projects, selected, entries) is None,
        selected matches Some(i) ==> i >= projects.len() ==> selection_after(
            projects,
            selected,
            entries,
        ) == selected,
{
}

/// A file is a capture exactly if its name is a stem with the extension behind
/// it, and the field to rename it starts with that stem.
pub proof fn law_captures_are_named_by_a_stem(stem: Seq<char>, name: Seq<char>)
    ensures
        is_capture_name(stem + ".dsl"@) <==> stem.len() > 0,
        stem_of(stem + ".dsl"@) == stem,
        is_capture_name(name) ==> exists|s: Seq<char>|
            s.len() > 0 && name == #[trigger] (s + ".dsl"@),
        (forall|s: Seq<char>| name != #[trigger] (s + ".dsl"@)) ==> stem_of(name) == name,
{
    reveal_strlit(".dsl");
    let full = stem + ".dsl"@;
    assert(full.skip(full.len() - 4) =~= ".dsl"@);
    assert(full.take(full.len() - 4) =~= stem);
    if text::ends_with(name, ".dsl"@) {
        let s = name.take(name.len() - 4);
        assert(name =~= s + ".dsl"@);
    }
}

/// What the field asks for is the text in it without the white space at its
/// ends, with the extension behind it unless it is there; a blank field asks
/// for nothing.
pub proof fn law_field_asks_for_a_capture(pre: Seq<char>, stem: Seq<char>, post: Seq<char>)
    requires
        text::all_space(pre),
        text::all_space(post),
        stem.len() > 0,
        !text::is_space(stem.first()),
        !text::is_space(stem.last()),
    ensures
        file_name_for(pre + stem + post) == Some(
            if text::ends_with(stem, ".dsl"@) {
                stem
            } else {
                stem + ".dsl"@
            },
        ),
        file_name_for(pre) is None,
{
    text::law_trim_takes_the_white_space(pre, stem, post);
    let none = Seq::<char>::empty();
    text::law_trim_takes_the_white_space(pre, none, none);
    assert(pre + none + none =~= pre);
}

} // verus!
