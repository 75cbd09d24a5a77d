//! The raw blocks of a capture file, by channel and number.

use vstd::prelude::*;
use vstd::string::StringExecFns;
use zip::ZipArchive;

use std::io::Cursor;

use crate::archive;
use crate::archive::{archive_len, entry_bytes, entry_info, open_archive, EntryModel};
use crate::parser;
use crate::text;
use crate::text::push_decimal;

verus! {

/// Name under which an archive holds a block.
pub open spec fn name_of(channel_idx: u32, block_idx: u32) -> Seq<char> {
    "L-"@ + text::decimal(channel_idx as nat) + "/"@ + text::decimal(block_idx as nat)
}

/// Name under which an archive holds a block.
pub fn block_name(channel_idx: u32, block_idx: u32) -> (name: String)
    ensures
        name@ == name_of(channel_idx, block_idx),
{
    let mut name: String = "L-".to_owned();
    push_decimal(&mut name, channel_idx as u64);
    name.append("/");
    push_decimal(&mut name, block_idx as u64);
    name
}

/// Different blocks have different names.
pub proof fn law_block_names_differ(ch: u32, blk: u32, other_ch: u32, other_blk: u32)
    requires
        name_of(ch, blk) == name_of(other_ch, other_blk),
    ensures
        ch == other_ch,
        blk == other_blk,
{
    reveal_strlit("L-");
    reveal_strlit("/");
    let a = text::decimal(ch as nat);
    let b = text::decimal(other_ch as nat);
    let c = text::decimal(blk as nat);
    let d = text::decimal(other_blk as nat);
    text::law_decimal_reads_back(ch as nat);
    text::law_decimal_reads_back(other_ch as nat);
    text::law_decimal_reads_back(blk as nat);
    text::law_decimal_reads_back(other_blk as nat);
    let s = name_of(ch, blk);
    let t = name_of(other_ch, other_blk);
    assert(s[2 + a.len() as int] == '/');
    assert(t[2 + b.len() as int] == '/');
    if a.len() < b.len() {
        assert(t[2 + a.len() as int] == b[a.len() as int]);
        assert(text::is_digit(b[a.len() as int]));
    }
    if b.len() < a.len() {
        assert(s[2 + b.len() as int] == a[b.len() as int]);
        assert(text::is_digit(a[b.len() as int]));
    }
    assert(a =~= s.subrange(2, 2 + a.len() as int));
    assert(b =~= t.subrange(2, 2 + b.len() as int));
    assert(c =~= s.skip(3 + a.len() as int));
    assert(d =~= t.skip(3 + b.len() as int));
}

/// Position of the last entry of the given name, or -1.
pub open spec fn last_named(entries: Seq<EntryModel>, name: Seq<char>) -> int
    decreases entries.len(),
{
    if entries.len() == 0 {
        -1
    } else if entries.last().name == name {
        entries.len() - 1
    } else {
        last_named(entries.drop_last(), name)
    }
}

/// Raw bytes of a block. `None` if the archive has no entry for it or if the
/// entry cannot be unpacked.
pub open spec fn block_data(entries: Seq<EntryModel>, channel_idx: u32, block_idx: u32) -> Option<
    Seq<u8>,
> {
    let i = last_named(entries, name_of(channel_idx, block_idx));
    if i < 0 {
        None
    } else {
        archive::data_of(entries[i])
    }
}

/// Why the first entry that cannot be opened cannot be opened.
pub open spec fn first_fault(entries: Seq<EntryModel>) -> Option<Seq<char>>
    decreases entries.len(),
{
    if entries.len() == 0 {
        None
    } else if first_fault(entries.drop_last()) is Some {
        first_fault(entries.drop_last())
    } else {
        entries.last().fault
    }
}

/// Earlier faults come first.
proof fn lemma_first_fault(entries: Seq<EntryModel>, n: int)
    requires
        0 <= n <= entries.len(),
        first_fault(entries.take(n)) is Some,
    ensures
        first_fault(entries) == first_fault(entries.take(n)),
    decreases entries.len(),
{
    if n < entries.len() {
        assert(entries.drop_last().take(n) =~= entries.take(n));
        lemma_first_fault(entries.drop_last(), n);
    } else {
        assert(entries.take(n) =~= entries);
    }
}

/// An open capture file, with an index of its entries.
pub struct BlockSource {
    pub archive: ZipArchive<Cursor<Vec<u8>>>,
    /// Names of the entries, by position.
    pub names: Vec<String>,
}

impl BlockSource {
    /// What the archive holds.
    pub open spec fn entries(&self) -> Seq<EntryModel> {
        archive::archive_entries(self.archive)
    }

    /// Whether the index is that of the archive.
    pub open spec fn wf(&self) -> bool {
        &&& self.names@.len() == self.entries().len()
        &&& forall|i: int|
            0 <= i < self.names@.len() ==> #[trigger] self.names@[i]@ == self.entries()[i].name
    }

    /// Opens the archive and indexes its entries. All of them must open.
    pub fn open(bytes: Vec<u8>) -> (r: Result<Self, String>)
        ensures
            match archive::zip_listing(bytes@) {
                Err(m) => r matches Err(e) && e@ == m,
                Ok(entries) => match first_fault(entries) {
                    Some(m) => r matches Err(e) && e@ == m,
                    None => r matches Ok(source) && source.wf() && source.entries() == entries,
                },
            },
    {
        let mut archive: ZipArchive<Cursor<Vec<u8>>> = match open_archive(bytes) {
            Ok(archive) => archive,
            Err(e) => {
                return Err(e);
            },
        };
        let ghost entries = archive::archive_entries(archive);
        let n: usize = archive_len(&archive);
        let mut names: Vec<String> = Vec::new();
        let mut i: usize = 0;
        while i < n
            invariant
                i <= n == entries.len(),
                archive::zip_listing(bytes@) == Ok::<Seq<EntryModel>, Seq<char>>(entries),
                archive::archive_entries(archive) == entries,
                names@.len() == i,
                forall|k: int| 0 <= k < i ==> #[trigger] names@[k]@ == entries[k].name,
                first_fault(entries.take(i as int)) is None,
            decreases n - i,
        {
            assert(entries.take(i + 1).drop_last() =~= entries.take(i as int));
            match entry_info(&mut archive, i) {
                Ok((name, _size)) => {
                    names.push(name);
                },
                Err(e) => {
                    proof {
                        lemma_first_fault(entries, i + 1);
                    }
                    return Err(e);
                },
            }
            i = i + 1;
        }
        assert(entries.take(n as int) =~= entries);
        Ok(BlockSource { archive, names })
    }

    /// Position of the last entry of the given name.
    fn find(&self, name: &String) -> (r: Option<usize>)
        requires
            self.wf(),
        ensures
            match r {
                Some(i) => i == last_named(self.entries(), name@) && i < self.entries().len(),
                None => last_named(self.entries(), name@) < 0,
            },
    {
        let ghost entries = self.entries();
        let mut i: usize = self.names.len();
        assert(entries.take(i as int) =~= entries);
        while i > 0
            invariant
                self.wf(),
                entries == self.entries(),
                i <= entries.len(),
                last_named(entries, name@) == last_named(entries.take(i as int), name@),
            decreases i,
        {
            assert(entries.take(i as int).drop_last() =~= entries.take(i - 1));
            i = i - 1;
            if self.names[i] == *name {
                return Some(i);
            }
        }
        None
    }

    /// Reads the raw bytes of a block.
    pub fn read_block(&mut self, channel_idx: u32, block_idx: u32) -> (raw: Option<Vec<u8>>)
        requires
            old(self).wf(),
        ensures
            final(self).wf(),
            final(self).entries() == old(self).entries(),
            match (raw, block_data(old(self).entries(), channel_idx, block_idx)) {
                (Some(bytes), Some(d)) => bytes@ == d,
                (None, None) => true,
                _ => false,
            },
    {
        let name: String = block_name(channel_idx, block_idx);
        match self.find(&name) {
            Some(i) => entry_bytes(&mut self.archive, i),
            None => None,
        }
    }
}

/// Where several entries of an archive have the name of a block, the last of
/// them holds it, and where none has, there is no such block.
pub proof fn law_last_entry_of_a_name_counts(
    entries: Seq<EntryModel>,
    ch: u32,
    blk: u32,
    i: int,
)
    ensures
        0 <= i < entries.len() && entries[i].name == name_of(ch, blk) && (forall|k: int|
            i < k < entries.len() ==> (#[trigger] entries[k]).name != name_of(ch, blk))
            ==> block_data(entries, ch, blk) == archive::data_of(entries[i]),
        (forall|k: int|
            0 <= k < entries.len() ==> (#[trigger] entries[k]).name != name_of(ch, blk))
            ==> block_data(entries, ch, blk) is None,
{
    lemma_last_named(entries, name_of(ch, blk));
}

/// The last entry of a name is found, if there is one.
proof fn lemma_last_named(entries: Seq<EntryModel>, name: Seq<char>)
    ensures
        -1 <= last_named(entries, name) < entries.len(),
        last_named(entries, name) >= 0 ==> entries[last_named(entries, name)].name == name,
        forall|k: int|
            last_named(entries, name) < k < entries.len() ==> (#[trigger] entries[k]).name != name,
    decreases entries.len(),
{
    if entries.len() > 0 && entries.last().name != name {
        let shorter = entries.drop_last();
        lemma_last_named(shorter, name);
        assert forall|k: int| last_named(entries, name) < k < entries.len() implies (
        #[trigger] entries[k]).name != name by {
            if k < shorter.len() {
                assert(shorter[k] == entries[k]);
            }
        }
    }
}

/// A file opens exactly if every one of its entries does; otherwise the first
/// that does not says why.
pub proof fn law_first_fault_is_told(entries: Seq<EntryModel>, i: int)
    ensures
        first_fault(entries) is None <==> forall|k: int|
            0 <= k < entries.len() ==> (#[trigger] entries[k]).fault is None,
        0 <= i < entries.len() && entries[i].fault is Some && (forall|k: int|
            0 <= k < i ==> (#[trigger] entries[k]).fault is None) ==> first_fault(entries)
            == entries[i].fault,
    decreases entries.len(),
{
    if entries.len() > 0 {
        let shorter = entries.drop_last();
        law_first_fault_is_told(shorter, i);
        assert(forall|k: int| 0 <= k < shorter.len() ==> shorter[k] == entries[k]);
        assert(entries.last() == entries[entries.len() - 1]);
    }
}

/// The samples of a capture are counted by the blocks of channel 0: those and no
/// other blocks are counted.
pub proof fn law_blocks_of_channel_zero_are_counted(ch: u32, blk: u32)
    ensures
        parser::is_data_entry(name_of(ch, blk)) <==> ch == 0,
{
    reveal_strlit("L-");
    reveal_strlit("/");
    reveal_strlit("L-0/");
    let a = text::decimal(ch as nat);
    let b = text::decimal(blk as nat);
    let name = name_of(ch, blk);
    text::law_decimal_reads_back(ch as nat);
    text::law_decimal_reads_back(blk as nat);
    assert(text::is_digit(b[b.len() - 1]));
    assert(name[name.len() - 1] == b[b.len() - 1]);
    assert(!text::ends_with(name, "/"@)) by {
        assert(name.skip(name.len() - 1)[0] == name[name.len() - 1]);
    }
    assert(name[2] == a[0]);
    if ch == 0 {
        assert(a =~= seq!['0']);
        assert(name.take(4) =~= "L-0/"@);
    } else {
        text::law_decimal_has_no_leading_zero(ch as nat);
        assert(name.take(4)[2] == name[2]);
        assert("L-0/"@[2] == '0');
    }
}

} // verus!
