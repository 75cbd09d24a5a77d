//! Zip archives held in memory: what they list and what their entries hold.

use std::io::{Cursor, Read};

use vstd::prelude::*;
use vstd::utf8;
use zip::ZipArchive;

verus! {

/// An archive of the `zip` crate. Nothing inside a value is seen; what it
/// holds is named by `archive_entries`.
#[verifier::external_type_specification]
#[verifier::external_body]
#[verifier::reject_recursive_types(R)]
pub struct ExZipArchive<R>(zip::ZipArchive<R>);

/// The reader over bytes in memory that an archive is opened on.
#[verifier::external_type_specification]
#[verifier::external_body]
#[verifier::reject_recursive_types(T)]
pub struct ExCursor<T>(std::io::Cursor<T>);

/// One entry of an archive.
pub struct EntryModel {
    /// Name in the central directory.
    pub name: Seq<char>,
    /// Size in the central directory, uncompressed.
    pub size: u64,
    /// Why the entry cannot be opened, if it cannot.
    pub fault: Option<Seq<char>>,
    /// The bytes that the entry unpacks to, unless unpacking fails.
    pub data: Option<Seq<u8>>,
    /// The text that the entry unpacks to, or why it does not unpack to text.
    pub text: Result<Seq<char>, Seq<char>>,
}

/// Position of the first entry of the given name, or the number of entries.
pub open spec fn entry_named(entries: Seq<EntryModel>, name: Seq<char>) -> int
    decreases entries.len(),
{
    if entries.len() == 0 {
        0
    } else if entries.first().name == name {
        0
    } else {
        1 + entry_named(entries.drop_first(), name)
    }
}

/// What reading the entry of the given name as text gives. `None` if there is
/// no such entry or if it cannot be opened.
pub open spec fn text_of(entries: Seq<EntryModel>, name: Seq<char>) -> Option<
    Result<Seq<char>, Seq<char>>,
> {
    let i = entry_named(entries, name);
    if i < entries.len() && entries[i].fault is None {
        Some(entries[i].text)
    } else {
        None
    }
}

/// Name and size of an entry, or why it cannot be opened.
pub open spec fn info_of(entry: EntryModel) -> Result<(Seq<char>, u64), Seq<char>> {
    match entry.fault {
        None => Ok((entry.name, entry.size)),
        Some(e) => Err(e),
    }
}

/// The bytes that an entry unpacks to. `None` if it cannot be opened or unpacked.
pub open spec fn data_of(entry: EntryModel) -> Option<Seq<u8>> {
    match entry.fault {
        None => entry.data,
        Some(_) => None,
    }
}

/// Whether what an entry holds as text is what its bytes encode.
pub open spec fn text_matches_data(entry: EntryModel) -> bool {
    match entry.text {
        Ok(t) => entry.data matches Some(d) && utf8::valid_utf8(d) && t == utf8::decode_utf8(d),
        Err(_) => entry.data matches Some(d) ==> !utf8::valid_utf8(d),
    }
}

/// What `zip::ZipArchive::new` finds in the bytes of a file: the entries, in
/// their order, or the message of its error.
pub uninterp spec fn zip_listing(bytes: Seq<u8>) -> Result<Seq<EntryModel>, Seq<char>>;

/// The entries of an open archive, in their order.
pub uninterp spec fn archive_entries(archive: ZipArchive<Cursor<Vec<u8>>>) -> Seq<EntryModel>;

/// Calls `zip::ZipArchive::new` on a cursor over the bytes. Claims that what
/// it finds depends on the bytes alone.
#[verifier::external_body]
pub(crate) fn open_archive(bytes: Vec<u8>) -> (r: Result<ZipArchive<Cursor<Vec<u8>>>, String>)
    ensures
        match r {
            Ok(archive) => zip_listing(bytes@) == Ok::<Seq<EntryModel>, Seq<char>>(
                archive_entries(archive),
            ),
            Err(e) => zip_listing(bytes@) == Err::<Seq<EntryModel>, Seq<char>>(e@),
        },
{
    ZipArchive::new(Cursor::new(bytes)).map_err(|e| e.to_string())
}

/// Calls `zip::ZipArchive::len`. Claims that it counts the entries.
#[verifier::external_body]
pub(crate) fn archive_len(archive: &ZipArchive<Cursor<Vec<u8>>>) -> (n: usize)
    ensures
        n == archive_entries(*archive).len(),
{
    archive.len()
}

/// Calls `zip::ZipArchive::by_name` and reads the entry as text with
/// `std::io::Read::read_to_string`. Claims that this reads the first entry of
/// that name, that the text is what the entry's bytes encode in UTF-8, and
/// that the archive holds afterwards what it held before.
#[verifier::external_body]
pub(crate) fn entry_text(archive: &mut ZipArchive<Cursor<Vec<u8>>>, name: &str) -> (r: Option<
    Result<String, String>,
>)
    ensures
        archive_entries(*final(archive)) == archive_entries(*old(archive)),
        match (r, text_of(archive_entries(*old(archive)), name@)) {
            (None, None) => true,
            (Some(Ok(t)), Some(Ok(m))) => t@ == m,
            (Some(Err(e)), Some(Err(m))) => e@ == m,
            _ => false,
        },
        r is Some ==> text_matches_data(
            archive_entries(*old(archive))[entry_named(archive_entries(*old(archive)), name@)],
        ),
{
    let mut file = archive.by_name(name).ok()?;
    let mut text = String::new();
    Some(file.read_to_string(&mut text).map(|_| text).map_err(|e| e.to_string()))
}

/// Calls `zip::ZipArchive::by_index` and asks the entry for its name and size.
/// Claims that it gives those of the entry at that position, or the reason why
/// that entry cannot be opened, and that the archive holds afterwards what it
/// held before.
#[verifier::external_body]
pub(crate) fn entry_info(archive: &mut ZipArchive<Cursor<Vec<u8>>>, i: usize) -> (r: Result<
    (String, u64),
    String,
>)
    requires
        i < archive_entries(*old(archive)).len(),
    ensures
        archive_entries(*final(archive)) == archive_entries(*old(archive)),
        match (r, info_of(archive_entries(*old(archive))[i as int])) {
            (Ok((name, size)), Ok((n, s))) => name@ == n && size == s,
            (Err(e), Err(m)) => e@ == m,
            _ => false,
        },
{
    let file = archive.by_index(i).map_err(|e| e.to_string())?;
    Ok((file.name().to_string(), file.size()))
}

/// Calls `zip::ZipArchive::by_index` and reads the entry with
/// `std::io::Read::read_to_end`. Claims that it gives the bytes of the entry at
/// that position, and that the archive holds afterwards what it held before.
#[verifier::external_body]
pub(crate) fn entry_bytes(archive: &mut ZipArchive<Cursor<Vec<u8>>>, i: usize) -> (r: Option<
    Vec<u8>,
>)
    requires
        i < archive_entries(*old(archive)).len(),
    ensures
        archive_entries(*final(archive)) == archive_entries(*old(archive)),
        match (r, data_of(archive_entries(*old(archive))[i as int])) {
            (Some(bytes), Some(d)) => bytes@ == d,
            (None, None) => true,
            _ => false,
        },
{
    let mut file = archive.by_index(i).ok()?;
    let mut bytes = Vec::new();
    file.read_to_end(&mut bytes).ok().map(|_| bytes)
}

} // verus!
