//! The rewriting of a whole archive, from its bytes to the bytes of a new
//! one.
//!
//! The archive is read with the `zip` crate, entry by entry, in the order
//! of its directory. Every entry is staged before anything is written: the
//! new archive exists only when all of them were rewritten. It holds the
//! same names in the same order, each entry deflated. No two entries of an
//! archive have one name, and no name has more bytes than the format can
//! count: entries that do are not written.
//!
//! What the `zip` crate does is not proved here. It works on bytes in
//! memory, so what it gives, and whether it gives anything, depends on its
//! arguments alone: the contracts name both.

use crate::entries::{
    entry_views, first_repeated, first_repeated_name, rewrite_entries, rewritten_entries,
    ArchiveEntry, EntryError, EntryFailure,
};
use crate::text::index_of;
use vstd::prelude::*;
use vstd::utf8::encode_utf8;

verus! {

/// The greatest number of bytes that the name of an entry can have in an
/// archive.
pub const MAX_NAME_BYTES: usize = 65535;

/// `zip::ZipArchive`, an archive that is open for reading.
#[verifier::external_type_specification]
#[verifier::external_body]
#[verifier::reject_recursive_types(R)]
pub struct ExZipArchive<R>(zip::ZipArchive<R>);

/// `std::io::Cursor`, the reader over bytes in memory.
#[verifier::external_type_specification]
#[verifier::external_body]
#[verifier::reject_recursive_types(T)]
pub struct ExCursor<T>(std::io::Cursor<T>);

/// `zip::result::ZipError`, what the `zip` crate fails with.
#[verifier::external_type_specification]
#[verifier::external_body]
pub struct ExZipError(zip::result::ZipError);

/// The entries that an open archive holds, in the order of its directory:
/// the name of each and the bytes that it unpacks to.
pub uninterp spec fn archive_entries(archive: zip::ZipArchive<std::io::Cursor<Vec<u8>>>) -> Seq<
    (Seq<char>, Seq<u8>),
>;

/// For each entry that an open archive holds, whether it can be read.
pub uninterp spec fn entry_reads(archive: zip::ZipArchive<std::io::Cursor<Vec<u8>>>) -> Seq<bool>;

/// Whether these bytes can be opened as an archive.
pub uninterp spec fn opens(bytes: Seq<u8>) -> bool;

/// The entries that the archive with these bytes holds.
pub uninterp spec fn entries_of(bytes: Seq<u8>) -> Seq<(Seq<char>, Seq<u8>)>;

/// For each entry that the archive with these bytes holds, whether it can
/// be read.
pub uninterp spec fn reads_of(bytes: Seq<u8>) -> Seq<bool>;

/// The entries that were given to a writer so far, in their order.
pub uninterp spec fn written_entries(writer: MemoryWriter) -> Seq<(Seq<char>, Seq<u8>)>;

/// Whether a writer that was given these entries takes a new entry of this
/// name.
pub uninterp spec fn starts(before: Seq<(Seq<char>, Seq<u8>)>, name: Seq<char>) -> bool;

/// Whether a writer that was given these entries takes these bytes for the
/// last of them.
pub uninterp spec fn takes(before: Seq<(Seq<char>, Seq<u8>)>, bytes: Seq<u8>) -> bool;

/// Whether a writer that was given these entries can finish the archive.
pub uninterp spec fn finishes(entries: Seq<(Seq<char>, Seq<u8>)>) -> bool;

/// The bytes of the archive that holds these entries, each deflated and
/// dated with the first day that the format knows.
pub uninterp spec fn packed(entries: Seq<(Seq<char>, Seq<u8>)>) -> Seq<u8>;

/// `zip::ZipWriter` over a buffer in memory, an archive that is being
/// written. There is one only as long as every call on it went well.
#[verifier::external_body]
pub struct MemoryWriter {
    inner: zip::ZipWriter<std::io::Cursor<Vec<u8>>>,
}

/// Why an archive cannot be rewritten.
#[derive(Debug, Clone, PartialEq, Eq)]
pub enum ArchiveError {
    /// The archive, or one of its entries, cannot be read. The text says
    /// why.
    Unreadable(String),
    /// An entry cannot be rewritten.
    Entry(EntryFailure),
    /// The entry at this place has the name of an entry before it.
    RepeatedName(usize),
    /// The name of the entry at this place has more bytes than an archive
    /// can hold.
    NameTooLong(usize),
    /// The new archive cannot be written. The text says why.
    Unwritable(String),
}

/// Why an archive cannot be rewritten, without the words of the `zip`
/// crate.
pub enum ArchiveFailure {
    Unreadable,
    Entry { index: int, error: EntryError },
    RepeatedName { index: int },
    NameTooLong { index: int },
    Unwritable,
}

impl View for ArchiveError {
    type V = ArchiveFailure;

    open spec fn view(&self) -> ArchiveFailure {
        match self {
            ArchiveError::Unreadable(_) => ArchiveFailure::Unreadable,
            ArchiveError::Entry(failure) => ArchiveFailure::Entry {
                index: failure.index as int,
                error: failure.error,
            },
            ArchiveError::RepeatedName(index) => ArchiveFailure::RepeatedName {
                index: *index as int,
            },
            ArchiveError::NameTooLong(index) => ArchiveFailure::NameTooLong {
                index: *index as int,
            },
            ArchiveError::Unwritable(_) => ArchiveFailure::Unwritable,
        }
    }
}

/// Whether the archive with these bytes can be read: it opens, and every
/// entry of it can be read.
pub open spec fn reads(archive: Seq<u8>) -> bool {
    &&& opens(archive)
    &&& forall|i: int| 0 <= i < entries_of(archive).len() ==> #[trigger] reads_of(archive)[i]
}

/// What reading an archive gives: its entries where it can be read.
pub open spec fn read(archive: Seq<u8>) -> Result<Seq<(Seq<char>, Seq<u8>)>, ArchiveFailure> {
    if reads(archive) {
        Ok(entries_of(archive))
    } else {
        Err(ArchiveFailure::Unreadable)
    }
}

/// Whether a name has more bytes than an archive can hold.
pub open spec fn is_too_long(name: Seq<char>) -> bool {
    encode_utf8(name).len() > MAX_NAME_BYTES
}

/// The first entry at or after `from` whose name is too long.
pub open spec fn first_long_name_from(entries: Seq<(Seq<char>, Seq<u8>)>, from: int) -> Option<int>
    decreases entries.len() - from,
{
    if from < 0 || from >= entries.len() {
        None
    } else if is_too_long(entries[from].0) {
        Some(from)
    } else {
        first_long_name_from(entries, from + 1)
    }
}

/// The first entry whose name is too long.
pub open spec fn first_long_name(entries: Seq<(Seq<char>, Seq<u8>)>) -> Option<int> {
    first_long_name_from(entries, 0)
}

/// Whether a writer takes the first `count` of the entries, one after the
/// other, each with its name first and then its bytes.
pub open spec fn packs_upto(entries: Seq<(Seq<char>, Seq<u8>)>, count: int) -> bool
    decreases count,
{
    count <= 0 || {
        &&& packs_upto(entries, count - 1)
        &&& starts(entries.take(count - 1), entries[count - 1].0)
        &&& takes(
            entries.take(count - 1).push((entries[count - 1].0, Seq::empty())),
            entries[count - 1].1,
        )
    }
}

/// Whether a writer takes all the entries and finishes the archive.
pub open spec fn packs(entries: Seq<(Seq<char>, Seq<u8>)>) -> bool {
    packs_upto(entries, entries.len() as int) && finishes(entries)
}

/// What writing entries gives: the bytes of the archive that holds them,
/// where no name is repeated, no name is too long, and the writer takes
/// them all.
pub open spec fn written(entries: Seq<(Seq<char>, Seq<u8>)>) -> Result<Seq<u8>, ArchiveFailure> {
    match first_repeated(entries) {
        Some(index) => Err(ArchiveFailure::RepeatedName { index }),
        None => match first_long_name(entries) {
            Some(index) => Err(ArchiveFailure::NameTooLong { index }),
            None => if packs(entries) {
                Ok(packed(entries))
            } else {
                Err(ArchiveFailure::Unwritable)
            },
        },
    }
}

/// What rewriting an archive for a language gives: it is read, its entries
/// are rewritten, and the new entries are written. The first of these that
/// fails gives the error.
pub open spec fn rewritten_archive(archive: Seq<u8>, language: Seq<char>) -> Result<
    Seq<u8>,
    ArchiveFailure,
> {
    match read(archive) {
        Err(failure) => Err(failure),
        Ok(entries) => match rewritten_entries(entries, language) {
            Err(failure) => Err(ArchiveFailure::Entry { index: failure.0, error: failure.1 }),
            Ok(done) => written(done),
        },
    }
}

/// A result that holds entries, as one that holds their names and bytes.
pub open spec fn read_view(r: Result<Vec<ArchiveEntry>, ArchiveError>) -> Result<
    Seq<(Seq<char>, Seq<u8>)>,
    ArchiveFailure,
> {
    match r {
        Ok(entries) => Ok(entry_views(entries@)),
        Err(e) => Err(e@),
    }
}

/// A result that holds bytes, as one that holds them as a sequence.
pub open spec fn bytes_view(r: Result<Vec<u8>, ArchiveError>) -> Result<Seq<u8>, ArchiveFailure> {
    match r {
        Ok(bytes) => Ok(bytes@),
        Err(e) => Err(e@),
    }
}

/// `ZipArchive::new` on the bytes: where they can be opened, the archive is
/// read from its directory and holds the entries of those bytes.
#[verifier::external_body]
fn open_archive(bytes: Vec<u8>) -> (r: Result<
    zip::ZipArchive<std::io::Cursor<Vec<u8>>>,
    zip::result::ZipError,
>)
    ensures
        r is Ok <==> opens(bytes@),
        match r {
            Ok(archive) => {
                &&& archive_entries(archive) == entries_of(bytes@)
                &&& entry_reads(archive) == reads_of(bytes@)
            },
            Err(_) => true,
        },
{
    zip::ZipArchive::new(std::io::Cursor::new(bytes))
}

/// `ZipArchive::len`: the number of entries.
#[verifier::external_body]
fn archive_len(archive: &zip::ZipArchive<std::io::Cursor<Vec<u8>>>) -> (n: usize)
    ensures
        n == archive_entries(*archive).len(),
        n == entry_reads(*archive).len(),
{
    archive.len()
}

/// `ZipArchive::by_index`, and the entry that it gives read to its end: the
/// name and the bytes of the entry at that place, where there is one and
/// it can be read. The archive holds what it held.
#[verifier::external_body]
fn read_entry(archive: &mut zip::ZipArchive<std::io::Cursor<Vec<u8>>>, index: usize) -> (r: Result<
    (String, Vec<u8>),
    zip::result::ZipError,
>)
    ensures
        archive_entries(*final(archive)) == archive_entries(*old(archive)),
        entry_reads(*final(archive)) == entry_reads(*old(archive)),
        r is Ok <==> index < entry_reads(*old(archive)).len() && entry_reads(
            *old(archive),
        )[index as int],
        match r {
            Ok(entry) => (entry.0@, entry.1@) == archive_entries(*old(archive))[index as int],
            Err(_) => true,
        },
{
    let mut file = archive.by_index(index)?;
    let mut bytes = Vec::new();
    std::io::Read::read_to_end(&mut file, &mut bytes)?;
    Ok((file.name().to_string(), bytes))
}

/// `ZipWriter::new` on an empty buffer: a writer that was given nothing.
#[verifier::external_body]
fn new_writer() -> (writer: MemoryWriter)
    ensures
        written_entries(writer) == Seq::<(Seq<char>, Seq<u8>)>::empty(),
{
    MemoryWriter { inner: zip::ZipWriter::new(std::io::Cursor::new(Vec::new())) }
}

/// `ZipWriter::start_file` for a deflated entry: where the writer takes
/// the name, the entry before it is done, and a new one of this name,
/// without bytes yet, is the last. Where it does not, the writer is gone.
/// On a name of more bytes than the format can count it panics.
#[verifier::external_body]
fn start_entry(writer: MemoryWriter, name: &str) -> (r: Result<MemoryWriter, zip::result::ZipError>)
    requires
        !is_too_long(name@),
    ensures
        r is Ok <==> starts(written_entries(writer), name@),
        match r {
            Ok(next) => written_entries(next) == written_entries(writer).push(
                (name@, Seq::<u8>::empty()),
            ),
            Err(_) => true,
        },
{
    let mut writer = writer;
    let options = zip::write::SimpleFileOptions::default()
        .compression_method(zip::CompressionMethod::Deflated)
        .last_modified_time(zip::DateTime::default());
    writer.inner.start_file(name, options)?;
    Ok(writer)
}

/// `Write::write_all` on the writer: where the writer takes the bytes,
/// they go to the end of the last entry. Without an entry only no bytes
/// can be written, and nothing changes. Where it does not take them, the
/// writer is gone.
#[verifier::external_body]
fn write_bytes(writer: MemoryWriter, bytes: &[u8]) -> (r: Result<
    MemoryWriter,
    zip::result::ZipError,
>)
    ensures
        r is Ok <==> takes(written_entries(writer), bytes@),
        match r {
            Ok(next) => {
                let before = written_entries(writer);
                if before.len() > 0 {
                    written_entries(next) == before.update(
                        before.len() - 1,
                        (before.last().0, before.last().1 + bytes@),
                    )
                } else {
                    bytes@.len() == 0 && written_entries(next) == before
                }
            },
            Err(_) => true,
        },
{
    let mut writer = writer;
    std::io::Write::write_all(&mut writer.inner, bytes)?;
    Ok(writer)
}

/// `ZipWriter::finish`: where the writer can finish, the bytes of the
/// archive that holds what the writer was given.
#[verifier::external_body]
fn finish_writer(writer: MemoryWriter) -> (r: Result<Vec<u8>, zip::result::ZipError>)
    ensures
        r is Ok <==> finishes(written_entries(writer)),
        match r {
            Ok(bytes) => bytes@ == packed(written_entries(writer)),
            Err(_) => true,
        },
{
    Ok(writer.inner.finish()?.into_inner())
}

/// What the `zip` crate says of an error, by its `Display`.
#[verifier::external_body]
fn error_text(error: &zip::result::ZipError) -> (text: String) {
    error.to_string()
}

/// Reads the entries of an archive from its bytes, in the order of its
/// directory. The archive is unreadable where it does not open or one of
/// its entries cannot be read.
pub fn read_entries(archive: Vec<u8>) -> (r: Result<Vec<ArchiveEntry>, ArchiveError>)
    ensures
        read_view(r) == read(archive@),
{
    let mut opened = match open_archive(archive) {
        Ok(opened) => opened,
        Err(e) => {
            return Err(ArchiveError::Unreadable(error_text(&e)));
        },
    };
    let count = archive_len(&opened);
    let ghost held = archive_entries(opened);
    let ghost readable = entry_reads(opened);
    let mut entries: Vec<ArchiveEntry> = Vec::new();
    let mut i: usize = 0;
    while i < count
        invariant
            i <= count,
            count == held.len(),
            count == readable.len(),
            opens(archive@),
            held == entries_of(archive@),
            readable == reads_of(archive@),
            archive_entries(opened) == held,
            entry_reads(opened) == readable,
            forall|j: int| 0 <= j < i ==> #[trigger] readable[j],
            entry_views(entries@) =~= held.take(i as int),
        decreases count - i,
    {
        match read_entry(&mut opened, i) {
            Err(e) => {
                assert(!readable[i as int]);
                return Err(ArchiveError::Unreadable(error_text(&e)));
            },
            Ok((name, bytes)) => {
                let entry = ArchiveEntry::new(name, bytes);
                proof {
                    assert(entry_views(entries@.push(entry)) =~= entry_views(entries@).push(
                        entry@,
                    ));
                    assert(held.take(i + 1) =~= held.take(i as int).push(held[i as int]));
                }
                entries.push(entry);
            },
        }
        i += 1;
    }
    assert(held.take(count as int) =~= held);
    Ok(entries)
}

/// Finds the first entry whose name is too long.
pub fn find_long_name(entries: &[ArchiveEntry]) -> (r: Option<usize>)
    ensures
        index_of(r) == first_long_name(entry_views(entries@)),
{
    let ghost views = entry_views(entries@);
    let mut i: usize = 0;
    while i < entries.len()
        invariant
            i <= entries.len(),
            views == entry_views(entries@),
            first_long_name(views) == first_long_name_from(views, i as int),
        decreases entries.len() - i,
    {
        if entries[i].name().as_bytes().len() > MAX_NAME_BYTES {
            return Some(i);
        }
        i += 1;
    }
    None
}

/// Where no name is found too long, none is.
proof fn lemma_no_long_name_from(entries: Seq<(Seq<char>, Seq<u8>)>, from: int, at: int)
    requires
        0 <= from <= at < entries.len(),
        first_long_name_from(entries, from) is None,
    ensures
        !is_too_long(entries[at].0),
    decreases at - from,
{
    if from < at {
        lemma_no_long_name_from(entries, from + 1, at);
    }
}

/// Where a writer does not take the first entries, it does not take more
/// of them.
proof fn lemma_packs_upto_less(entries: Seq<(Seq<char>, Seq<u8>)>, count: int, upto: int)
    requires
        0 <= count <= upto,
        packs_upto(entries, upto),
    ensures
        packs_upto(entries, count),
    decreases upto - count,
{
    if count < upto {
        lemma_packs_upto_less(entries, count, upto - 1);
    }
}

/// Writes entries to a new archive, in their order, and gives its bytes.
/// Entries of which two have one name are not written.
pub fn write_entries(entries: &[ArchiveEntry]) -> (r: Result<Vec<u8>, ArchiveError>)
    ensures
        bytes_view(r) == written(entry_views(entries@)),
{
    let ghost views = entry_views(entries@);
    match first_repeated_name(entries) {
        Some(index) => {
            return Err(ArchiveError::RepeatedName(index));
        },
        None => {},
    }
    match find_long_name(entries) {
        Some(index) => {
            return Err(ArchiveError::NameTooLong(index));
        },
        None => {},
    }
    let mut writer = new_writer();
    let mut i: usize = 0;
    assert(views.take(0) =~= Seq::<(Seq<char>, Seq<u8>)>::empty());
    while i < entries.len()
        invariant
            i <= entries.len(),
            views == entry_views(entries@),
            first_repeated(views) is None,
            first_long_name(views) is None,
            packs_upto(views, i as int),
            written_entries(writer) == views.take(i as int),
        decreases entries.len() - i,
    {
        let ghost before = views.take(i as int);
        let ghost entry = views[i as int];
        proof {
            lemma_no_long_name_from(views, 0, i as int);
        }
        writer = match start_entry(writer, entries[i].name()) {
            Ok(next) => next,
            Err(e) => {
                proof {
                    if packs(views) {
                        lemma_packs_upto_less(views, i + 1, views.len() as int);
                    }
                }
                return Err(ArchiveError::Unwritable(error_text(&e)));
            },
        };
        writer = match write_bytes(writer, entries[i].bytes()) {
            Ok(next) => next,
            Err(e) => {
                proof {
                    if packs(views) {
                        lemma_packs_upto_less(views, i + 1, views.len() as int);
                    }
                }
                return Err(ArchiveError::Unwritable(error_text(&e)));
            },
        };
        proof {
            assert(Seq::<u8>::empty() + entry.1 =~= entry.1);
            assert(written_entries(writer) =~= views.take(i + 1));
        }
        i += 1;
    }
    assert(views.take(entries.len() as int) =~= views);
    match finish_writer(writer) {
        Err(e) => Err(ArchiveError::Unwritable(error_text(&e))),
        Ok(bytes) => Ok(bytes),
    }
}

/// Rewrites an archive for a language: the bytes of the archive go in, the
/// bytes of the new archive come out.
///
/// Every markup entry is transformed and every other entry is kept. There
/// is a new archive only where the old one can be read, every entry can be
/// rewritten, and the new entries can be written: the first of these that
/// fails gives the error, and an entry that cannot be rewritten is named.
pub fn rewrite_archive(archive: Vec<u8>, language: &str) -> (r: Result<Vec<u8>, ArchiveError>)
    ensures
        bytes_view(r) == rewritten_archive(archive@, language@),
{
    let entries = match read_entries(archive) {
        Ok(entries) => entries,
        Err(e) => {
            return Err(e);
        },
    };
    match rewrite_entries(entries.as_slice(), language) {
        Err(failure) => Err(ArchiveError::Entry(failure)),
        Ok(done) => write_entries(done.as_slice()),
    }
}

} // verus!
