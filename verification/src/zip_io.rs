//! Reading ZIP archives with the `zip` crate: the central directory, entry
//! headers and bounded entry payloads, handed out as plain values.

use vstd::prelude::*;

use crate::error::MmcError;
use std::io::{Cursor, Read, Write};
use zip::result::ZipError;
use zip::write::SimpleFileOptions;
use zip::{CompressionMethod, ZipArchive, ZipWriter};

verus! {

#[verifier::external_type_specification]
#[verifier::external_body]
#[verifier::reject_recursive_types(R)]
pub struct ExZipArchive<R>(ZipArchive<R>);

#[verifier::external_type_specification]
#[verifier::external_body]
#[verifier::reject_recursive_types(T)]
pub struct ExCursor<T>(Cursor<T>);

/// The header of one ZIP entry, as plain values.
#[derive(Debug, Clone, PartialEq, Eq)]
pub struct EntryHeader {
    /// The raw bytes of the entry name.
    pub name: Vec<u8>,
    pub is_dir: bool,
    pub unix_mode: Option<u32>,
    /// The declared uncompressed size.
    pub size: u64,
    pub compressed_size: u64,
}

/// The mathematical value of an entry header.
pub struct HeaderView {
    pub name: Seq<u8>,
    pub is_dir: bool,
    pub unix_mode: Option<u32>,
    pub size: u64,
    pub compressed_size: u64,
}

impl View for EntryHeader {
    type V = HeaderView;

    open spec fn view(&self) -> HeaderView {
        HeaderView {
            name: self.name@,
            is_dir: self.is_dir,
            unix_mode: self.unix_mode,
            size: self.size,
            compressed_size: self.compressed_size,
        }
    }
}

/// The number of entries in the central directory of `archive`, or `None`
/// where `ZipArchive::new` refuses it.
pub uninterp spec fn zip_entry_count(archive: Seq<u8>) -> Option<usize>;

/// The header of entry `index` of `archive`, or `None` where
/// `ZipArchive::by_index` fails for it.
pub uninterp spec fn zip_header(archive: Seq<u8>, index: usize) -> Option<HeaderView>;

/// The first `limit` (at most) decompressed bytes of entry `index` of
/// `archive`, or `None` where opening or reading the entry fails.
pub uninterp spec fn zip_read(archive: Seq<u8>, index: usize, limit: u64) -> Option<Seq<u8>>;

/// The most bytes a ZIP entry name can have: its length is a 16-bit field.
pub const MAX_ZIP_NAME_BYTES: u64 = 65535u64;

/// `name`, encoded as UTF-8, fits the 16-bit name length of a ZIP entry.
pub open spec fn zip_name_fits(name: Seq<char>) -> bool {
    vstd::utf8::encode_utf8(name).len() <= MAX_ZIP_NAME_BYTES
}

/// Every name among `entries` fits a ZIP entry.
pub open spec fn zip_names_fit(entries: Seq<(Seq<char>, Seq<u8>)>) -> bool {
    forall|i: int| 0 <= i < entries.len() ==> zip_name_fits(#[trigger] entries[i].0)
}

/// Rearranging entries keeps their names fitting.
pub proof fn lemma_names_fit_rearranged(s: Seq<(Seq<char>, Seq<u8>)>, t: Seq<(Seq<char>, Seq<u8>)>)
    requires
        zip_names_fit(t),
        s.to_multiset() == t.to_multiset(),
    ensures
        zip_names_fit(s),
{
    broadcast use vstd::seq_lib::to_multiset_contains;

    assert forall|i: int| 0 <= i < s.len() implies zip_name_fits(#[trigger] s[i].0) by {
        assert(s.contains(s[i]));
        assert(s.to_multiset().count(s[i]) > 0);
        assert(t.contains(s[i]));
        let j = choose|j: int| 0 <= j < t.len() && t[j] == s[i];
        assert(zip_name_fits(t[j].0));
    }
}

/// A ZIP archive opened over `source`, with its entry count.
pub struct ZipReader<'a> {
    source: &'a [u8],
    zip: ZipArchive<Cursor<&'a [u8]>>,
    count: usize,
}

impl<'a> ZipReader<'a> {
    pub closed spec fn spec_source(&self) -> Seq<u8> {
        self.source@
    }

    pub closed spec fn spec_count(&self) -> usize {
        self.count
    }

    /// The number of entries.
    pub fn len(&self) -> (r: usize)
        ensures
            r == self.spec_count(),
    {
        self.count
    }
}

/// `ZipArchive::new` from `zip` over a cursor on `source`, then
/// `ZipArchive::len`. Claims: the reader reads `source`, and its entry count
/// is the named count of `source`; a failure happens exactly where the name is `None`.
#[verifier::external_body]
pub(crate) fn open_zip<'a>(source: &'a [u8]) -> (r: Result<ZipReader<'a>, ZipError>)
    ensures
        match r {
            Ok(z) => z.spec_source() == source@ && zip_entry_count(source@) == Some(z.spec_count()),
            Err(_) => zip_entry_count(source@) is None,
        },
{
    let zip = ZipArchive::new(Cursor::new(source))?;
    let count = zip.len();
    Ok(ZipReader { source, zip, count })
}

/// `ZipArchive::by_index` from `zip`, with the entry's `name_raw`, `is_dir`,
/// `unix_mode`, `size` and `compressed_size` read out. Claims: the header is
/// the named header of the entry, whose name has at most 65535 bytes (the
/// central directory holds its length in 16 bits); a failure happens exactly
/// where it is `None`.
#[verifier::external_body]
pub(crate) fn entry_header(reader: &mut ZipReader, index: usize) -> (r: Result<EntryHeader, ZipError>)
    ensures
        final(reader).spec_source() == old(reader).spec_source(),
        final(reader).spec_count() == old(reader).spec_count(),
        match r {
            Ok(h) => zip_header(old(reader).spec_source(), index) == Some(h@) && h.name@.len() <= MAX_ZIP_NAME_BYTES,
            Err(_) => zip_header(old(reader).spec_source(), index) is None,
        },
{
    let file = reader.zip.by_index(index)?;
    Ok(EntryHeader {
        name: file.name_raw().to_vec(),
        is_dir: file.is_dir(),
        unix_mode: file.unix_mode(),
        size: file.size(),
        compressed_size: file.compressed_size(),
    })
}

/// `ZipArchive::by_index` from `zip`, then `Read::take(limit)` and
/// `Read::read_to_end` on the entry. Claims: the bytes are the named bytes of
/// the entry, at most `limit` of them (as `take` documents); a failure, as
/// `MmcError::Zip` or `MmcError::Io`, happens exactly where the name is `None`.
#[verifier::external_body]
pub(crate) fn entry_payload(reader: &mut ZipReader, index: usize, limit: u64) -> (r: Result<Vec<u8>, MmcError>)
    ensures
        final(reader).spec_source() == old(reader).spec_source(),
        final(reader).spec_count() == old(reader).spec_count(),
        match r {
            Ok(p) => zip_read(old(reader).spec_source(), index, limit) == Some(p@) && p@.len() <= limit,
            Err(e) => zip_read(old(reader).spec_source(), index, limit) is None && (e is Zip || e is Io),
        },
{
    let file = reader.zip.by_index(index).map_err(MmcError::Zip)?;
    let mut payload = Vec::new();
    file.take(limit).read_to_end(&mut payload).map_err(MmcError::Io)?;
    Ok(payload)
}

/// The text `String::from_utf8_lossy` makes of `bytes`.
pub uninterp spec fn utf8_lossy(bytes: Seq<u8>) -> Seq<char>;

/// `String::from_utf8_lossy` from std: `bytes` as text, with invalid
/// sequences replaced by U+FFFD. Claims: the result is the named text of the input.
#[verifier::external_body]
pub(crate) fn lossy_text(bytes: &[u8]) -> (r: String)
    ensures
        r@ == utf8_lossy(bytes@),
{
    String::from_utf8_lossy(bytes).into_owned()
}

/// The names and bytes of `(name, bytes)` pairs.
pub open spec fn record_views(s: Seq<(String, Vec<u8>)>) -> Seq<(Seq<char>, Seq<u8>)> {
    s.map_values(|p: (String, Vec<u8>)| (p.0@, p.1@))
}

/// The archive `ZipWriter` produces for `entries`, written in order, each
/// deflated and with these Unix permissions (and the fixed 1980-01-01
/// timestamp that `zip` uses without its `time` feature); `None` where the
/// writer fails.
pub uninterp spec fn deflated_zip(entries: Seq<(Seq<char>, Seq<u8>)>, permissions: u32) -> Option<Seq<u8>>;

/// `h` is the header of an entry named `name` (as UTF-8) of `size` bytes.
pub open spec fn header_is(h: Option<HeaderView>, name: Seq<char>, size: nat) -> bool {
    match h {
        Some(x) => vstd::utf8::valid_utf8(x.name) && vstd::utf8::decode_utf8(x.name) == name && x.size == size,
        None => false,
    }
}

/// `archive` opens as a ZIP archive that holds exactly `entries`, in order:
/// each entry's name (as UTF-8), its declared size, and its decompressed bytes.
pub open spec fn zip_holds(archive: Seq<u8>, entries: Seq<(Seq<char>, Seq<u8>)>) -> bool {
    &&& entries.len() <= usize::MAX
    &&& zip_entry_count(archive) == Some(entries.len() as usize)
    &&& forall|i: int|
        0 <= i < entries.len() ==> header_is(#[trigger] zip_header(archive, i as usize), entries[i].0, entries[i].1.len())
    &&& forall|i: int, limit: u64|
        0 <= i < entries.len() ==> #[trigger] zip_read(archive, i as usize, limit) == Some(
            if entries[i].1.len() <= limit {
                entries[i].1
            } else {
                entries[i].1.take(limit as int)
            },
        )
}

/// `ZipWriter::new` from `zip` over a cursor, then `start_file` (deflated,
/// with these Unix permissions) and `write_all` for each entry in order, then
/// `finish`. The writer panics on a name longer than 65535 bytes, so every
/// name must fit. Claims: the writer's outcome is the named archive of the entries
/// (a failure, `MmcError::Zip` or `MmcError::Io`, exactly where it is
/// `None`), and the `zip` reader reads back from the bytes written each entry
/// with its name and its bytes unaltered, in the order written.
#[verifier::external_body]
pub(crate) fn write_deflated_zip(entries: &Vec<(String, Vec<u8>)>, permissions: u32) -> (r: Result<Vec<u8>, MmcError>)
    requires
        zip_names_fit(record_views(entries@)),
    ensures
        match r {
            Ok(bytes) => deflated_zip(record_views(entries@), permissions) == Some(bytes@) && zip_holds(
                bytes@,
                record_views(entries@),
            ),
            Err(e) => deflated_zip(record_views(entries@), permissions) is None && (e is Zip || e is Io),
        },
{
    let mut output = Cursor::new(Vec::new());
    let mut writer = ZipWriter::new(&mut output);
    let options = SimpleFileOptions::default().compression_method(CompressionMethod::Deflated).unix_permissions(permissions);
    for (path, bytes) in entries {
        writer.start_file(path.as_str(), options).map_err(MmcError::Zip)?;
        writer.write_all(bytes).map_err(MmcError::Io)?;
    }
    writer.finish().map_err(MmcError::Zip)?;
    Ok(output.into_inner())
}

} // verus!
