//! The owned, lossless archive: bounded admission of ZIP entries, root and
//! LinkModel discovery, lookup and deterministic re-emission.

use vstd::prelude::*;

use crate::admission::{
    admit_entries, admit_entry_header, admitted, find_text, is_archive_fault, lemma_admit_entries_err,
    lemma_admit_entries_ok, payload_read_limit, records_total, AdmissionLedger, ArchiveFault,
};
use crate::conformance::{archive_findings, collect_findings};
use crate::error::{MmcError, ParseFault};
use crate::limits::{production_limits, Limits};
use crate::link_xml::{lemma_lm_run_root, link_model_parse_result, parse_link_model};
use crate::model::{reference_views, LinkModelDocument, LinkModelReferenceView, LinkModelView, LocationView, MultiModel, MultiModelView};
use crate::multimodel_xml::{lemma_mm_run_root, multimodel_parse_result, parse_multimodel};
use crate::xml_events::{first_start, is_start_named, lemma_first_start_unique, xml_stream};
use crate::path::{archive_path_problem, collision_key_of, path_problem};
use crate::text::{first_index_of, lemma_first_index_of, lemma_first_index_of_prefix, same_text};
use crate::validation::{issues_sorted, law_report_order_unique, IssueView, ValidationReport};
use crate::xml_rules::texts_of;
use crate::writing::{in_path_order, law_path_order_unique, names_determine, sort_records, ENTRY_PERMISSIONS};
use crate::zip_io::{
    lemma_names_fit_rearranged, zip_name_fits, zip_names_fit,
    deflated_zip, entry_header, entry_payload, open_zip, record_views, write_deflated_zip, zip_entry_count, zip_header, zip_holds, header_is,
    zip_read,
};

verus! {

/// Functional role of one physical ZIP entry.
#[derive(Debug, Clone, Copy, PartialEq, Eq, Structural)]
pub enum EntryKind {
    Metadata,
    LinkModel,
    Payload,
}

/// One bounded, owned physical archive entry.
#[derive(Debug, Clone, PartialEq, Eq)]
pub struct ArchiveEntry {
    path: String,
    bytes: Vec<u8>,
    kind: EntryKind,
}

impl ArchiveEntry {
    pub closed spec fn spec_path(&self) -> Seq<char> {
        self.path@
    }

    pub closed spec fn spec_bytes(&self) -> Seq<u8> {
        self.bytes@
    }

    pub closed spec fn spec_kind(&self) -> EntryKind {
        self.kind
    }

    pub(crate) fn new(path: String, bytes: Vec<u8>, kind: EntryKind) -> (e: Self)
        ensures
            e.spec_path() == path@,
            e.spec_bytes() == bytes@,
            e.spec_kind() == kind,
    {
        ArchiveEntry { path, bytes, kind }
    }

    /// The entry's archive path, exactly as stored.
    pub fn path(&self) -> (r: &str)
        ensures
            r@ == self.spec_path(),
    {
        self.path.as_str()
    }

    /// The entry's uncompressed bytes, exactly as stored.
    pub fn bytes(&self) -> (r: &[u8])
        ensures
            r@ == self.spec_bytes(),
    {
        self.bytes.as_slice()
    }

    /// The entry's functional role.
    pub fn kind(&self) -> (r: EntryKind)
        ensures
            r == self.spec_kind(),
    {
        self.kind
    }
}

/// The archive paths of `entries`, in order.
pub open spec fn entry_paths(entries: Seq<ArchiveEntry>) -> Seq<Seq<char>> {
    entries.map_values(|e: ArchiveEntry| e.spec_path())
}

/// The index of the first entry stored under `path`.
pub open spec fn find_entry(entries: Seq<ArchiveEntry>, path: Seq<char>) -> Option<int> {
    first_index_of(entry_paths(entries), path)
}

/// Searches `entries` for the first one stored under `path`.
pub fn find_entry_index(entries: &[ArchiveEntry], path: &str) -> (r: Option<usize>)
    ensures
        r matches Some(i) ==> find_entry(entries@, path@) == Some(i as int),
        r is None ==> find_entry(entries@, path@) is None,
{
    let ghost paths = entry_paths(entries@);
    let mut i: usize = 0;
    while i < entries.len()
        invariant
            i <= entries@.len(),
            paths == entry_paths(entries@),
            first_index_of(paths.take(i as int), path@) is None,
        decreases entries@.len() - i,
    {
        assert(paths.take(i + 1).drop_last() =~= paths.take(i as int));
        if same_text(entries[i].path(), path) {
            proof { lemma_first_index_of_prefix(paths, i + 1, path@); }
            return Some(i);
        }
        i = i + 1;
    }
    assert(paths.take(i as int) =~= paths);
    None
}

/// The properties of `find_entry`.
pub proof fn lemma_find_entry(entries: Seq<ArchiveEntry>, path: Seq<char>)
    ensures
        find_entry(entries, path) matches Some(i) ==> 0 <= i < entries.len() && entries[i].spec_path()
            == path && forall|j: int| 0 <= j < i ==> entries[j].spec_path() != path,
        find_entry(entries, path) is None <==> forall|j: int|
            0 <= j < entries.len() ==> entries[j].spec_path() != path,
{
    let paths = entry_paths(entries);
    lemma_first_index_of(paths, path);
    assert(paths.len() == entries.len());
    assert forall|j: int| 0 <= j < entries.len() implies #[trigger] paths[j] == entries[j].spec_path() by {}
    if let Some(i) = find_entry(entries, path) {
        assert(paths[i] == entries[i].spec_path());
        assert forall|j: int| 0 <= j < i implies entries[j].spec_path() != path by {
            assert(paths[j] == entries[j].spec_path());
        }
    } else {
        assert forall|j: int| 0 <= j < entries.len() implies entries[j].spec_path() != path by {
            assert(paths[j] == entries[j].spec_path());
        }
    }
    if forall|j: int| 0 <= j < entries.len() ==> entries[j].spec_path() != path {
        assert forall|k: int| 0 <= k < paths.len() implies paths[k] != path by {
            assert(paths[k] == entries[k].spec_path());
        }
    }
}

/// Fully owned, lossless MMC archive and typed MMC 2.0 projections.
#[derive(Debug, Clone)]
pub struct MmcArchive {
    original: Vec<u8>,
    entries: Vec<ArchiveEntry>,
    container: MultiModel,
    link_models: Vec<LinkModelDocument>,
    limits: Limits,
}

impl MmcArchive {
    pub closed spec fn spec_original(&self) -> Seq<u8> {
        self.original@
    }

    pub closed spec fn spec_entries(&self) -> Seq<ArchiveEntry> {
        self.entries@
    }

    pub closed spec fn spec_container(&self) -> MultiModel {
        self.container
    }

    pub closed spec fn spec_link_models(&self) -> Seq<LinkModelDocument> {
        self.link_models@
    }

    pub closed spec fn spec_limits(&self) -> Limits {
        self.limits
    }

    /// The exact archive bytes supplied by the caller.
    pub fn original_bytes(&self) -> (r: &[u8])
        ensures
            r@ == self.spec_original(),
    {
        self.original.as_slice()
    }

    /// The typed `MultiModel.xml` projection.
    pub fn container(&self) -> (r: &MultiModel)
        ensures
            *r == self.spec_container(),
    {
        &self.container
    }

    /// All physical entries, in archive order.
    pub fn entries(&self) -> (r: &[ArchiveEntry])
        ensures
            r@ == self.spec_entries(),
    {
        self.entries.as_slice()
    }

    /// The entry stored under exactly `path`.
    pub fn entry(&self, path: &str) -> (r: Option<&ArchiveEntry>)
        ensures
            r is Some <==> find_entry(self.spec_entries(), path@) is Some,
            r matches Some(e) ==> *e == self.spec_entries()[find_entry(self.spec_entries(), path@)->0]
                && e.spec_path() == path@,
    {
        match find_entry_index(self.entries.as_slice(), path) {
            Some(i) => {
                proof { lemma_find_entry(self.entries@, path@); }
                Some(&self.entries[i])
            },
            None => None,
        }
    }

    /// Structural and referential-integrity report: every finding of
    /// `archive_findings`, in report order.
    pub fn validate(&self) -> (r: ValidationReport)
        ensures
            issues_sorted(r.spec_issues()),
            r.spec_issues().to_multiset() == archive_findings(
                self.spec_container(),
                self.spec_entries(),
                self.spec_link_models(),
            ).to_multiset(),
    {
        let raw = collect_findings(&self.container, self.entries.as_slice(), self.link_models.as_slice());
        ValidationReport::from_findings(raw)
    }

    /// The LinkModel documents referenced by the container and parsed from the archive.
    pub fn parsed_link_models(&self) -> (r: &[LinkModelDocument])
        ensures
            r@ == self.spec_link_models(),
    {
        self.link_models.as_slice()
    }
}

/// The name and bytes of each entry, in order.
pub open spec fn entry_records(entries: Seq<ArchiveEntry>) -> Seq<(Seq<char>, Seq<u8>)> {
    entries.map_values(|e: ArchiveEntry| (e.spec_path(), e.spec_bytes()))
}

/// The names of entry records.
pub open spec fn record_names(records: Seq<(Seq<char>, Seq<u8>)>) -> Seq<Seq<char>> {
    records.map_values(|x: (Seq<char>, Seq<u8>)| x.0)
}

/// How many times `x` occurs in `s`.
pub open spec fn occurrences(s: Seq<Seq<char>>, x: Seq<char>) -> nat
    decreases s.len(),
{
    if s.len() == 0 {
        0
    } else {
        occurrences(s.drop_last(), x) + if s.last() == x {
            1nat
        } else {
            0nat
        }
    }
}

/// The position of the container root: the one entry named exactly
/// `MultiModel.xml`, where there is exactly one.
pub open spec fn root_position(paths: Seq<Seq<char>>) -> Option<int> {
    if occurrences(paths, "MultiModel.xml"@) == 1 {
        first_index_of(paths, "MultiModel.xml"@)
    } else {
        None
    }
}

/// Finds the container root (see `root_position`).
pub fn locate_root(entries: &[ArchiveEntry]) -> (r: Option<usize>)
    ensures
        match root_position(entry_paths(entries@)) {
            Some(i) => r == Some(i as usize),
            None => r is None,
        },
{
    let ghost paths = entry_paths(entries@);
    let ghost root = "MultiModel.xml"@;
    let mut count: usize = 0;
    let mut first: usize = 0;
    let mut i: usize = 0;
    while i < entries.len()
        invariant
            i <= entries@.len(),
            paths == entry_paths(entries@),
            root == "MultiModel.xml"@,
            count <= i,
            count == occurrences(paths.take(i as int), root),
            count > 0 ==> first_index_of(paths.take(i as int), root) == Some(first as int),
            count == 0 ==> first_index_of(paths.take(i as int), root) is None,
        decreases entries@.len() - i,
    {
        assert(paths.take(i + 1).drop_last() =~= paths.take(i as int));
        assert(paths.take(i + 1).last() == entries@[i as int].spec_path());
        if same_text(entries[i].path(), "MultiModel.xml") {
            if count == 0 {
                first = i;
            }
            count = count + 1;
        }
        i = i + 1;
    }
    assert(paths.take(i as int) =~= paths);
    if count == 1 {
        Some(first)
    } else {
        None
    }
}

/// The LinkModel documents to parse, in order: for each reference of the
/// container, its embedded path, where that path is admissible, names an
/// entry, and was not chosen before.
pub open spec fn link_targets(refs: Seq<LinkModelReferenceView>, paths: Seq<Seq<char>>) -> Seq<Seq<char>>
    decreases refs.len(),
{
    if refs.len() == 0 {
        Seq::empty()
    } else {
        let prev = link_targets(refs.drop_last(), paths);
        match refs.last().location {
            LocationView::Embedded(p) => if archive_path_problem(p) is None && !prev.contains(p) && paths.contains(p) {
                prev.push(p)
            } else {
                prev
            },
            LocationView::External(_) => prev,
        }
    }
}

/// The role of entry `i`: a chosen LinkModel, the container root, or payload.
pub open spec fn expected_kind(i: int, root: int, targets: Seq<Seq<char>>, paths: Seq<Seq<char>>) -> EntryKind {
    if targets.contains(paths[i]) {
        EntryKind::LinkModel
    } else if i == root {
        EntryKind::Metadata
    } else {
        EntryKind::Payload
    }
}

/// `c` is the projection of the `MultiModel.xml` bytes `source`.
pub open spec fn container_parsed(c: MultiModelView, source: Seq<u8>, limits: Limits) -> bool {
    multimodel_parse_result(source, limits) == Ok::<MultiModelView, ParseFault>(c)
}

/// `m` is the projection of the LinkModel entry `path` with bytes `source`.
pub open spec fn link_parsed(m: LinkModelView, path: Seq<char>, source: Seq<u8>, limits: Limits) -> bool {
    link_model_parse_result(path, source, limits) == Ok::<LinkModelView, ParseFault>(m)
}

/// The failures reading an archive can end in.
pub open spec fn read_failure(e: MmcError) -> bool {
    ||| e is Io
    ||| e is Zip
    ||| e is Xml
    ||| e is UnsafeArchivePath
    ||| e is DuplicateArchivePath
    ||| e is MissingRoot
    ||| e is LimitExceeded
    ||| e is InvalidZipMetadata
}

/// The entries of `archive` as admitted (see `admit_entries`), or the refusal.
pub open spec fn archive_admission(archive: Seq<u8>, limits: Limits) -> Result<Seq<(Seq<char>, Seq<u8>)>, ArchiveFault> {
    if archive.len() > limits.max_archive_bytes {
        Err(ArchiveFault::Limit("archive bytes"@, archive.len() as u64, limits.max_archive_bytes as u64))
    } else {
        match zip_entry_count(archive) {
            None => Err(ArchiveFault::Codec),
            Some(n) => if n > limits.max_entries {
                Err(ArchiveFault::Limit("ZIP entries"@, n as u64, limits.max_entries as u64))
            } else {
                match admit_entries(archive, n as nat, limits) {
                    Err(f) => Err(f),
                    Ok((records, _)) => Ok(records),
                }
            },
        }
    }
}

/// What parsing `bytes` under `limits` gives: each admission refusal exactly
/// where `archive_admission` refuses; `MissingRoot` where no one entry is
/// named `MultiModel.xml`; the failure of the root's projection where it
/// fails; then the failure of the first referenced LinkModel whose
/// projection fails; and otherwise an archive read from the bytes.
pub open spec fn parse_outcome(bytes: Seq<u8>, limits: Limits, r: Result<MmcArchive, MmcError>) -> bool {
    &&& match archive_admission(bytes, limits) {
        Err(f) => r matches Err(e) && is_archive_fault(e, f),
        Ok(records) => match root_position(record_names(records)) {
            None => r matches Err(MmcError::MissingRoot),
            Some(root) => match multimodel_parse_result(records[root].1, limits) {
                Err(f) => r matches Err(e) && crate::error::is_fault(e, f),
                Ok(c) => match first_link_failure(link_targets(c.link_models, record_names(records)), records, limits) {
                    Some(f) => r matches Err(e) && crate::error::is_fault(e, f),
                    None => r is Ok,
                },
            },
        },
    }
    &&& r matches Ok(a) ==> a.read_from(bytes, limits)
    &&& r matches Err(e) ==> read_failure(e)
}

impl MmcArchive {
    /// The layout every parsed archive has: admissible entry paths with
    /// pairwise distinct collision keys, entries within budget, one root
    /// whose bytes the container was parsed from, and the referenced
    /// LinkModels parsed from the entries they name, with each entry's role.
    pub open spec fn well_formed(&self) -> bool {
        let es = self.spec_entries();
        let paths = entry_paths(es);
        let limits = self.spec_limits();
        &&& es.len() <= limits.max_entries
        &&& forall|i: int| 0 <= i < es.len() ==> archive_path_problem(#[trigger] paths[i]) is None
        &&& forall|i: int, j: int|
            0 <= i < j < es.len() ==> collision_key_of(#[trigger] paths[i]) != collision_key_of(#[trigger] paths[j])
        &&& forall|i: int| 0 <= i < es.len() ==> (#[trigger] es[i]).spec_bytes().len() <= limits.max_entry_bytes
        &&& zip_names_fit(entry_records(es))
        &&& match root_position(paths) {
            None => false,
            Some(root) => {
                let targets = link_targets(self.spec_container()@.link_models, paths);
                let docs = self.spec_link_models();
                &&& container_parsed(self.spec_container()@, es[root].spec_bytes(), limits)
                &&& docs.len() == targets.len()
                &&& forall|k: int|
                    0 <= k < docs.len() ==> {
                        &&& (#[trigger] docs[k]).spec_path() == targets[k]
                        &&& find_entry(es, targets[k]) matches Some(i) && docs[k].spec_source() == es[i].spec_bytes()
                        &&& link_parsed(docs[k].spec_model()@, targets[k], docs[k].spec_source(), limits)
                    }
                &&& forall|i: int| 0 <= i < es.len() ==> (#[trigger] es[i]).spec_kind() == expected_kind(i, root, targets, paths)
            },
        }
    }

    /// The archive was read from `bytes` under `limits`.
    pub open spec fn read_from(&self, bytes: Seq<u8>, limits: Limits) -> bool {
        &&& self.spec_original() == bytes
        &&& self.spec_limits() == limits
        &&& archive_admission(bytes, limits) == Ok::<Seq<(Seq<char>, Seq<u8>)>, ArchiveFault>(entry_records(self.spec_entries()))
        &&& self.well_formed()
    }
}

/// Reads and admits every entry of `bytes`, in archive order: exactly
/// `archive_admission`. Every entry is returned as payload.
pub fn read_entries(bytes: &[u8], limits: Limits) -> (r: Result<Vec<ArchiveEntry>, MmcError>)
    ensures
        match archive_admission(bytes@, limits) {
            Err(f) => r matches Err(e) && is_archive_fault(e, f),
            Ok(records) => r matches Ok(es) && entry_records(es@) == records && forall|i: int|
                0 <= i < es@.len() ==> (#[trigger] es@[i]).spec_kind() == EntryKind::Payload,
        },
        r matches Ok(es) ==> zip_names_fit(entry_records(es@)),
        r matches Err(e) ==> read_failure(e),
{
    if bytes.len() > limits.max_archive_bytes {
        return Err(
            MmcError::LimitExceeded {
                resource: "archive bytes",
                actual: bytes.len() as u64,
                maximum: limits.max_archive_bytes as u64,
            },
        );
    }
    let mut reader = match open_zip(bytes) {
        Ok(z) => z,
        Err(e) => {
            return Err(MmcError::Zip(e));
        },
    };
    let count = reader.len();
    if count > limits.max_entries {
        return Err(
            MmcError::LimitExceeded { resource: "ZIP entries", actual: count as u64, maximum: limits.max_entries as u64 },
        );
    }
    let mut ledger = AdmissionLedger::new();
    let mut entries: Vec<ArchiveEntry> = Vec::new();
    let read_limit = (limits.max_entry_bytes as u64).saturating_add(1);
    let mut index: usize = 0;
    assert(entry_records(entries@) =~= Seq::<(Seq<char>, Seq<u8>)>::empty());
    while index < count
        invariant
            index <= count,
            bytes@.len() <= limits.max_archive_bytes,
            count <= limits.max_entries,
            zip_entry_count(bytes@) == Some(count),
            reader.spec_source() == bytes@,
            reader.spec_count() == count,
            ledger.wf(),
            read_limit == payload_read_limit(limits),
            admit_entries(bytes@, index as nat, limits) == Ok::<
                (Seq<(Seq<char>, Seq<u8>)>, crate::admission::Admission),
                ArchiveFault,
            >((entry_records(entries@), ledger@)),
            forall|i: int| 0 <= i < entries@.len() ==> (#[trigger] entries@[i]).spec_kind() == EntryKind::Payload,
            zip_names_fit(entry_records(entries@)),
        decreases count - index,
    {
        let header = match entry_header(&mut reader, index) {
            Ok(h) => h,
            Err(e) => {
                proof { lemma_admit_entries_err(bytes@, (index + 1) as nat, count as nat, limits); }
                return Err(MmcError::Zip(e));
            },
        };
        let name = match admit_entry_header(&mut ledger, &header, limits) {
            Ok(n) => n,
            Err(e) => {
                proof { lemma_admit_entries_err(bytes@, (index + 1) as nat, count as nat, limits); }
                return Err(e);
            },
        };
        let payload = match entry_payload(&mut reader, index, read_limit) {
            Ok(p) => p,
            Err(e) => {
                proof { lemma_admit_entries_err(bytes@, (index + 1) as nat, count as nat, limits); }
                return Err(e);
            },
        };
        if payload.len() > limits.max_entry_bytes {
            proof { lemma_admit_entries_err(bytes@, (index + 1) as nat, count as nat, limits); }
            return Err(
                MmcError::LimitExceeded {
                    resource: "entry bytes",
                    actual: payload.len() as u64,
                    maximum: limits.max_entry_bytes as u64,
                },
            );
        }
        if payload.len() as u64 != header.size {
            proof { lemma_admit_entries_err(bytes@, (index + 1) as nat, count as nat, limits); }
            return Err(
                MmcError::InvalidZipMetadata { path: name, declared: header.size, actual: payload.len() as u64 },
            );
        }
        let ghost before = entries@;
        proof {
            vstd::utf8::decode_utf8_encode_utf8(header.name@);
            assert(zip_name_fits(name@));
        }
        let entry = ArchiveEntry::new(name, payload, EntryKind::Payload);
        entries.push(entry);
        assert(entry_records(entries@) =~= entry_records(before).push((entry.spec_path(), entry.spec_bytes())));
        index = index + 1;
    }
    Ok(entries)
}

/// Entries with the same names and bytes have the same paths and lookups.
proof fn lemma_same_records(a: Seq<ArchiveEntry>, b: Seq<ArchiveEntry>)
    requires
        entry_records(a) == entry_records(b),
    ensures
        a.len() == b.len(),
        entry_paths(a) == entry_paths(b),
        forall|i: int| 0 <= i < a.len() ==> (#[trigger] a[i]).spec_bytes() == b[i].spec_bytes() && a[i].spec_path() == b[i].spec_path(),
        forall|x: Seq<char>| #[trigger] find_entry(a, x) == find_entry(b, x),
{
    assert(entry_records(a).len() == a.len());
    assert(entry_records(b).len() == b.len());
    assert forall|i: int| 0 <= i < a.len() implies (#[trigger] a[i]).spec_bytes() == b[i].spec_bytes() && a[i].spec_path()
        == b[i].spec_path() by {
        assert(entry_records(a)[i] == entry_records(b)[i]);
    }
    assert(entry_paths(a) =~= entry_paths(b));
}

/// The documents chosen so far are those of `chosen`, parsed from the
/// entries they name.
pub open spec fn documents_match(
    docs: Seq<LinkModelDocument>,
    chosen: Seq<Seq<char>>,
    entries: Seq<ArchiveEntry>,
    limits: Limits,
) -> bool {
    &&& docs.len() == chosen.len()
    &&& forall|j: int|
        0 <= j < docs.len() ==> {
            &&& (#[trigger] docs[j]).spec_path() == chosen[j]
            &&& find_entry(entries, chosen[j]) matches Some(i) && docs[j].spec_source() == entries[i].spec_bytes()
            &&& link_parsed(docs[j].spec_model()@, chosen[j], docs[j].spec_source(), limits)
        }
}

/// The bytes of the first record stored under `path`.
pub open spec fn record_bytes(records: Seq<(Seq<char>, Seq<u8>)>, path: Seq<char>) -> Seq<u8> {
    match first_index_of(record_names(records), path) {
        Some(i) => records[i].1,
        None => Seq::empty(),
    }
}

/// The failure of the first of the LinkModels `targets` (read from
/// `records`) whose projection fails, if one does.
pub open spec fn first_link_failure(
    targets: Seq<Seq<char>>,
    records: Seq<(Seq<char>, Seq<u8>)>,
    limits: Limits,
) -> Option<ParseFault>
    decreases targets.len(),
{
    if targets.len() == 0 {
        None
    } else {
        match first_link_failure(targets.drop_last(), records, limits) {
            Some(f) => Some(f),
            None => match link_model_parse_result(targets.last(), record_bytes(records, targets.last()), limits) {
                Err(f) => Some(f),
                Ok(_) => None,
            },
        }
    }
}

/// The LinkModels chosen for a prefix of the references are a prefix of
/// those chosen for all of them.
proof fn lemma_link_targets_prefix(refs: Seq<LinkModelReferenceView>, paths: Seq<Seq<char>>, n: int)
    requires
        0 <= n <= refs.len(),
    ensures
        link_targets(refs.take(n), paths).len() <= link_targets(refs, paths).len(),
        link_targets(refs, paths).take(link_targets(refs.take(n), paths).len() as int) == link_targets(refs.take(n), paths),
    decreases refs.len() - n,
{
    if n == refs.len() {
        assert(refs.take(n) =~= refs);
        assert(link_targets(refs, paths).take(link_targets(refs, paths).len() as int) =~= link_targets(refs, paths));
    } else {
        lemma_link_targets_prefix(refs, paths, n + 1);
        assert(refs.take(n + 1).drop_last() =~= refs.take(n));
        let a = link_targets(refs.take(n), paths);
        let b = link_targets(refs.take(n + 1), paths);
        let c = link_targets(refs, paths);
        assert(b == a || b == a.push(refs.take(n + 1).last().location->Embedded_0));
        assert(c.take(a.len() as int) =~= b.take(a.len() as int));
        assert(b.take(a.len() as int) =~= a);
    }
}

/// A failing LinkModel among the first targets is the first failure of all.
proof fn lemma_first_link_failure_prefix(
    targets: Seq<Seq<char>>,
    j: int,
    records: Seq<(Seq<char>, Seq<u8>)>,
    limits: Limits,
)
    requires
        0 <= j <= targets.len(),
        first_link_failure(targets.take(j), records, limits) is Some,
    ensures
        first_link_failure(targets, records, limits) == first_link_failure(targets.take(j), records, limits),
    decreases targets.len(),
{
    if j == targets.len() {
        assert(targets.take(j) =~= targets);
    } else {
        assert(targets.drop_last().take(j) =~= targets.take(j));
        lemma_first_link_failure_prefix(targets.drop_last(), j, records, limits);
    }
}

/// `e` is the failure of `result`.
pub open spec fn fails_with<T>(e: MmcError, result: Result<T, ParseFault>) -> bool {
    match result {
        Err(f) => crate::error::is_fault(e, f),
        Ok(_) => false,
    }
}

/// Parses the LinkModels that `refs` designate (see `link_targets`) from
/// the entries, marking those entries as LinkModels.
#[verifier::rlimit(80)]
#[verifier::spinoff_prover]
fn parse_linked_documents(
    refs: &Vec<crate::model::LinkModelReference>,
    entries: &mut Vec<ArchiveEntry>,
    root: usize,
    limits: Limits,
) -> (r: Result<Vec<LinkModelDocument>, MmcError>)
    requires
        root < old(entries)@.len(),
        forall|i: int, j: int|
            0 <= i < j < old(entries)@.len() ==> #[trigger] entry_paths(old(entries)@)[i] != #[trigger] entry_paths(
                old(entries)@,
            )[j],
        forall|i: int|
            0 <= i < old(entries)@.len() ==> (#[trigger] old(entries)@[i]).spec_kind() == expected_kind(
                i,
                root as int,
                Seq::empty(),
                entry_paths(old(entries)@),
            ),
    ensures
        entry_records(final(entries)@) == entry_records(old(entries)@),
        entry_paths(final(entries)@) == entry_paths(old(entries)@),
        r matches Err(e) ==> read_failure(e),
        r matches Err(e) ==> fails_with(
            e,
            Err::<(), ParseFault>(
                first_link_failure(
                    link_targets(reference_views(refs@), entry_paths(old(entries)@)),
                    entry_records(old(entries)@),
                    limits,
                )->Some_0,
            ),
        ) && first_link_failure(
            link_targets(reference_views(refs@), entry_paths(old(entries)@)),
            entry_records(old(entries)@),
            limits,
        ) is Some,
        r is Ok ==> first_link_failure(
            link_targets(reference_views(refs@), entry_paths(old(entries)@)),
            entry_records(old(entries)@),
            limits,
        ) is None,
        r matches Ok(docs) ==> {
            let targets = link_targets(reference_views(refs@), entry_paths(old(entries)@));
            &&& documents_match(docs@, targets, final(entries)@, limits)
            &&& forall|i: int|
                0 <= i < final(entries)@.len() ==> (#[trigger] final(entries)@[i]).spec_kind() == expected_kind(
                    i,
                    root as int,
                    targets,
                    entry_paths(old(entries)@),
                )
        },
{
    let ghost records = entry_records(entries@);
    let ghost paths = entry_paths(entries@);
    let ghost views = reference_views(refs@);
    let mut chosen: Vec<String> = Vec::new();
    let mut docs: Vec<LinkModelDocument> = Vec::new();
    let mut k: usize = 0;
    assert(views.take(0) =~= Seq::<LinkModelReferenceView>::empty());
    assert(texts_of(chosen@) =~= Seq::<Seq<char>>::empty());
    while k < refs.len()
        invariant
            k <= refs@.len(),
            views == reference_views(refs@),
            records == entry_records(old(entries)@),
            paths == entry_paths(old(entries)@),
            entry_records(entries@) == records,
            entry_paths(entries@) == paths,
            root < entries@.len(),
            forall|i: int, j: int| 0 <= i < j < paths.len() ==> #[trigger] paths[i] != #[trigger] paths[j],
            texts_of(chosen@) == link_targets(views.take(k as int), paths),
            first_link_failure(texts_of(chosen@), records, limits) is None,
            documents_match(docs@, texts_of(chosen@), entries@, limits),
            forall|i: int|
                0 <= i < entries@.len() ==> (#[trigger] entries@[i]).spec_kind() == expected_kind(
                    i,
                    root as int,
                    texts_of(chosen@),
                    paths,
                ),
        decreases refs@.len() - k,
    {
        assert(views.take(k + 1).drop_last() =~= views.take(k as int));
        assert(views.take(k + 1).last() == refs@[k as int]@);
        let ghost prev = texts_of(chosen@);
        match refs[k].location.embedded_path() {
            None => {},
            Some(path) => {
                let fresh = match find_text(&chosen, path) {
                    Some(_) => false,
                    None => true,
                };
                proof {
                    lemma_first_index_of(prev, path@);
                    if prev.contains(path@) {
                        let w = choose|w: int| 0 <= w < prev.len() && prev[w] == path@;
                        assert(prev[w] == path@);
                    }
                }
                if path_problem(path).is_none() && fresh {
                    match find_entry_index(entries.as_slice(), path) {
                        None => {
                            proof {
                                lemma_find_entry(entries@, path@);
                                if paths.contains(path@) {
                                    let w = choose|w: int| 0 <= w < paths.len() && paths[w] == path@;
                                    assert(entries@[w].spec_path() == paths[w]);
                                }
                            }
                        },
                        Some(index) => {
                            proof {
                                lemma_find_entry(entries@, path@);
                                assert(paths[index as int] == path@);
                            }
                            let ghost entries_before = entries@;
                            proof {
                                assert(record_names(records) =~= paths);
                                assert(records[index as int].1 == entries_before[index as int].spec_bytes());
                                assert(record_bytes(records, path@) == entries_before[index as int].spec_bytes());
                                assert(link_targets(views.take(k + 1), paths) == prev.push(path@));
                                assert(prev.push(path@).drop_last() =~= prev);
                            }
                            let doc = match parse_one_document(entries, index, path, limits) {
                                Ok(d) => d,
                                Err(e) => {
                                    proof {
                                        let t = prev.push(path@);
                                        lemma_link_targets_prefix(views, paths, k + 1);
                                        let all = link_targets(views, paths);
                                        assert(all.take(t.len() as int) == t);
                                        assert(first_link_failure(t, records, limits) is Some);
                                        lemma_first_link_failure_prefix(all, t.len() as int, records, limits);
                                    }
                                    return Err(e);
                                },
                            };
                            proof {
                                lemma_same_records(entries@, entries_before);
                                assert(first_link_failure(prev.push(path@), records, limits) is None);
                            }
                            let ghost docs_before = docs@;
                            let ghost chosen_before = chosen@;
                            docs.push(doc);
                            chosen.push(String::from_str(path));
                            assert(texts_of(chosen@) =~= prev.push(path@));
                            assert forall|j: int| 0 <= j < docs@.len() implies {
                                &&& (#[trigger] docs@[j]).spec_path() == texts_of(chosen@)[j]
                                &&& find_entry(entries@, texts_of(chosen@)[j]) matches Some(i) && docs@[j].spec_source()
                                    == entries@[i].spec_bytes()
                                &&& link_parsed(docs@[j].spec_model()@, texts_of(chosen@)[j], docs@[j].spec_source(), limits)
                            } by {
                                if j < docs@.len() - 1 {
                                    assert(docs@[j] == docs_before[j]);
                                    assert(texts_of(chosen@)[j] == prev[j]);
                                    assert(docs_before[j].spec_path() == prev[j]);
                                    assert(find_entry(entries@, prev[j]) == find_entry(entries_before, prev[j]));
                                    lemma_find_entry(entries_before, prev[j]);
                                    let i = find_entry(entries_before, prev[j])->Some_0;
                                    assert(docs_before[j].spec_source() == entries_before[i].spec_bytes());
                                    assert(entries@[i].spec_bytes() == entries_before[i].spec_bytes());
                                    assert(link_parsed(docs_before[j].spec_model()@, prev[j], docs_before[j].spec_source(), limits));
                                } else {
                                    assert(docs@[j] == doc);
                                    assert(texts_of(chosen@)[j] == path@);
                                    assert(find_entry(entries@, path@) == find_entry(entries_before, path@));
                                    assert(find_entry(entries_before, path@) == Some(index as int));
                                    assert(entries@[index as int].spec_bytes() == entries_before[index as int].spec_bytes());
                                    assert(doc.spec_source() == entries_before[index as int].spec_bytes());
                                    assert(link_parsed(doc.spec_model()@, path@, doc.spec_source(), limits));
                                }
                            }
                            assert(texts_of(chosen@).len() == docs@.len());
                            assert(documents_match(docs@, texts_of(chosen@), entries@, limits));
                            assert forall|i: int| 0 <= i < entries@.len() implies (#[trigger] entries@[i]).spec_kind()
                                == expected_kind(i, root as int, texts_of(chosen@), paths) by {
                                let t = texts_of(chosen@);
                                assert(t[t.len() - 1] == path@);
                                if i == index {
                                    assert(t.contains(paths[i]));
                                } else {
                                    assert(paths[i] != path@);
                                    if t.contains(paths[i]) {
                                        let w = choose|w: int| 0 <= w < t.len() && t[w] == paths[i];
                                        assert(w < t.len() - 1);
                                        assert(prev[w] == paths[i]);
                                    }
                                    if prev.contains(paths[i]) {
                                        let w = choose|w: int| 0 <= w < prev.len() && prev[w] == paths[i];
                                        assert(t[w] == paths[i]);
                                    }
                                }
                            }
                        },
                    }
                }
            },
        }
        k = k + 1;
    }
    assert(views.take(k as int) =~= views);
    Ok(docs)
}

/// Parses the LinkModel at entry `index` (named `path`) and marks the entry
/// as a LinkModel.
fn parse_one_document(entries: &mut Vec<ArchiveEntry>, index: usize, path: &str, limits: Limits) -> (r: Result<LinkModelDocument, MmcError>)
    requires
        index < old(entries)@.len(),
        old(entries)@[index as int].spec_path() == path@,
    ensures
        entry_records(final(entries)@) == entry_records(old(entries)@),
        entry_paths(final(entries)@) == entry_paths(old(entries)@),
        r is Err ==> final(entries)@ == old(entries)@,
        r matches Err(e) ==> read_failure(e),
        r matches Err(e) ==> fails_with(e, link_model_parse_result(path@, old(entries)@[index as int].spec_bytes(), limits)),
        r matches Ok(doc) ==> {
            &&& doc.spec_path() == path@
            &&& doc.spec_source() == old(entries)@[index as int].spec_bytes()
            &&& link_parsed(doc.spec_model()@, path@, doc.spec_source(), limits)
            &&& final(entries)@ == old(entries)@.update(
                index as int,
                ArchiveEntry { kind: EntryKind::LinkModel, ..old(entries)@[index as int] },
            )
        },
{
    let model = parse_link_model(path, entries[index].bytes(), limits)?;
    let ghost src = entries@[index as int].spec_bytes();
    let ghost before = entries@;
    entries[index].kind = EntryKind::LinkModel;
    assert(entry_records(entries@) =~= entry_records(before));
    assert(entry_paths(entries@) =~= entry_paths(before));
    let mut source: Vec<u8> = Vec::new();
    source.extend_from_slice(entries[index].bytes());
    assert(source@ =~= src);
    Ok(LinkModelDocument::assemble(String::from_str(path), source, model))
}

impl MmcArchive {
    /// Parse an MMC archive with explicit caller-provided budgets.
    ///
    /// Every entry is admitted in archive order (`archive_admission`);
    /// exactly one entry must be named `MultiModel.xml`; the container and
    /// the LinkModels it references by admissible embedded paths are parsed
    /// from their entries. The archive keeps the exact input bytes.
    #[verifier::rlimit(40)]
    pub fn parse_with_limits(bytes: &[u8], limits: Limits) -> (r: Result<MmcArchive, MmcError>)
        ensures
            parse_outcome(bytes@, limits, r),
    {
        let mut entries = read_entries(bytes, limits)?;
        let ghost records = entry_records(entries@);
        let ghost paths = entry_paths(entries@);
        proof {
            assert(archive_admission(bytes@, limits) == Ok::<Seq<(Seq<char>, Seq<u8>)>, ArchiveFault>(records));
            let n = zip_entry_count(bytes@)->Some_0;
            lemma_admit_entries_ok(bytes@, n as nat, limits);
            let st = admit_entries(bytes@, n as nat, limits)->Ok_0.1;
            assert(record_names(records) =~= paths);
            assert forall|i: int, j: int| 0 <= i < j < paths.len() implies #[trigger] paths[i] != #[trigger] paths[j] by {
                assert(records[i].0 == paths[i]);
                assert(records[j].0 == paths[j]);
                assert(st.keys[i] == collision_key_of(records[i].0));
                assert(st.keys[j] == collision_key_of(records[j].0));
            }
            assert forall|i: int, j: int| 0 <= i < j < paths.len() implies collision_key_of(#[trigger] paths[i])
                != collision_key_of(#[trigger] paths[j]) by {
                assert(records[i].0 == paths[i]);
                assert(records[j].0 == paths[j]);
                assert(st.keys[i] == collision_key_of(records[i].0));
                assert(st.keys[j] == collision_key_of(records[j].0));
            }
            assert forall|i: int| 0 <= i < paths.len() implies archive_path_problem(#[trigger] paths[i]) is None by {
                assert(records[i].0 == paths[i]);
            }
            assert forall|i: int| 0 <= i < records.len() implies (#[trigger] records[i]).1.len() <= limits.max_entry_bytes by {
                assert(records[i].1.len() <= limits.max_entry_bytes);
            }
            assert(paths.len() <= limits.max_entries);
        }
        let root = match locate_root(entries.as_slice()) {
            Some(i) => i,
            None => {
                return Err(MmcError::MissingRoot);
            },
        };
        proof { lemma_first_index_of(paths, "MultiModel.xml"@); }
        let ghost before_root = entries@;
        entries[root].kind = EntryKind::Metadata;
        assert(entry_records(entries@) =~= records);
        assert(entry_paths(entries@) =~= paths);
        let container = parse_multimodel(entries[root].bytes(), limits)?;
        let ghost root_bytes = entries@[root as int].spec_bytes();
        let link_models = parse_linked_documents(&container.link_models, &mut entries, root, limits)?;
        let mut original: Vec<u8> = Vec::new();
        original.extend_from_slice(bytes);
        assert(original@ =~= bytes@);
        let archive = MmcArchive { original, entries, container, link_models, limits };
        proof {
            assert(archive.entries@[root as int].spec_bytes() == root_bytes) by {
                assert(entry_records(archive.entries@)[root as int] == records[root as int]);
            }
            lemma_same_records(archive.entries@, before_root);
            assert forall|i: int| 0 <= i < archive.entries@.len() implies (
            #[trigger] archive.entries@[i]).spec_bytes().len() <= limits.max_entry_bytes by {
                assert(entry_records(before_root)[i] == records[i]);
            }
            assert(entry_paths(archive.entries@) == paths);
            assert(archive.entries@.len() == paths.len());
            assert(entry_records(archive.entries@) == records);
            assert(archive.container@.link_models == reference_views(archive.container.link_models@));
            assert(root_position(paths) == Some(root as int));
            assert(container_parsed(archive.container@, archive.entries@[root as int].spec_bytes(), limits));
            assert(archive.well_formed());
        }
        Ok(archive)
    }
}

impl MmcArchive {
    /// Parse an MMC archive with conservative production budgets
    /// (`production_limits`); see `parse_with_limits`.
    pub fn parse(bytes: &[u8]) -> (r: Result<MmcArchive, MmcError>)
        ensures
            parse_outcome(bytes@, production_limits(), r),
    {
        MmcArchive::parse_with_limits(bytes, Limits::default())
    }
}

impl MmcArchive {
    /// A deterministic ZIP representation that leaves every entry's bytes
    /// unaltered: the entries in path order, deflated, with mode
    /// `ENTRY_PERMISSIONS`. The ZIP read back holds each entry, in path
    /// order, with its path and its bytes. Every entry path must fit a ZIP
    /// entry name (as it does in every parsed archive: see `well_formed`).
    pub fn to_deterministic_bytes(&self) -> (r: Result<Vec<u8>, MmcError>)
        requires
            zip_names_fit(entry_records(self.spec_entries())),
        ensures
            exists|s: Seq<(Seq<char>, Seq<u8>)>|
                #![trigger deflated_zip(s, ENTRY_PERMISSIONS)]
                in_path_order(s, entry_records(self.spec_entries())) && match deflated_zip(s, ENTRY_PERMISSIONS) {
                    Some(z) => r matches Ok(bytes) && bytes@ == z && zip_holds(z, s),
                    None => r matches Err(e) && (e is Zip || e is Io),
                },
    {
        let mut records: Vec<(String, Vec<u8>)> = Vec::new();
        let mut i: usize = 0;
        while i < self.entries.len()
            invariant
                i <= self.entries@.len(),
                record_views(records@) == entry_records(self.entries@.take(i as int)),
            decreases self.entries@.len() - i,
        {
            let mut bytes: Vec<u8> = Vec::new();
            bytes.extend_from_slice(self.entries[i].bytes.as_slice());
            assert(bytes@ =~= self.entries@[i as int].spec_bytes());
            let path = self.entries[i].path.clone();
            assert(path@ == self.entries@[i as int].spec_path());
            let ghost before = records@;
            records.push((path, bytes));
            assert(self.entries@.take(i + 1) =~= self.entries@.take(i as int).push(self.entries@[i as int]));
            assert(record_views(records@) =~= record_views(before).push((path@, bytes@)));
            assert(entry_records(self.entries@.take(i + 1)) =~= entry_records(self.entries@.take(i as int)).push(
                (self.entries@[i as int].spec_path(), self.entries@[i as int].spec_bytes()),
            ));
            i = i + 1;
        }
        assert(self.entries@.take(i as int) =~= self.entries@);
        let sorted = sort_records(records);
        proof { lemma_names_fit_rearranged(record_views(sorted@), entry_records(self.spec_entries())); }
        let r = write_deflated_zip(&sorted, ENTRY_PERMISSIONS);
        assert(in_path_order(record_views(sorted@), entry_records(self.spec_entries())));
        r
    }
}

/// Re-emission is reproducible: for a parsed archive, every arrangement of
/// its entries in path order gives the same bytes, so `to_deterministic_bytes`
/// returns the same bytes on every call.
pub proof fn law_deterministic_bytes(a: MmcArchive, s1: Seq<(Seq<char>, Seq<u8>)>, s2: Seq<(Seq<char>, Seq<u8>)>)
    requires
        a.well_formed(),
        in_path_order(s1, entry_records(a.spec_entries())),
        in_path_order(s2, entry_records(a.spec_entries())),
    ensures
        deflated_zip(s1, ENTRY_PERMISSIONS) == deflated_zip(s2, ENTRY_PERMISSIONS),
{
    broadcast use vstd::seq_lib::to_multiset_contains;

    let es = a.spec_entries();
    let records = entry_records(es);
    let paths = entry_paths(es);
    assert forall|a1: (Seq<char>, Seq<u8>), b1: (Seq<char>, Seq<u8>)|
        #![trigger s1.contains(a1), s1.contains(b1)]
        s1.contains(a1) && s1.contains(b1) && a1.0 == b1.0 implies a1 == b1 by {
        assert(s1.to_multiset().count(a1) > 0 && s1.to_multiset().count(b1) > 0);
        assert(records.contains(a1) && records.contains(b1));
        let i = choose|i: int| 0 <= i < records.len() && records[i] == a1;
        let j = choose|j: int| 0 <= j < records.len() && records[j] == b1;
        assert(records[i].0 == paths[i] && records[j].0 == paths[j]);
        if i < j {
            assert(collision_key_of(paths[i]) != collision_key_of(paths[j]));
        } else if j < i {
            assert(collision_key_of(paths[j]) != collision_key_of(paths[i]));
        }
    }
    assert(names_determine(s1));
    law_path_order_unique(s1, s2);
}

/// Re-emission keeps every entry: the ZIP that `to_deterministic_bytes`
/// writes for a parsed archive holds as many entries as the archive, and
/// each entry of the archive is read back from it under its path with its
/// bytes unaltered.
pub proof fn law_reemission_keeps_entries(a: MmcArchive, s: Seq<(Seq<char>, Seq<u8>)>, z: Seq<u8>)
    requires
        a.well_formed(),
        in_path_order(s, entry_records(a.spec_entries())),
        zip_holds(z, s),
    ensures
        zip_entry_count(z) == Some(a.spec_entries().len() as usize),
        forall|i: int|
            #![trigger a.spec_entries()[i]]
            0 <= i < a.spec_entries().len() ==> exists|k: int|
                0 <= k < a.spec_entries().len() && header_is(
                    #[trigger] zip_header(z, k as usize),
                    a.spec_entries()[i].spec_path(),
                    a.spec_entries()[i].spec_bytes().len(),
                ) && zip_read(z, k as usize, u64::MAX) == Some(a.spec_entries()[i].spec_bytes()),
{
    broadcast use vstd::seq_lib::to_multiset_contains, vstd::seq_lib::to_multiset_len;

    let es = a.spec_entries();
    let records = entry_records(es);
    assert(s.len() == records.len()) by {
        assert(s.to_multiset().len() == records.to_multiset().len());
    }
    assert(records.len() == es.len());
    assert forall|i: int| #![trigger es[i]] 0 <= i < es.len() implies exists|k: int|
        0 <= k < es.len() && header_is(#[trigger] zip_header(z, k as usize), es[i].spec_path(), es[i].spec_bytes().len())
            && zip_read(z, k as usize, u64::MAX) == Some(es[i].spec_bytes()) by {
        let rec = records[i];
        assert(rec == (es[i].spec_path(), es[i].spec_bytes()));
        assert(records.contains(rec));
        assert(records.to_multiset().count(rec) > 0);
        assert(s.contains(rec));
        let k = choose|k: int| 0 <= k < s.len() && s[k] == rec;
        assert(zip_header(z, k as usize) is Some);
        assert(zip_read(z, k as usize, u64::MAX) == Some(s[k].1));
    }
}

/// A parsed archive has exactly one metadata entry: `MultiModel.xml`, which
/// holds the bytes the container was parsed from. (No LinkModel is read
/// from it: one document cannot have both roots.)
pub proof fn law_single_metadata_entry(a: MmcArchive)
    requires
        a.well_formed(),
    ensures
        exists|root: int|
            #![trigger a.spec_entries()[root]]
            0 <= root < a.spec_entries().len() && a.spec_entries()[root].spec_path() == "MultiModel.xml"@
                && a.spec_entries()[root].spec_kind() == EntryKind::Metadata && a.spec_entries()[root].spec_bytes()
                == a.spec_container()@.source,
        forall|i: int|
            0 <= i < a.spec_entries().len() && (#[trigger] a.spec_entries()[i]).spec_kind() == EntryKind::Metadata
                ==> a.spec_entries()[i].spec_path() == "MultiModel.xml"@,
{
    let es = a.spec_entries();
    let paths = entry_paths(es);
    let limits = a.spec_limits();
    let root = root_position(paths)->Some_0;
    lemma_first_index_of(paths, "MultiModel.xml"@);
    assert(paths[root] == "MultiModel.xml"@);
    let c = a.spec_container()@;
    let bytes = es[root].spec_bytes();
    let stream = xml_stream(bytes, limits.max_xml_events);
    assert(container_parsed(c, bytes, limits));
    lemma_mm_run_root(stream, limits);
    let targets = link_targets(c.link_models, paths);
    if targets.contains(paths[root]) {
        let k = choose|k: int| 0 <= k < targets.len() && targets[k] == paths[root];
        let docs = a.spec_link_models();
        assert(docs[k].spec_path() == targets[k]);
        assert(find_entry(es, targets[k]) == Some(root));
        let m = docs[k].spec_model()@;
        assert(link_parsed(m, targets[k], docs[k].spec_source(), limits));
        assert(docs[k].spec_source() == bytes);
        lemma_lm_run_root(stream, limits, paths[root]);
        let i1 = choose|i: int| first_start(stream, i) && is_start_named(stream[i], "MultiModel"@);
        let i2 = choose|i: int| first_start(stream, i) && is_start_named(stream[i], "LinkModel"@);
        lemma_first_start_unique(stream, i1, i2);
        reveal_strlit("MultiModel");
        reveal_strlit("LinkModel");
        assert("MultiModel"@.len() != "LinkModel"@.len());
        assert(false);
    }
    assert(es[root].spec_kind() == EntryKind::Metadata);
    assert forall|i: int|
        0 <= i < es.len() && (#[trigger] es[i]).spec_kind() == EntryKind::Metadata implies es[i].spec_path()
        == "MultiModel.xml"@ by {
        assert(es[i].spec_kind() == expected_kind(i, root, targets, paths));
    }
}

proof fn lemma_admit_written(z: Seq<u8>, s: Seq<(Seq<char>, Seq<u8>)>, n: nat, limits: Limits)
    requires
        zip_holds(z, s),
        n <= s.len(),
        admit_entries(z, n, limits) is Ok,
    ensures
        admit_entries(z, n, limits)->Ok_0.0 == s.take(n as int),
    decreases n,
{
    if n == 0 {
        assert(s.take(0) =~= Seq::<(Seq<char>, Seq<u8>)>::empty());
    } else {
        if admit_entries(z, (n - 1) as nat, limits) is Err {
            lemma_admit_entries_err(z, (n - 1) as nat, n, limits);
        }
        lemma_admit_written(z, s, (n - 1) as nat, limits);
        let i = n - 1;
        assert(header_is(zip_header(z, i as usize), s[i].0, s[i].1.len()));
        let limit = payload_read_limit(limits);
        assert(zip_read(z, i as usize, limit) == Some(
            if s[i].1.len() <= limit {
                s[i].1
            } else {
                s[i].1.take(limit as int)
            },
        ));
        assert(s.take(n as int) =~= s.take(i).push(s[i]));
    }
}

/// Reading back what was written: where a ZIP that holds `s` (as written by
/// `write_deflated_zip`) is admitted, its entries are exactly `s`, in order.
pub proof fn law_admission_reads_back(z: Seq<u8>, s: Seq<(Seq<char>, Seq<u8>)>, limits: Limits)
    requires
        zip_holds(z, s),
        archive_admission(z, limits) is Ok,
    ensures
        archive_admission(z, limits) == Ok::<Seq<(Seq<char>, Seq<u8>)>, ArchiveFault>(s),
{
    let n = zip_entry_count(z)->Some_0;
    lemma_admit_written(z, s, n as nat, limits);
    assert(s.take(n as int) =~= s);
}

/// Re-emitted archives read back unaltered: an archive read from the bytes
/// `to_deterministic_bytes` writes holds the original's entries, in path
/// order, each under its path with its bytes.
pub proof fn law_reemission_reads_back(
    a: MmcArchive,
    s: Seq<(Seq<char>, Seq<u8>)>,
    z: Seq<u8>,
    b: MmcArchive,
    limits: Limits,
)
    requires
        in_path_order(s, entry_records(a.spec_entries())),
        zip_holds(z, s),
        b.read_from(z, limits),
    ensures
        entry_records(b.spec_entries()) == s,
        entry_records(b.spec_entries()).to_multiset() == entry_records(a.spec_entries()).to_multiset(),
{
    law_admission_reads_back(z, s, limits);
}

/// Validation is reproducible: two reports of one archive's findings, each
/// in report order, hold the same findings in the same order.
pub proof fn law_report_reproducible(a: MmcArchive, r1: Seq<IssueView>, r2: Seq<IssueView>)
    requires
        issues_sorted(r1),
        issues_sorted(r2),
        r1.to_multiset() == archive_findings(a.spec_container(), a.spec_entries(), a.spec_link_models()).to_multiset(),
        r2.to_multiset() == archive_findings(a.spec_container(), a.spec_entries(), a.spec_link_models()).to_multiset(),
    ensures
        r1 == r2,
{
    law_report_order_unique(r1, r2);
}

/// The total number of bytes held by `entries`.
pub open spec fn total_bytes(entries: Seq<ArchiveEntry>) -> int
    decreases entries.len(),
{
    if entries.len() == 0 {
        0
    } else {
        total_bytes(entries.drop_last()) + entries.last().spec_bytes().len()
    }
}

proof fn lemma_total_bytes_monotone(entries: Seq<ArchiveEntry>, i: int, j: int)
    requires
        0 <= i <= j <= entries.len(),
    ensures
        total_bytes(entries.take(i)) <= total_bytes(entries.take(j)),
    decreases j - i,
{
    if i < j {
        assert(entries.take(j).drop_last() =~= entries.take(j - 1));
        lemma_total_bytes_monotone(entries, i, j - 1);
    }
}

proof fn lemma_total_bytes_records(entries: Seq<ArchiveEntry>)
    ensures
        total_bytes(entries) == records_total(entry_records(entries)),
    decreases entries.len(),
{
    if entries.len() > 0 {
        lemma_total_bytes_records(entries.drop_last());
        assert(entry_records(entries).drop_last() =~= entry_records(entries.drop_last()));
    }
}

/// The entries of an archive read under `limits` hold no more bytes in all
/// than the total budget allows.
pub proof fn law_read_total_within_budget(a: MmcArchive, bytes: Seq<u8>, limits: Limits)
    requires
        a.read_from(bytes, limits),
    ensures
        total_bytes(a.spec_entries()) <= limits.max_total_uncompressed_bytes,
{
    let n = zip_entry_count(bytes)->Some_0;
    lemma_admit_entries_ok(bytes, n as nat, limits);
    lemma_total_bytes_records(a.spec_entries());
}

impl MmcArchive {
    /// The budgets the archive was parsed with.
    pub fn limits(&self) -> (r: Limits)
        ensures
            r == self.spec_limits(),
    {
        self.limits
    }

    /// The number of bytes extraction writes, within the extracted-bytes
    /// budget: `LimitExceeded` for "extracted bytes" where the total exceeds
    /// the budget (reported as `u64::MAX` where it exceeds `u64`).
    pub fn extraction_size(&self) -> (r: Result<u64, MmcError>)
        ensures
            match r {
                Ok(total) => total == total_bytes(self.spec_entries()) && total <= self.spec_limits().max_extracted_bytes,
                Err(e) => if total_bytes(self.spec_entries()) > u64::MAX {
                    is_archive_fault(
                        e,
                        ArchiveFault::Limit("extracted bytes"@, u64::MAX, self.spec_limits().max_extracted_bytes as u64),
                    )
                } else {
                    total_bytes(self.spec_entries()) > self.spec_limits().max_extracted_bytes && is_archive_fault(
                        e,
                        ArchiveFault::Limit(
                            "extracted bytes"@,
                            total_bytes(self.spec_entries()) as u64,
                            self.spec_limits().max_extracted_bytes as u64,
                        ),
                    )
                },
            },
    {
        let mut total: u64 = 0;
        let mut i: usize = 0;
        assert(self.entries@.take(0) =~= Seq::<ArchiveEntry>::empty());
        while i < self.entries.len()
            invariant
                i <= self.entries@.len(),
                total == total_bytes(self.entries@.take(i as int)),
            decreases self.entries@.len() - i,
        {
            assert(self.entries@.take(i + 1).drop_last() =~= self.entries@.take(i as int));
            let size = self.entries[i].bytes.len() as u64;
            match total.checked_add(size) {
                None => {
                    proof {
                        lemma_total_bytes_monotone(self.entries@, i + 1, self.entries@.len() as int);
                        assert(self.entries@.take(self.entries@.len() as int) =~= self.entries@);
                    }
                    return Err(
                        MmcError::LimitExceeded {
                            resource: "extracted bytes",
                            actual: u64::MAX,
                            maximum: self.limits.max_extracted_bytes as u64,
                        },
                    );
                },
                Some(t) => {
                    total = t;
                },
            }
            i = i + 1;
        }
        assert(self.entries@.take(i as int) =~= self.entries@);
        if total > self.limits.max_extracted_bytes as u64 {
            return Err(
                MmcError::LimitExceeded {
                    resource: "extracted bytes",
                    actual: total,
                    maximum: self.limits.max_extracted_bytes as u64,
                },
            );
        }
        Ok(total)
    }
}


/// Every reference whose embedded location is an admissible path of a
/// present entry is chosen: the chosen paths contain it.
proof fn lemma_link_targets_cover(refs: Seq<LinkModelReferenceView>, paths: Seq<Seq<char>>, j: int)
    requires
        0 <= j < refs.len(),
        refs[j].location matches LocationView::Embedded(p) && archive_path_problem(p) is None && paths.contains(p),
    ensures
        link_targets(refs, paths).contains(refs[j].location->Embedded_0),
    decreases refs.len(),
{
    let p = refs[j].location->Embedded_0;
    let prev = link_targets(refs.drop_last(), paths);
    if j < refs.len() - 1 {
        assert(refs.drop_last()[j] == refs[j]);
        lemma_link_targets_cover(refs.drop_last(), paths, j);
        let w = choose|w: int| 0 <= w < prev.len() && prev[w] == p;
        assert(prev.push(p)[w] == p);
        assert(prev.push(refs.last().location->Embedded_0)[w] == p);
    } else {
        if !prev.contains(p) {
            assert(prev.push(p)[prev.len() as int] == p);
        }
    }
}

/// Every LinkModel the container references is parsed: in a parsed archive,
/// each reference whose embedded location is an admissible path naming an
/// entry has a parsed LinkModel document under that path, and that entry is
/// a LinkModel entry — however many references come before it. (Every
/// archive that `parse` returns is well formed: see `read_from`.)
pub proof fn law_referenced_link_models_parsed(a: MmcArchive, j: int)
    requires
        a.well_formed(),
        0 <= j < a.spec_container()@.link_models.len(),
        a.spec_container()@.link_models[j].location matches LocationView::Embedded(p) && archive_path_problem(p) is None
            && entry_paths(a.spec_entries()).contains(p),
    ensures
        ({
            let p = a.spec_container()@.link_models[j].location->Embedded_0;
            &&& exists|k: int| 0 <= k < a.spec_link_models().len() && (#[trigger] a.spec_link_models()[k]).spec_path() == p
            &&& forall|i: int|
                0 <= i < a.spec_entries().len() && (#[trigger] a.spec_entries()[i]).spec_path() == p
                    ==> a.spec_entries()[i].spec_kind() == EntryKind::LinkModel
        }),
{
    let es = a.spec_entries();
    let paths = entry_paths(es);
    let refs = a.spec_container()@.link_models;
    let p = refs[j].location->Embedded_0;
    let targets = link_targets(refs, paths);
    let docs = a.spec_link_models();
    lemma_link_targets_cover(refs, paths, j);
    let k = choose|k: int| 0 <= k < targets.len() && targets[k] == p;
    assert(docs[k].spec_path() == targets[k]);
    assert forall|i: int| 0 <= i < es.len() && (#[trigger] es[i]).spec_path() == p implies es[i].spec_kind()
        == EntryKind::LinkModel by {
        assert(paths[i] == p);
    }
}

} // verus!
