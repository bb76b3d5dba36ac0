//! Admission of ZIP entries: the name, type, collision, size and
//! compression-ratio rules that every physical entry must pass, in order.

use vstd::prelude::*;

use crate::error::MmcError;
use crate::limits::Limits;
use crate::path::{archive_path_problem, collision_key, collision_key_of, path_problem};
use crate::text::{first_index_of, lemma_first_index_of, lemma_first_index_of_prefix, same_text, string_from_chars, utf8_chars};
use crate::xml_rules::texts_of;
use crate::zip_io::{lossy_text, utf8_lossy, zip_header, zip_read, EntryHeader, HeaderView};

verus! {

/// Why an archive, or one of its entries, is refused.
pub enum ArchiveFault {
    /// The ZIP codec or the reader failed (`MmcError::Zip` or `MmcError::Io`).
    Codec,
    /// `MmcError::UnsafeArchivePath` with this path and reason.
    UnsafePath(Seq<char>, Seq<char>),
    /// `MmcError::DuplicateArchivePath`: the earlier name, then the later one.
    Duplicate(Seq<char>, Seq<char>),
    /// `MmcError::LimitExceeded` with this resource, observed value and maximum.
    Limit(Seq<char>, u64, u64),
    /// `MmcError::MissingRoot`.
    MissingRoot,
    /// `MmcError::InvalidZipMetadata`: the entry, its declared size and the
    /// number of bytes it actually decompressed to.
    SizeMismatch(Seq<char>, u64, u64),
}

/// `e` is the refusal `f`.
pub open spec fn is_archive_fault(e: MmcError, f: ArchiveFault) -> bool {
    match f {
        ArchiveFault::Codec => e is Zip || e is Io,
        ArchiveFault::UnsafePath(p, r) => e matches MmcError::UnsafeArchivePath { path, reason } && path@ == p
            && reason@ == r,
        ArchiveFault::Duplicate(a, b) => e matches MmcError::DuplicateArchivePath { first, second } && first@ == a
            && second@ == b,
        ArchiveFault::Limit(r, a, m) => e matches MmcError::LimitExceeded { resource, actual, maximum }
            && resource@ == r && actual == a && maximum == m,
        ArchiveFault::MissingRoot => e is MissingRoot,
        ArchiveFault::SizeMismatch(p, d, a) => e matches MmcError::InvalidZipMetadata { path, declared, actual }
            && path@ == p && declared == d && actual == a,
    }
}

/// What admission has recorded so far: the admitted names, their collision
/// keys (in the same order) and the total declared uncompressed size.
pub struct Admission {
    pub names: Seq<Seq<char>>,
    pub keys: Seq<Seq<char>>,
    pub total: u64,
}

pub open spec fn admission_start() -> Admission {
    Admission { names: Seq::empty(), keys: Seq::empty(), total: 0 }
}

/// A Unix mode that describes a regular file, or no mode at all.
pub open spec fn regular_mode(mode: Option<u32>) -> bool {
    match mode {
        None => true,
        Some(m) => (m & 0o170000u32) == 0 || (m & 0o170000u32) == 0o100000u32,
    }
}

/// Declared size per compressed byte, with an empty compressed size counted as one.
pub open spec fn compression_ratio(size: u64, compressed: u64) -> u64 {
    if compressed == 0 {
        size
    } else {
        (size / compressed) as u64
    }
}

/// The admission of one entry header: its name (as text) and the new
/// record, or the first rule it breaks.
pub open spec fn admit_header(st: Admission, h: HeaderView, limits: Limits) -> Result<(Seq<char>, Admission), ArchiveFault> {
    if !vstd::utf8::valid_utf8(h.name) {
        Err(ArchiveFault::UnsafePath(utf8_lossy(h.name), "entry name is not UTF-8"@))
    } else {
        let name = vstd::utf8::decode_utf8(h.name);
        match archive_path_problem(name) {
            Some(p) => Err(ArchiveFault::UnsafePath(name, p.spec_reason()@)),
            None => if h.is_dir {
                Err(ArchiveFault::UnsafePath(name, "directory entries are not permitted"@))
            } else if !regular_mode(h.unix_mode) {
                Err(ArchiveFault::UnsafePath(name, "non-regular ZIP entry"@))
            } else {
                let key = collision_key_of(name);
                match first_index_of(st.keys, key) {
                    Some(i) => Err(ArchiveFault::Duplicate(st.names[i], name)),
                    None => if h.size > limits.max_entry_bytes {
                        Err(ArchiveFault::Limit("entry bytes"@, h.size, limits.max_entry_bytes as u64))
                    } else if st.total + h.size > u64::MAX {
                        Err(
                            ArchiveFault::Limit(
                                "total uncompressed bytes"@,
                                u64::MAX,
                                limits.max_total_uncompressed_bytes as u64,
                            ),
                        )
                    } else if st.total + h.size > limits.max_total_uncompressed_bytes {
                        Err(
                            ArchiveFault::Limit(
                                "total uncompressed bytes"@,
                                (st.total + h.size) as u64,
                                limits.max_total_uncompressed_bytes as u64,
                            ),
                        )
                    } else if h.size > 0 && (h.compressed_size == 0 || compression_ratio(h.size, h.compressed_size)
                        > limits.max_compression_ratio) {
                        Err(
                            ArchiveFault::Limit(
                                "compression ratio"@,
                                compression_ratio(h.size, h.compressed_size),
                                limits.max_compression_ratio as u64,
                            ),
                        )
                    } else {
                        Ok(
                            (
                                name,
                                Admission {
                                    names: st.names.push(name),
                                    keys: st.keys.push(key),
                                    total: (st.total + h.size) as u64,
                                },
                            ),
                        )
                    },
                }
            },
        }
    }
}

/// The running record of admitted entries.
pub struct AdmissionLedger {
    pub names: Vec<String>,
    pub keys: Vec<String>,
    pub total: u64,
}

impl View for AdmissionLedger {
    type V = Admission;

    open spec fn view(&self) -> Admission {
        Admission { names: texts_of(self.names@), keys: texts_of(self.keys@), total: self.total }
    }
}

impl AdmissionLedger {
    /// Names and keys are recorded in pairs.
    pub open spec fn wf(&self) -> bool {
        self.names@.len() == self.keys@.len()
    }

    pub fn new() -> (r: Self)
        ensures
            r.wf(),
            r@ == admission_start(),
    {
        let r = AdmissionLedger { names: Vec::new(), keys: Vec::new(), total: 0 };
        assert(r@.names =~= Seq::<Seq<char>>::empty());
        assert(r@.keys =~= Seq::<Seq<char>>::empty());
        r
    }
}

/// The position of the first element of `items` equal to `x`.
pub fn find_text(items: &Vec<String>, x: &str) -> (r: Option<usize>)
    ensures
        match r {
            Some(i) => first_index_of(texts_of(items@), x@) == Some(i as int),
            None => first_index_of(texts_of(items@), x@) is None,
        },
{
    let ghost t = texts_of(items@);
    let mut i: usize = 0;
    while i < items.len()
        invariant
            i <= items@.len(),
            t == texts_of(items@),
            first_index_of(t.take(i as int), x@) is None,
        decreases items@.len() - i,
    {
        assert(t.take(i + 1).drop_last() =~= t.take(i as int));
        assert(t.take(i + 1).last() == items@[i as int]@);
        if same_text(items[i].as_str(), x) {
            proof { lemma_first_index_of_prefix(t, i + 1, x@); }
            return Some(i);
        }
        i = i + 1;
    }
    assert(t.take(i as int) =~= t);
    None
}

/// Admits one entry header against the entries admitted so far: exactly
/// `admit_header`. On success the ledger records the entry.
pub fn admit_entry_header(ledger: &mut AdmissionLedger, header: &EntryHeader, limits: Limits) -> (r: Result<String, MmcError>)
    requires
        old(ledger).wf(),
    ensures
        final(ledger).wf(),
        match admit_header(old(ledger)@, header@, limits) {
            Ok((name, st)) => r matches Ok(n) && n@ == name && final(ledger)@ == st,
            Err(f) => r matches Err(e) && is_archive_fault(e, f),
        },
{
    let ghost st = ledger@;
    let chars = match utf8_chars(header.name.as_slice()) {
        None => {
            let path = lossy_text(header.name.as_slice());
            return Err(MmcError::UnsafeArchivePath { path, reason: "entry name is not UTF-8" });
        },
        Some(c) => c,
    };
    let name = string_from_chars(chars.as_slice());
    match path_problem(name.as_str()) {
        Some(problem) => {
            return Err(MmcError::UnsafeArchivePath { path: name, reason: problem.reason() });
        },
        None => {},
    }
    if header.is_dir {
        return Err(MmcError::UnsafeArchivePath { path: name, reason: "directory entries are not permitted" });
    }
    match header.unix_mode {
        Some(mode) => {
            let file_type = mode & 0o170000u32;
            if file_type != 0 && file_type != 0o100000u32 {
                return Err(MmcError::UnsafeArchivePath { path: name, reason: "non-regular ZIP entry" });
            }
        },
        None => {},
    }
    let key = collision_key(name.as_str());
    match find_text(&ledger.keys, key.as_str()) {
        Some(i) => {
            proof { lemma_first_index_of(texts_of(ledger.keys@), key@); }
            assert(texts_of(ledger.names@)[i as int] == ledger.names@[i as int]@);
            let first = ledger.names[i].clone();
            return Err(MmcError::DuplicateArchivePath { first, second: name });
        },
        None => {},
    }
    let declared = header.size;
    if declared > limits.max_entry_bytes as u64 {
        return Err(
            MmcError::LimitExceeded { resource: "entry bytes", actual: declared, maximum: limits.max_entry_bytes as u64 },
        );
    }
    let total = match ledger.total.checked_add(declared) {
        None => {
            return Err(
                MmcError::LimitExceeded {
                    resource: "total uncompressed bytes",
                    actual: u64::MAX,
                    maximum: limits.max_total_uncompressed_bytes as u64,
                },
            );
        },
        Some(t) => t,
    };
    if total > limits.max_total_uncompressed_bytes as u64 {
        return Err(
            MmcError::LimitExceeded {
                resource: "total uncompressed bytes",
                actual: total,
                maximum: limits.max_total_uncompressed_bytes as u64,
            },
        );
    }
    let compressed = header.compressed_size;
    if declared > 0 {
        let ratio = if compressed == 0 {
            declared
        } else {
            declared / compressed
        };
        if compressed == 0 || ratio > limits.max_compression_ratio as u64 {
            return Err(
                MmcError::LimitExceeded {
                    resource: "compression ratio",
                    actual: ratio,
                    maximum: limits.max_compression_ratio as u64,
                },
            );
        }
    }
    let ghost names0 = ledger.names@;
    let ghost keys0 = ledger.keys@;
    ledger.names.push(name.clone());
    ledger.keys.push(key);
    ledger.total = total;
    assert(texts_of(ledger.names@) =~= texts_of(names0).push(name@));
    assert(texts_of(ledger.keys@) =~= texts_of(keys0).push(collision_key_of(name@)));
    Ok(name)
}

/// How many payload bytes are read from an entry: one more than an entry may hold.
pub open spec fn payload_read_limit(limits: Limits) -> u64 {
    if limits.max_entry_bytes < u64::MAX {
        (limits.max_entry_bytes + 1) as u64
    } else {
        u64::MAX
    }
}

/// The first `n` entries of `archive`, admitted in order: each entry's name
/// and bytes, with the admission record; or the first refusal. An entry whose
/// bytes differ in number from the size its header declares is refused.
pub open spec fn admit_entries(archive: Seq<u8>, n: nat, limits: Limits) -> Result<
    (Seq<(Seq<char>, Seq<u8>)>, Admission),
    ArchiveFault,
>
    decreases n,
{
    if n == 0 {
        Ok((Seq::empty(), admission_start()))
    } else {
        match admit_entries(archive, (n - 1) as nat, limits) {
            Err(f) => Err(f),
            Ok((records, st)) => match zip_header(archive, (n - 1) as usize) {
                None => Err(ArchiveFault::Codec),
                Some(h) => match admit_header(st, h, limits) {
                    Err(f) => Err(f),
                    Ok((name, next)) => match zip_read(archive, (n - 1) as usize, payload_read_limit(limits)) {
                        None => Err(ArchiveFault::Codec),
                        Some(p) => if p.len() > limits.max_entry_bytes {
                            Err(ArchiveFault::Limit("entry bytes"@, p.len() as u64, limits.max_entry_bytes as u64))
                        } else if p.len() != h.size {
                            Err(ArchiveFault::SizeMismatch(name, h.size, p.len() as u64))
                        } else {
                            Ok((records.push((name, p)), next))
                        },
                    },
                },
            },
        }
    }
}

/// A refusal among the first `n` entries is the refusal of every longer prefix.
pub proof fn lemma_admit_entries_err(archive: Seq<u8>, n: nat, m: nat, limits: Limits)
    requires
        n <= m,
        admit_entries(archive, n, limits) is Err,
    ensures
        admit_entries(archive, m, limits) == admit_entries(archive, n, limits),
    decreases m - n,
{
    if n < m {
        lemma_admit_entries_err(archive, n, (m - 1) as nat, limits);
    }
}

/// The number of bytes the records hold in all.
pub open spec fn records_total(records: Seq<(Seq<char>, Seq<u8>)>) -> int
    decreases records.len(),
{
    if records.len() == 0 {
        0
    } else {
        records_total(records.drop_last()) + records.last().1.len()
    }
}

/// What a successful admission of entries records: one admissible name and
/// one collision key per entry, in order, no two keys alike, no entry
/// larger than the budget, and the bytes of all entries within the total budget.
pub open spec fn admitted(records: Seq<(Seq<char>, Seq<u8>)>, st: Admission, limits: Limits) -> bool {
    &&& st.names.len() == records.len()
    &&& st.keys.len() == records.len()
    &&& forall|i: int| 0 <= i < records.len() ==> #[trigger] st.names[i] == records[i].0
    &&& forall|i: int| 0 <= i < records.len() ==> #[trigger] st.keys[i] == collision_key_of(records[i].0)
    &&& forall|i: int, j: int| 0 <= i < j < records.len() ==> st.keys[i] != st.keys[j]
    &&& forall|i: int| 0 <= i < records.len() ==> archive_path_problem(#[trigger] records[i].0) is None
    &&& forall|i: int| 0 <= i < records.len() ==> (#[trigger] records[i].1).len() <= limits.max_entry_bytes
    &&& st.total == records_total(records)
    &&& st.total <= limits.max_total_uncompressed_bytes
}

pub proof fn lemma_admit_entries_ok(archive: Seq<u8>, n: nat, limits: Limits)
    requires
        admit_entries(archive, n, limits) is Ok,
    ensures
        admit_entries(archive, n, limits) matches Ok((records, st)) && records.len() == n && admitted(
            records,
            st,
            limits,
        ),
    decreases n,
{
    if n > 0 {
        lemma_admit_entries_ok(archive, (n - 1) as nat, limits);
        let (records, st) = admit_entries(archive, (n - 1) as nat, limits)->Ok_0;
        let h = zip_header(archive, (n - 1) as usize)->Some_0;
        let name = vstd::utf8::decode_utf8(h.name);
        let key = collision_key_of(name);
        lemma_first_index_of(st.keys, key);
        let (r2, st2) = admit_entries(archive, n, limits)->Ok_0;
        assert(r2.drop_last() =~= records);
        assert(st2.names == st.names.push(name));
        assert(st2.keys == st.keys.push(key));
        assert forall|i: int, j: int| 0 <= i < j < r2.len() implies st2.keys[i] != st2.keys[j] by {
            if j < r2.len() - 1 {
                assert(st2.keys[i] == st.keys[i] && st2.keys[j] == st.keys[j]);
            } else {
                assert(st2.keys[j] == key);
                assert(st2.keys[i] == st.keys[i]);
            }
        }
        assert forall|i: int| 0 <= i < r2.len() implies #[trigger] st2.names[i] == r2[i].0 by {
            if i < r2.len() - 1 {
                assert(r2[i] == records[i]);
            }
        }
        assert forall|i: int| 0 <= i < r2.len() implies #[trigger] st2.keys[i] == collision_key_of(r2[i].0) by {
            if i < r2.len() - 1 {
                assert(r2[i] == records[i]);
            }
        }
        assert forall|i: int| 0 <= i < r2.len() implies archive_path_problem(#[trigger] r2[i].0) is None by {
            if i < r2.len() - 1 {
                assert(r2[i] == records[i]);
            }
        }
        assert forall|i: int| 0 <= i < r2.len() implies (#[trigger] r2[i].1).len() <= limits.max_entry_bytes by {
            if i < r2.len() - 1 {
                assert(r2[i] == records[i]);
            }
        }
    }
}

} // verus!
