//! The library's failure type.

use vstd::prelude::*;

verus! {

/// `std::io::Error`, carried through unchanged where an I/O operation fails.
#[verifier::external_type_specification]
#[verifier::external_body]
pub struct ExIoError(std::io::Error);

/// `zip::result::ZipError`, carried through unchanged where the ZIP codec fails.
#[verifier::external_type_specification]
#[verifier::external_body]
pub struct ExZipError(zip::result::ZipError);

/// Failures opening, parsing, building, writing, or extracting an MMC archive.
#[derive(Debug)]
#[non_exhaustive]
pub enum MmcError {
    Io(std::io::Error),
    Zip(zip::result::ZipError),
    Xml { path: String, message: String },
    UnsafeArchivePath { path: String, reason: &'static str },
    DuplicateArchivePath { first: String, second: String },
    MissingRoot,
    InvalidZipMetadata { path: String, declared: u64, actual: u64 },
    LimitExceeded { resource: &'static str, actual: u64, maximum: u64 },
    UnsafeExtractionPath { path: String, reason: &'static str },
    InvalidBuilder(String),
}

/// The mathematical value of an XML or budget failure.
pub enum ParseFault {
    /// `MmcError::Xml` with this path and message.
    Xml(Seq<char>, Seq<char>),
    /// `MmcError::LimitExceeded` with this resource, observed value and maximum.
    Limit(Seq<char>, u64, u64),
}

/// `e` is the failure `f`.
pub open spec fn is_fault(e: MmcError, f: ParseFault) -> bool {
    match (e, f) {
        (MmcError::Xml { path, message }, ParseFault::Xml(p, m)) => path@ == p && message@ == m,
        (MmcError::LimitExceeded { resource, actual, maximum }, ParseFault::Limit(r, a, m)) => resource@ == r
            && actual == a && maximum == m,
        _ => false,
    }
}

/// An XML failure at `path`.
pub fn xml_failure(path: &str, message: String) -> (e: MmcError)
    ensures
        is_fault(e, ParseFault::Xml(path@, message@)),
{
    MmcError::Xml { path: String::from_str(path), message }
}

/// The budget for `resource` is exceeded.
pub fn limit_failure(resource: &'static str, actual: u64, maximum: u64) -> (e: MmcError)
    ensures
        is_fault(e, ParseFault::Limit(resource@, actual, maximum)),
        e matches MmcError::LimitExceeded { resource: r, actual: a, maximum: m } && r == resource && a
            == actual && m == maximum,
{
    MmcError::LimitExceeded { resource, actual, maximum }
}

} // verus!
