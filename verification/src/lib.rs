//! Safe, lossless DIN 18290-1 / Multi-Model Container 2.0 mechanics.
//!
//! The crate owns the MMC ZIP envelope, `MultiModel.xml`, LinkModel XML,
//! bounded parsing, conformance reporting and deterministic writing.
//! Application payloads remain opaque.

pub mod error;
pub mod text;
pub mod path;
pub mod limits;
pub mod model;
pub mod archive;
pub mod validation;
pub mod conformance;
pub mod finding_laws;
pub mod xml_events;
pub mod xml_rules;
pub mod multimodel_xml;
pub mod link_xml;
pub mod zip_io;
pub mod admission;
pub mod xml_writer;
pub mod read_back;
pub mod round_trip;
pub mod container_tree;
pub mod container_round_trip;
pub mod documents;
pub mod writing;
pub mod builder;

pub use archive::{ArchiveEntry, EntryKind, MmcArchive};
pub use builder::MmcArchiveBuilder;
pub use error::MmcError;
pub use limits::Limits;
pub use model::{
    ApplicationModel, ContainerMetadata, DataResource, Link, LinkModel, LinkModelDocument, LinkModelReference,
    MetadataEntry, ModelData, MultiModel, Rate, Relatum, ResourceLocation,
};
pub use validation::{ValidationCode, ValidationIssue, ValidationReport};

use vstd::prelude::*;

verus! {

/// Exact MMC 2.0 container namespace.
pub const MMC_NAMESPACE: &'static str = "http://www.buildingsmart.org/multi-model/MMContainer/2.0.0";

/// Exact MMC 2.0 LinkModel namespace.
pub const LINK_MODEL_NAMESPACE: &'static str = "http://www.buildingsmart.org/multi-model/LinkModel/2.0.0";

} // verus!
