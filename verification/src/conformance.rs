//! The structural and referential rules that a report checks, and the
//! traversal that collects their findings.

use vstd::prelude::*;

use crate::archive::{entry_paths, ArchiveEntry};
use crate::model::{
    ApplicationModel, DataResource, Link, LinkModelDocument, LinkModelReference, MetadataEntry,
    ModelData, MultiModel, Relatum, ResourceLocation,
};
use crate::path::archive_path_problem;
use crate::text::{decimal, first_index_of};
use crate::archive::find_entry_index;
use crate::path::path_problem;
use crate::text::{join3, join4, decimal_string, lemma_first_index_of, lemma_first_index_of_prefix, same_text};
use crate::validation::{issue, issue_views, IssueView, ValidationCode, ValidationIssue};
use iri_string::types::IriReferenceStr;

verus! {

/// Whether `iri_string` accepts `s` as an IRI reference (RFC 3987).
pub uninterp spec fn is_iri_reference(s: Seq<char>) -> bool;

/// The `Debug` rendering of an optional string slice.
pub uninterp spec fn debug_option_text(o: Option<Seq<char>>) -> Seq<char>;

/// The characters of an optional string.
pub open spec fn opt_text(o: Option<String>) -> Option<Seq<char>> {
    match o {
        Some(s) => Some(s@),
        None => None,
    }
}

/// `prefix` followed by the decimal index and a closing bracket.
pub open spec fn indexed(prefix: Seq<char>, i: int) -> Seq<char> {
    prefix + decimal(i as nat) + "]"@
}

/// A single finding, or none.
pub open spec fn finding_if(cond: bool, code: ValidationCode, at: Seq<char>, message: Seq<char>) -> Seq<IssueView> {
    if cond {
        seq![issue(code, at, message)]
    } else {
        Seq::empty()
    }
}

/// Two metadata items share a category and key.
pub open spec fn same_metadata_key(a: MetadataEntry, b: MetadataEntry) -> bool {
    opt_text(a.category) == opt_text(b.category) && a.key@ == b.key@
}

/// Every metadata item whose category and key were already used is reported.
pub open spec fn metadata_issues(entries: Seq<MetadataEntry>, at: Seq<char>) -> Seq<IssueView>
    decreases entries.len(),
{
    if entries.len() == 0 {
        Seq::empty()
    } else {
        let earlier = entries.drop_last();
        let last = entries.last();
        metadata_issues(earlier, at) + finding_if(
            exists|j: int| 0 <= j < earlier.len() && same_metadata_key(earlier[j], last),
            ValidationCode::DuplicateMetadataKey,
            at,
            "duplicate metadata key "@ + debug_option_text(opt_text(last.category)) + "/"@ + last.key@,
        )
    }
}

/// Embedded locations must be safe archive paths of present entries; external
/// locations must be IRI references.
pub open spec fn location_issues(
    location: ResourceLocation,
    at: Seq<char>,
    missing: ValidationCode,
    paths: Seq<Seq<char>>,
) -> Seq<IssueView> {
    match location {
        ResourceLocation::Embedded(p) => if archive_path_problem(p@) is Some {
            seq![issue(ValidationCode::InvalidResourceLocation, at, "unsafe embedded location "@ + p@)]
        } else {
            finding_if(!paths.contains(p@), missing, at, "embedded resource is absent: "@ + p@)
        },
        ResourceLocation::External(u) => finding_if(
            !is_iri_reference(u@),
            ValidationCode::InvalidResourceLocation,
            at,
            "invalid external IRI: "@ + u@,
        ),
    }
}

pub open spec fn model_ids(models: Seq<ApplicationModel>) -> Seq<Seq<char>> {
    models.map_values(|m: ApplicationModel| m.id@)
}

pub open spec fn representation_ids(reps: Seq<ModelData>) -> Seq<Seq<char>> {
    reps.map_values(|d: ModelData| d.id@)
}

pub open spec fn resource_ids(resources: Seq<DataResource>) -> Seq<Seq<char>> {
    resources.map_values(|r: DataResource| r.id@)
}

pub open spec fn relatum_models(relata: Seq<Relatum>) -> Seq<Seq<char>> {
    relata.map_values(|r: Relatum| r.model_id@)
}

pub open spec fn texts(s: Seq<String>) -> Seq<Seq<char>> {
    s.map_values(|t: String| t@)
}

/// `s` holds fewer than two distinct values.
pub open spec fn fewer_than_two_distinct(s: Seq<Seq<char>>) -> bool {
    forall|i: int, j: int| 0 <= i < s.len() && 0 <= j < s.len() ==> s[i] == s[j]
}

/// Findings for resource `k` of representation `data` located at `at`.
pub open spec fn resource_issues(data: ModelData, at: Seq<char>, k: int, paths: Seq<Seq<char>>) -> Seq<IssueView> {
    let resource = data.resources@[k];
    let here = indexed(at + "/DataRessource["@, k);
    metadata_issues(resource.metadata@, here) + finding_if(
        resource_ids(data.resources@).take(k).contains(resource.id@),
        ValidationCode::DuplicateResourceId,
        here,
        "duplicate resource id "@ + resource.id@ + " in representation "@ + data.id@,
    ) + location_issues(resource.location, here, ValidationCode::MissingEmbeddedResource, paths)
}

pub open spec fn resources_issues_upto(data: ModelData, at: Seq<char>, n: int, paths: Seq<Seq<char>>) -> Seq<IssueView>
    decreases n,
{
    if n <= 0 {
        Seq::empty()
    } else {
        resources_issues_upto(data, at, n - 1, paths) + resource_issues(data, at, n - 1, paths)
    }
}

/// Findings for representation `j` of `model` located at `at`.
pub open spec fn representation_issues(model: ApplicationModel, at: Seq<char>, j: int, paths: Seq<Seq<char>>) -> Seq<IssueView> {
    let data = model.representations@[j];
    let here = indexed(at + "/ModelData["@, j);
    metadata_issues(data.metadata@, here) + finding_if(
        representation_ids(model.representations@).take(j).contains(data.id@),
        ValidationCode::DuplicateRepresentationId,
        here,
        "duplicate representation id "@ + data.id@ + " in model "@ + model.id@,
    ) + finding_if(
        data.resources@.len() == 0,
        ValidationCode::ModelDataMissingResource,
        here,
        "ModelData requires at least one DataRessource"@,
    ) + resources_issues_upto(data, here, data.resources@.len() as int, paths)
}

pub open spec fn representations_issues_upto(model: ApplicationModel, at: Seq<char>, n: int, paths: Seq<Seq<char>>) -> Seq<IssueView>
    decreases n,
{
    if n <= 0 {
        Seq::empty()
    } else {
        representations_issues_upto(model, at, n - 1, paths) + representation_issues(model, at, n - 1, paths)
    }
}

/// Findings for application model `i`.
pub open spec fn model_issues(models: Seq<ApplicationModel>, i: int, paths: Seq<Seq<char>>) -> Seq<IssueView> {
    let model = models[i];
    let here = indexed("ApplicationModel["@, i);
    metadata_issues(model.metadata@, here) + finding_if(
        model_ids(models).take(i).contains(model.id@),
        ValidationCode::DuplicateModelId,
        here,
        "duplicate application-model id "@ + model.id@,
    ) + finding_if(
        model.representations@.len() == 0,
        ValidationCode::ApplicationModelMissingRepresentation,
        here,
        "ApplicationModel requires at least one ModelData"@,
    ) + representations_issues_upto(model, here, model.representations@.len() as int, paths)
}

pub open spec fn models_issues_upto(models: Seq<ApplicationModel>, n: int, paths: Seq<Seq<char>>) -> Seq<IssueView>
    decreases n,
{
    if n <= 0 {
        Seq::empty()
    } else {
        models_issues_upto(models, n - 1, paths) + model_issues(models, n - 1, paths)
    }
}

/// Two locations are the same embedded path or the same external IRI.
pub open spec fn same_location(a: ResourceLocation, b: ResourceLocation) -> bool {
    match (a, b) {
        (ResourceLocation::Embedded(x), ResourceLocation::Embedded(y)) => x@ == y@,
        (ResourceLocation::External(x), ResourceLocation::External(y)) => x@ == y@,
        _ => false,
    }
}

/// Undeclared models among the first `n` linked models of a reference.
pub open spec fn linked_models_issues_upto(
    linked: Seq<Seq<char>>,
    declared: Seq<Seq<char>>,
    at: Seq<char>,
    n: int,
) -> Seq<IssueView>
    decreases n,
{
    if n <= 0 {
        Seq::empty()
    } else {
        linked_models_issues_upto(linked, declared, at, n - 1) + finding_if(
            !declared.contains(linked[n - 1]),
            ValidationCode::UnknownModelReference,
            at,
            "LinkedModel references undeclared model "@ + linked[n - 1],
        )
    }
}

/// Findings for LinkModel reference `i`.
pub open spec fn reference_issues(
    refs: Seq<LinkModelReference>,
    i: int,
    models: Seq<ApplicationModel>,
    paths: Seq<Seq<char>>,
) -> Seq<IssueView> {
    let reference = refs[i];
    let here = indexed("LinkModel["@, i);
    let linked = texts(reference.linked_models@);
    metadata_issues(reference.metadata@, here) + finding_if(
        exists|j: int| 0 <= j < i && same_location(refs[j].location, reference.location),
        ValidationCode::DuplicateLinkModelLocation,
        here,
        "duplicate LinkModel location"@,
    ) + location_issues(reference.location, here, ValidationCode::MissingEmbeddedLinkModel, paths)
        + finding_if(
        fewer_than_two_distinct(linked),
        ValidationCode::TooFewLinkedModels,
        here,
        "LinkModel requires at least two LinkedModel references"@,
    ) + linked_models_issues_upto(linked, model_ids(models), here, linked.len() as int)
}

pub open spec fn references_issues_upto(
    refs: Seq<LinkModelReference>,
    n: int,
    models: Seq<ApplicationModel>,
    paths: Seq<Seq<char>>,
) -> Seq<IssueView>
    decreases n,
{
    if n <= 0 {
        Seq::empty()
    } else {
        references_issues_upto(refs, n - 1, models, paths) + reference_issues(refs, n - 1, models, paths)
    }
}

/// The first reference whose location is the embedded `path`.
pub open spec fn first_reference_at(refs: Seq<LinkModelReference>, path: Seq<char>) -> Option<int>
    decreases refs.len(),
{
    if refs.len() == 0 {
        None
    } else {
        match first_reference_at(refs.drop_last(), path) {
            Some(i) => Some(i),
            None => match refs.last().location {
                ResourceLocation::Embedded(p) => if p@ == path {
                    Some(refs.len() - 1)
                } else {
                    None
                },
                ResourceLocation::External(_) => None,
            },
        }
    }
}

/// The linked models that the container declares for the LinkModel at `path`.
pub open spec fn declared_links(refs: Seq<LinkModelReference>, path: Seq<char>) -> Seq<Seq<char>> {
    match first_reference_at(refs, path) {
        Some(i) => texts(refs[i].linked_models@),
        None => Seq::empty(),
    }
}

/// Resource disambiguation of a relatum within the representation it refers to.
pub open spec fn resource_reference_issues(data: ModelData, relatum: Relatum, at: Seq<char>) -> Seq<IssueView> {
    match relatum.resource_id {
        Some(id) => finding_if(
            !resource_ids(data.resources@).contains(id@),
            ValidationCode::UnknownResourceReference,
            at,
            "unknown resource "@ + id@ + " in representation "@ + data.id@,
        ),
        None => finding_if(
            data.resources@.len() > 1,
            ValidationCode::MissingResourceDisambiguator,
            at,
            "Relatum requires @r when its representation has multiple resources"@,
        ),
    }
}

/// Representation and resource disambiguation of a relatum within its model.
pub open spec fn relatum_reference_issues(model: ApplicationModel, relatum: Relatum, at: Seq<char>) -> Seq<IssueView> {
    let reps = model.representations@;
    match relatum.format_id {
        Some(id) => match first_index_of(representation_ids(reps), id@) {
            Some(j) => resource_reference_issues(reps[j], relatum, at),
            None => seq![
                issue(
                    ValidationCode::UnknownRepresentationReference,
                    at,
                    "unknown representation "@ + id@ + " in model "@ + model.id@,
                ),
            ],
        },
        None => if reps.len() == 1 {
            resource_reference_issues(reps[0], relatum, at)
        } else {
            seq![
                issue(
                    ValidationCode::MissingRepresentationDisambiguator,
                    at,
                    "Relatum requires @f when its application model has multiple representations"@,
                ),
            ]
        },
    }
}

/// Rates that target undeclared models, among the first `n` rates.
pub open spec fn rates_issues_upto(relatum: Relatum, ids: Seq<Seq<char>>, at: Seq<char>, n: int) -> Seq<IssueView>
    decreases n,
{
    if n <= 0 {
        Seq::empty()
    } else {
        let target = relatum.rates@[n - 1].target_model@;
        rates_issues_upto(relatum, ids, at, n - 1) + finding_if(
            !ids.contains(target),
            ValidationCode::RateTargetsUnknownModel,
            at,
            "Rate targets undeclared model "@ + target,
        )
    }
}

/// Findings for relatum `k` of `link` located at `at`.
pub open spec fn relatum_issues(
    models: Seq<ApplicationModel>,
    declared: Seq<Seq<char>>,
    link: Link,
    at: Seq<char>,
    k: int,
) -> Seq<IssueView> {
    let relatum = link.relata@[k];
    let here = indexed(at + "/Relatum["@, k);
    let ids = model_ids(models);
    metadata_issues(relatum.metadata@, here) + if !ids.contains(relatum.model_id@) {
        seq![
            issue(
                ValidationCode::UnknownModelReference,
                here,
                "Relatum references undeclared model "@ + relatum.model_id@,
            ),
        ]
    } else {
        finding_if(
            !declared.contains(relatum.model_id@),
            ValidationCode::UnknownModelReference,
            here,
            "Relatum model "@ + relatum.model_id@ + " is not declared by the containing LinkModel"@,
        ) + relatum_reference_issues(models[first_index_of(ids, relatum.model_id@)->0], relatum, here)
            + rates_issues_upto(relatum, ids, here, relatum.rates@.len() as int)
    }
}

pub open spec fn relata_issues_upto(
    models: Seq<ApplicationModel>,
    declared: Seq<Seq<char>>,
    link: Link,
    at: Seq<char>,
    n: int,
) -> Seq<IssueView>
    decreases n,
{
    if n <= 0 {
        Seq::empty()
    } else {
        relata_issues_upto(models, declared, link, at, n - 1) + relatum_issues(models, declared, link, at, n - 1)
    }
}

/// Findings for link `i` of the LinkModel at `path`.
pub open spec fn link_issues(
    models: Seq<ApplicationModel>,
    declared: Seq<Seq<char>>,
    path: Seq<char>,
    links: Seq<Link>,
    i: int,
) -> Seq<IssueView> {
    let link = links[i];
    let here = indexed(path + ":Link["@, i);
    metadata_issues(link.metadata@, here) + finding_if(
        link.relata@.len() < 2,
        ValidationCode::LinkHasTooFewRelata,
        here,
        "Link requires at least two Relatum elements"@,
    ) + finding_if(
        fewer_than_two_distinct(relatum_models(link.relata@)),
        ValidationCode::LinkHasTooFewModels,
        here,
        "Link requires relata from at least two application models"@,
    ) + relata_issues_upto(models, declared, link, here, link.relata@.len() as int)
}

pub open spec fn links_issues_upto(
    models: Seq<ApplicationModel>,
    declared: Seq<Seq<char>>,
    path: Seq<char>,
    links: Seq<Link>,
    n: int,
) -> Seq<IssueView>
    decreases n,
{
    if n <= 0 {
        Seq::empty()
    } else {
        links_issues_upto(models, declared, path, links, n - 1) + link_issues(models, declared, path, links, n - 1)
    }
}

/// Findings for one parsed LinkModel document.
pub open spec fn document_issues(container: MultiModel, doc: LinkModelDocument) -> Seq<IssueView> {
    let path = doc.spec_path();
    let model = doc.spec_model();
    metadata_issues(model.metadata@, path) + finding_if(
        model.format_version@ != "2.0.0"@,
        ValidationCode::UnsupportedFormatVersion,
        path,
        "LinkModel 2.0 namespace requires formatVersion 2.0.0"@,
    ) + finding_if(
        model.links@.len() == 0,
        ValidationCode::LinkModelHasNoLinks,
        path,
        "LinkModel requires at least one Link"@,
    ) + links_issues_upto(
        container.models@,
        declared_links(container.link_models@, path),
        path,
        model.links@,
        model.links@.len() as int,
    )
}

pub open spec fn documents_issues_upto(container: MultiModel, docs: Seq<LinkModelDocument>, n: int) -> Seq<IssueView>
    decreases n,
{
    if n <= 0 {
        Seq::empty()
    } else {
        documents_issues_upto(container, docs, n - 1) + document_issues(container, docs[n - 1])
    }
}

/// Findings for the container document itself.
pub open spec fn container_issues(container: MultiModel, paths: Seq<Seq<char>>) -> Seq<IssueView> {
    let meta = container.metadata;
    metadata_issues(meta.metadata@, "MultiModel.xml/MetaData"@) + finding_if(
        meta.format_version@ != "2.0.0"@,
        ValidationCode::UnsupportedFormatVersion,
        "MultiModel.xml@formatVersion"@,
        "MMC 2.0 namespace requires formatVersion 2.0.0"@,
    ) + finding_if(
        meta.mm_domain matches Some(d) && !is_iri_reference(d@),
        ValidationCode::InvalidResourceLocation,
        "MultiModel.xml@mmDomain"@,
        "mmDomain is not a valid IRI reference"@,
    ) + finding_if(
        container.models@.len() == 0,
        ValidationCode::TooFewApplicationModels,
        "MultiModel.xml"@,
        "MMC 2.0 requires at least one ApplicationModel declaration"@,
    ) + models_issues_upto(container.models@, container.models@.len() as int, paths)
        + references_issues_upto(
        container.link_models@,
        container.link_models@.len() as int,
        container.models@,
        paths,
    )
}

/// Every finding about an archive with the given container, entries and
/// parsed LinkModel documents (before they are put in report order).
pub open spec fn archive_findings(
    container: MultiModel,
    entries: Seq<ArchiveEntry>,
    docs: Seq<LinkModelDocument>,
) -> Seq<IssueView> {
    container_issues(container, entry_paths(entries)) + documents_issues_upto(container, docs, docs.len() as int)
}

/// `IriReferenceStr::new` from `iri_string`: whether `s` parses as an IRI
/// reference. The result is the named verdict on the input.
#[verifier::external_body]
fn iri_reference_ok(s: &str) -> (r: bool)
    ensures
        r == is_iri_reference(s@),
{
    IriReferenceStr::new(s).is_ok()
}

/// `<Option<&str> as Debug>::fmt` from std (via `format!("{:?}")`): `None`, or
/// `Some("...")` with the text escaped. The result is the named rendering.
#[verifier::external_body]
fn debug_option(o: Option<&str>) -> (r: String)
    ensures
        r@ == debug_option_text(
            match o {
                Some(s) => Some(s@),
                None => None,
            },
        ),
{
    format!("{:?}", o)
}

/// `prefix`, then `i` in decimal, then `]`.
fn indexed_location(prefix: &str, i: usize) -> (r: String)
    ensures
        r@ == indexed(prefix@, i as int),
{
    let mut r = String::from_str(prefix);
    let digits = decimal_string(i);
    r.append(digits.as_str());
    r.append("]");
    r
}

fn push_issue(raw: &mut Vec<ValidationIssue>, code: ValidationCode, at: &str, message: String)
    ensures
        issue_views(final(raw)@) == issue_views(old(raw)@) + seq![issue(code, at@, message@)],
{
    let ghost before = issue_views(raw@);
    raw.push(ValidationIssue { code, location: String::from_str(at), message });
    proof {
        assert(issue_views(raw@) =~= before + seq![issue(code, at@, message@)]);
    }
}

fn same_optional_text(a: &Option<String>, b: &Option<String>) -> (r: bool)
    ensures
        r == (opt_text(*a) == opt_text(*b)),
{
    match (a, b) {
        (Some(x), Some(y)) => *x == *y,
        (None, None) => true,
        _ => false,
    }
}

fn push_metadata_issues(raw: &mut Vec<ValidationIssue>, entries: &[MetadataEntry], at: &str)
    ensures
        issue_views(final(raw)@) == issue_views(old(raw)@) + metadata_issues(entries@, at@),
{
    let ghost start = issue_views(raw@);
    let mut i: usize = 0;
    assert(entries@.take(0) =~= Seq::<MetadataEntry>::empty());
    assert(start + Seq::<IssueView>::empty() =~= start);
    while i < entries.len()
        invariant
            i <= entries@.len(),
            issue_views(raw@) == start + metadata_issues(entries@.take(i as int), at@),
        decreases entries@.len() - i,
    {
        let ghost prefix = entries@.take(i + 1);
        assert(prefix.drop_last() =~= entries@.take(i as int));
        assert(prefix.last() == entries@[i as int]);
        let entry = &entries[i];
        let mut duplicate = false;
        let mut j: usize = 0;
        while j < i
            invariant
                i < entries@.len(),
                j <= i,
                prefix == entries@.take(i + 1),
                prefix.last() == entries@[i as int],
                *entry == entries@[i as int],
                duplicate == exists|q: int| 0 <= q < j && same_metadata_key(prefix.drop_last()[q], prefix.last()),
            decreases i - j,
        {
            assert(prefix.drop_last()[j as int] == entries@[j as int]);
            let same_category = same_optional_text(&entries[j].category, &entry.category);
            let same_key = entries[j].key == entry.key;
            assert(same_key == (entries@[j as int].key@ == entry.key@));
            if same_category && same_key {
                duplicate = true;
            }
            assert(same_metadata_key(prefix.drop_last()[j as int], prefix.last()) == (same_category && same_key));
            j = j + 1;
        }
        if duplicate {
            let category = match &entry.category {
                Some(c) => Some(c.as_str()),
                None => None,
            };
            let mut message = String::from_str("duplicate metadata key ");
            let rendered = debug_option(category);
            message.append(rendered.as_str());
            message.append("/");
            message.append(entry.key.as_str());
            push_issue(raw, ValidationCode::DuplicateMetadataKey, at, message);
        }
        proof {
            assert(issue_views(raw@) =~= start + metadata_issues(entries@.take(i + 1), at@));
        }
        i = i + 1;
    }
    assert(entries@.take(i as int) =~= entries@);
}

fn push_location_issues(
    raw: &mut Vec<ValidationIssue>,
    location: &ResourceLocation,
    at: &str,
    missing: ValidationCode,
    entries: &[ArchiveEntry],
)
    ensures
        issue_views(final(raw)@) == issue_views(old(raw)@) + location_issues(*location, at@, missing, entry_paths(entries@)),
{
    let ghost before = issue_views(raw@);
    match location {
        ResourceLocation::Embedded(p) => {
            if path_problem(p.as_str()).is_some() {
                push_issue(raw, ValidationCode::InvalidResourceLocation, at, crate::text::concat("unsafe embedded location ", p.as_str()));
            } else if find_entry_index(entries, p.as_str()).is_none() {
                proof { lemma_first_index_of(entry_paths(entries@), p@); }
                push_issue(raw, missing, at, crate::text::concat("embedded resource is absent: ", p.as_str()));
            } else {
                proof { lemma_first_index_of(entry_paths(entries@), p@); }
                assert(before + Seq::<IssueView>::empty() =~= before);
            }
        },
        ResourceLocation::External(u) => {
            if !iri_reference_ok(u.as_str()) {
                push_issue(raw, ValidationCode::InvalidResourceLocation, at, crate::text::concat("invalid external IRI: ", u.as_str()));
            } else {
                assert(before + Seq::<IssueView>::empty() =~= before);
            }
        },
    }
}


fn model_id_among(models: &[ApplicationModel], n: usize, id: &str) -> (r: bool)
    requires
        n <= models@.len(),
    ensures
        r == model_ids(models@).take(n as int).contains(id@),
{
    let ghost ids = model_ids(models@).take(n as int);
    let mut j: usize = 0;
    while j < n
        invariant
            n <= models@.len(),
            j <= n,
            ids == model_ids(models@).take(n as int),
            forall|q: int| 0 <= q < j ==> ids[q] != id@,
        decreases n - j,
    {
        assert(ids[j as int] == models@[j as int].id@);
        if same_text(models[j].id.as_str(), id) {
            return true;
        }
        j = j + 1;
    }
    false
}

fn representation_id_among(reps: &[ModelData], n: usize, id: &str) -> (r: bool)
    requires
        n <= reps@.len(),
    ensures
        r == representation_ids(reps@).take(n as int).contains(id@),
{
    let ghost ids = representation_ids(reps@).take(n as int);
    let mut j: usize = 0;
    while j < n
        invariant
            n <= reps@.len(),
            j <= n,
            ids == representation_ids(reps@).take(n as int),
            forall|q: int| 0 <= q < j ==> ids[q] != id@,
        decreases n - j,
    {
        assert(ids[j as int] == reps@[j as int].id@);
        if same_text(reps[j].id.as_str(), id) {
            return true;
        }
        j = j + 1;
    }
    false
}

fn resource_id_among(resources: &[DataResource], n: usize, id: &str) -> (r: bool)
    requires
        n <= resources@.len(),
    ensures
        r == resource_ids(resources@).take(n as int).contains(id@),
{
    let ghost ids = resource_ids(resources@).take(n as int);
    let mut j: usize = 0;
    while j < n
        invariant
            n <= resources@.len(),
            j <= n,
            ids == resource_ids(resources@).take(n as int),
            forall|q: int| 0 <= q < j ==> ids[q] != id@,
        decreases n - j,
    {
        assert(ids[j as int] == resources@[j as int].id@);
        if same_text(resources[j].id.as_str(), id) {
            return true;
        }
        j = j + 1;
    }
    false
}

fn text_among(list: &[String], id: &str) -> (r: bool)
    ensures
        r == texts(list@).contains(id@),
{
    let ghost ids = texts(list@);
    let mut j: usize = 0;
    while j < list.len()
        invariant
            j <= list@.len(),
            ids == texts(list@),
            forall|q: int| 0 <= q < j ==> ids[q] != id@,
        decreases list@.len() - j,
    {
        assert(ids[j as int] == list@[j as int]@);
        if same_text(list[j].as_str(), id) {
            return true;
        }
        j = j + 1;
    }
    false
}

fn first_model_with_id(models: &[ApplicationModel], id: &str) -> (r: Option<usize>)
    ensures
        r matches Some(i) ==> first_index_of(model_ids(models@), id@) == Some(i as int),
        r is None ==> first_index_of(model_ids(models@), id@) is None,
{
    let ghost ids = model_ids(models@);
    let mut i: usize = 0;
    while i < models.len()
        invariant
            i <= models@.len(),
            ids == model_ids(models@),
            first_index_of(ids.take(i as int), id@) is None,
        decreases models@.len() - i,
    {
        assert(ids.take(i + 1).drop_last() =~= ids.take(i as int));
        assert(ids.take(i + 1).last() == models@[i as int].id@);
        if same_text(models[i].id.as_str(), id) {
            proof { lemma_first_index_of_prefix(ids, i + 1, id@); }
            return Some(i);
        }
        i = i + 1;
    }
    assert(ids.take(i as int) =~= ids);
    None
}

fn first_representation_with_id(reps: &[ModelData], id: &str) -> (r: Option<usize>)
    ensures
        r matches Some(i) ==> first_index_of(representation_ids(reps@), id@) == Some(i as int),
        r is None ==> first_index_of(representation_ids(reps@), id@) is None,
{
    let ghost ids = representation_ids(reps@);
    let mut i: usize = 0;
    while i < reps.len()
        invariant
            i <= reps@.len(),
            ids == representation_ids(reps@),
            first_index_of(ids.take(i as int), id@) is None,
        decreases reps@.len() - i,
    {
        assert(ids.take(i + 1).drop_last() =~= ids.take(i as int));
        assert(ids.take(i + 1).last() == reps@[i as int].id@);
        if same_text(reps[i].id.as_str(), id) {
            proof { lemma_first_index_of_prefix(ids, i + 1, id@); }
            return Some(i);
        }
        i = i + 1;
    }
    assert(ids.take(i as int) =~= ids);
    None
}

proof fn lemma_first_reference_at_prefix(refs: Seq<LinkModelReference>, n: int, path: Seq<char>)
    requires
        0 <= n <= refs.len(),
        first_reference_at(refs.take(n), path) is Some,
    ensures
        first_reference_at(refs, path) == first_reference_at(refs.take(n), path),
    decreases refs.len() - n,
{
    if n < refs.len() {
        assert(refs.take(n + 1).drop_last() =~= refs.take(n));
        lemma_first_reference_at_prefix(refs, n + 1, path);
    } else {
        assert(refs.take(n) =~= refs);
    }
}

proof fn lemma_first_reference_at_bound(refs: Seq<LinkModelReference>, path: Seq<char>)
    ensures
        first_reference_at(refs, path) matches Some(i) ==> 0 <= i < refs.len(),
    decreases refs.len(),
{
    if refs.len() > 0 {
        lemma_first_reference_at_bound(refs.drop_last(), path);
    }
}

fn first_reference_index(refs: &[LinkModelReference], path: &str) -> (r: Option<usize>)
    ensures
        r matches Some(i) ==> first_reference_at(refs@, path@) == Some(i as int),
        r is None ==> first_reference_at(refs@, path@) is None,
{
    let mut i: usize = 0;
    while i < refs.len()
        invariant
            i <= refs@.len(),
            first_reference_at(refs@.take(i as int), path@) is None,
        decreases refs@.len() - i,
    {
        assert(refs@.take(i + 1).drop_last() =~= refs@.take(i as int));
        assert(refs@.take(i + 1).last() == refs@[i as int]);
        let hit = match refs[i].location.embedded_path() {
            Some(p) => same_text(p, path),
            None => false,
        };
        if hit {
            proof { lemma_first_reference_at_prefix(refs@, i + 1, path@); }
            return Some(i);
        }
        i = i + 1;
    }
    assert(refs@.take(i as int) =~= refs@);
    None
}

fn all_same_texts(list: &[String]) -> (r: bool)
    ensures
        r == fewer_than_two_distinct(texts(list@)),
{
    let ghost s = texts(list@);
    if list.len() == 0 {
        return true;
    }
    let mut j: usize = 1;
    while j < list.len()
        invariant
            1 <= j <= list@.len(),
            s == texts(list@),
            forall|q: int| 0 <= q < j ==> #[trigger] s[q] == s[0],
        decreases list@.len() - j,
    {
        assert(s[j as int] == list@[j as int]@ && s[0] == list@[0]@);
        if !same_text(list[j].as_str(), list[0].as_str()) {
            return false;
        }
        j = j + 1;
    }
    true
}

fn all_same_relatum_models(relata: &[Relatum]) -> (r: bool)
    ensures
        r == fewer_than_two_distinct(relatum_models(relata@)),
{
    let ghost s = relatum_models(relata@);
    if relata.len() == 0 {
        return true;
    }
    let mut j: usize = 1;
    while j < relata.len()
        invariant
            1 <= j <= relata@.len(),
            s == relatum_models(relata@),
            forall|q: int| 0 <= q < j ==> #[trigger] s[q] == s[0],
        decreases relata@.len() - j,
    {
        assert(s[j as int] == relata@[j as int].model_id@ && s[0] == relata@[0].model_id@);
        if !same_text(relata[j].model_id.as_str(), relata[0].model_id.as_str()) {
            return false;
        }
        j = j + 1;
    }
    true
}

fn push_resource_issues(
    raw: &mut Vec<ValidationIssue>,
    data: &ModelData,
    at: &str,
    k: usize,
    entries: &[ArchiveEntry],
)
    requires
        k < data.resources@.len(),
    ensures
        issue_views(final(raw)@) == issue_views(old(raw)@) + resource_issues(*data, at@, k as int, entry_paths(entries@)),
{
    let ghost before = issue_views(raw@);
    let resource = &data.resources[k];
    let prefix = crate::text::concat(at, "/DataRessource[");
    let here = indexed_location(prefix.as_str(), k);
    push_metadata_issues(raw, resource.metadata.as_slice(), here.as_str());
    let ghost mid = issue_views(raw@);
    if resource_id_among(data.resources.as_slice(), k, resource.id.as_str()) {
        let message = join4("duplicate resource id ", resource.id.as_str(), " in representation ", data.id.as_str());
        push_issue(raw, ValidationCode::DuplicateResourceId, here.as_str(), message);
    } else {
        assert(mid + Seq::<IssueView>::empty() =~= mid);
    }
    push_location_issues(raw, &resource.location, here.as_str(), ValidationCode::MissingEmbeddedResource, entries);
    proof {
        assert(issue_views(raw@) =~= before + resource_issues(*data, at@, k as int, entry_paths(entries@)));
    }
}

fn push_resources_issues(raw: &mut Vec<ValidationIssue>, data: &ModelData, at: &str, entries: &[ArchiveEntry])
    ensures
        issue_views(final(raw)@) == issue_views(old(raw)@) + resources_issues_upto(
            *data,
            at@,
            data.resources@.len() as int,
            entry_paths(entries@),
        ),
{
    let ghost start = issue_views(raw@);
    let mut k: usize = 0;
    assert(start + Seq::<IssueView>::empty() =~= start);
    while k < data.resources.len()
        invariant
            k <= data.resources@.len(),
            issue_views(raw@) == start + resources_issues_upto(*data, at@, k as int, entry_paths(entries@)),
        decreases data.resources@.len() - k,
    {
        push_resource_issues(raw, data, at, k, entries);
        proof {
            assert(issue_views(raw@) =~= start + resources_issues_upto(*data, at@, k + 1, entry_paths(entries@)));
        }
        k = k + 1;
    }
}

fn push_representation_issues(
    raw: &mut Vec<ValidationIssue>,
    model: &ApplicationModel,
    at: &str,
    j: usize,
    entries: &[ArchiveEntry],
)
    requires
        j < model.representations@.len(),
    ensures
        issue_views(final(raw)@) == issue_views(old(raw)@) + representation_issues(
            *model,
            at@,
            j as int,
            entry_paths(entries@),
        ),
{
    let ghost before = issue_views(raw@);
    let data = &model.representations[j];
    let prefix = crate::text::concat(at, "/ModelData[");
    let here = indexed_location(prefix.as_str(), j);
    push_metadata_issues(raw, data.metadata.as_slice(), here.as_str());
    let ghost m1 = issue_views(raw@);
    if representation_id_among(model.representations.as_slice(), j, data.id.as_str()) {
        let message = join4("duplicate representation id ", data.id.as_str(), " in model ", model.id.as_str());
        push_issue(raw, ValidationCode::DuplicateRepresentationId, here.as_str(), message);
    } else {
        assert(m1 + Seq::<IssueView>::empty() =~= m1);
    }
    let ghost m2 = issue_views(raw@);
    if data.resources.len() == 0 {
        push_issue(
            raw,
            ValidationCode::ModelDataMissingResource,
            here.as_str(),
            String::from_str("ModelData requires at least one DataRessource"),
        );
    } else {
        assert(m2 + Seq::<IssueView>::empty() =~= m2);
    }
    push_resources_issues(raw, data, here.as_str(), entries);
    proof {
        assert(issue_views(raw@) =~= before + representation_issues(*model, at@, j as int, entry_paths(entries@)));
    }
}

fn push_representations_issues(
    raw: &mut Vec<ValidationIssue>,
    model: &ApplicationModel,
    at: &str,
    entries: &[ArchiveEntry],
)
    ensures
        issue_views(final(raw)@) == issue_views(old(raw)@) + representations_issues_upto(
            *model,
            at@,
            model.representations@.len() as int,
            entry_paths(entries@),
        ),
{
    let ghost start = issue_views(raw@);
    let mut j: usize = 0;
    assert(start + Seq::<IssueView>::empty() =~= start);
    while j < model.representations.len()
        invariant
            j <= model.representations@.len(),
            issue_views(raw@) == start + representations_issues_upto(*model, at@, j as int, entry_paths(entries@)),
        decreases model.representations@.len() - j,
    {
        push_representation_issues(raw, model, at, j, entries);
        proof {
            assert(issue_views(raw@) =~= start + representations_issues_upto(*model, at@, j + 1, entry_paths(entries@)));
        }
        j = j + 1;
    }
}

fn push_model_issues(raw: &mut Vec<ValidationIssue>, models: &[ApplicationModel], i: usize, entries: &[ArchiveEntry])
    requires
        i < models@.len(),
    ensures
        issue_views(final(raw)@) == issue_views(old(raw)@) + model_issues(models@, i as int, entry_paths(entries@)),
{
    let ghost before = issue_views(raw@);
    let model = &models[i];
    let here = indexed_location("ApplicationModel[", i);
    push_metadata_issues(raw, model.metadata.as_slice(), here.as_str());
    let ghost m1 = issue_views(raw@);
    if model_id_among(models, i, model.id.as_str()) {
        let message = crate::text::concat("duplicate application-model id ", model.id.as_str());
        push_issue(raw, ValidationCode::DuplicateModelId, here.as_str(), message);
    } else {
        assert(m1 + Seq::<IssueView>::empty() =~= m1);
    }
    let ghost m2 = issue_views(raw@);
    if model.representations.len() == 0 {
        push_issue(
            raw,
            ValidationCode::ApplicationModelMissingRepresentation,
            here.as_str(),
            String::from_str("ApplicationModel requires at least one ModelData"),
        );
    } else {
        assert(m2 + Seq::<IssueView>::empty() =~= m2);
    }
    push_representations_issues(raw, model, here.as_str(), entries);
    proof {
        assert(issue_views(raw@) =~= before + model_issues(models@, i as int, entry_paths(entries@)));
    }
}

fn push_models_issues(raw: &mut Vec<ValidationIssue>, models: &[ApplicationModel], entries: &[ArchiveEntry])
    ensures
        issue_views(final(raw)@) == issue_views(old(raw)@) + models_issues_upto(
            models@,
            models@.len() as int,
            entry_paths(entries@),
        ),
{
    let ghost start = issue_views(raw@);
    let mut i: usize = 0;
    assert(start + Seq::<IssueView>::empty() =~= start);
    while i < models.len()
        invariant
            i <= models@.len(),
            issue_views(raw@) == start + models_issues_upto(models@, i as int, entry_paths(entries@)),
        decreases models@.len() - i,
    {
        push_model_issues(raw, models, i, entries);
        proof {
            assert(issue_views(raw@) =~= start + models_issues_upto(models@, i + 1, entry_paths(entries@)));
        }
        i = i + 1;
    }
}

fn same_location_exec(a: &ResourceLocation, b: &ResourceLocation) -> (r: bool)
    ensures
        r == same_location(*a, *b),
{
    match (a, b) {
        (ResourceLocation::Embedded(x), ResourceLocation::Embedded(y)) => *x == *y,
        (ResourceLocation::External(x), ResourceLocation::External(y)) => *x == *y,
        _ => false,
    }
}

fn push_reference_issues(
    raw: &mut Vec<ValidationIssue>,
    refs: &[LinkModelReference],
    i: usize,
    models: &[ApplicationModel],
    entries: &[ArchiveEntry],
)
    requires
        i < refs@.len(),
    ensures
        issue_views(final(raw)@) == issue_views(old(raw)@) + reference_issues(
            refs@,
            i as int,
            models@,
            entry_paths(entries@),
        ),
{
    let ghost before = issue_views(raw@);
    let reference = &refs[i];
    let here = indexed_location("LinkModel[", i);
    push_metadata_issues(raw, reference.metadata.as_slice(), here.as_str());
    let ghost m1 = issue_views(raw@);
    let mut duplicate = false;
    let mut j: usize = 0;
    while j < i
        invariant
            i < refs@.len(),
            j <= i,
            *reference == refs@[i as int],
            duplicate == exists|q: int| 0 <= q < j && same_location(refs@[q].location, reference.location),
        decreases i - j,
    {
        if same_location_exec(&refs[j].location, &reference.location) {
            duplicate = true;
        }
        j = j + 1;
    }
    if duplicate {
        push_issue(
            raw,
            ValidationCode::DuplicateLinkModelLocation,
            here.as_str(),
            String::from_str("duplicate LinkModel location"),
        );
    } else {
        assert(m1 + Seq::<IssueView>::empty() =~= m1);
    }
    push_location_issues(raw, &reference.location, here.as_str(), ValidationCode::MissingEmbeddedLinkModel, entries);
    let ghost m3 = issue_views(raw@);
    if all_same_texts(reference.linked_models.as_slice()) {
        push_issue(
            raw,
            ValidationCode::TooFewLinkedModels,
            here.as_str(),
            String::from_str("LinkModel requires at least two LinkedModel references"),
        );
    } else {
        assert(m3 + Seq::<IssueView>::empty() =~= m3);
    }
    let ghost m4 = issue_views(raw@);
    let ghost linked = texts(reference.linked_models@);
    let mut k: usize = 0;
    assert(m4 + Seq::<IssueView>::empty() =~= m4);
    while k < reference.linked_models.len()
        invariant
            k <= reference.linked_models@.len(),
            linked == texts(reference.linked_models@),
            issue_views(raw@) == m4 + linked_models_issues_upto(linked, model_ids(models@), here@, k as int),
        decreases reference.linked_models@.len() - k,
    {
        let id = &reference.linked_models[k];
        assert(linked[k as int] == id@);
        let ghost m5 = issue_views(raw@);
        if !model_id_among(models, models.len(), id.as_str()) {
            push_issue(
                raw,
                ValidationCode::UnknownModelReference,
                here.as_str(),
                crate::text::concat("LinkedModel references undeclared model ", id.as_str()),
            );
        } else {
            assert(m5 + Seq::<IssueView>::empty() =~= m5);
        }
        assert(model_ids(models@).take(models@.len() as int) =~= model_ids(models@));
        proof {
            assert(issue_views(raw@) =~= m4 + linked_models_issues_upto(linked, model_ids(models@), here@, k + 1));
        }
        k = k + 1;
    }
    proof {
        assert(issue_views(raw@) =~= before + reference_issues(refs@, i as int, models@, entry_paths(entries@)));
    }
}

fn push_references_issues(
    raw: &mut Vec<ValidationIssue>,
    refs: &[LinkModelReference],
    models: &[ApplicationModel],
    entries: &[ArchiveEntry],
)
    ensures
        issue_views(final(raw)@) == issue_views(old(raw)@) + references_issues_upto(
            refs@,
            refs@.len() as int,
            models@,
            entry_paths(entries@),
        ),
{
    let ghost start = issue_views(raw@);
    let mut i: usize = 0;
    assert(start + Seq::<IssueView>::empty() =~= start);
    while i < refs.len()
        invariant
            i <= refs@.len(),
            issue_views(raw@) == start + references_issues_upto(refs@, i as int, models@, entry_paths(entries@)),
        decreases refs@.len() - i,
    {
        push_reference_issues(raw, refs, i, models, entries);
        proof {
            assert(issue_views(raw@) =~= start + references_issues_upto(refs@, i + 1, models@, entry_paths(entries@)));
        }
        i = i + 1;
    }
}


fn push_resource_reference_issues(raw: &mut Vec<ValidationIssue>, data: &ModelData, relatum: &Relatum, at: &str)
    ensures
        issue_views(final(raw)@) == issue_views(old(raw)@) + resource_reference_issues(*data, *relatum, at@),
{
    let ghost before = issue_views(raw@);
    match &relatum.resource_id {
        Some(id) => {
            if !resource_id_among(data.resources.as_slice(), data.resources.len(), id.as_str()) {
                assert(resource_ids(data.resources@).take(data.resources@.len() as int) =~= resource_ids(data.resources@));
                let message = join4("unknown resource ", id.as_str(), " in representation ", data.id.as_str());
                push_issue(raw, ValidationCode::UnknownResourceReference, at, message);
            } else {
                assert(resource_ids(data.resources@).take(data.resources@.len() as int) =~= resource_ids(data.resources@));
                assert(before + Seq::<IssueView>::empty() =~= before);
            }
        },
        None => {
            if data.resources.len() > 1 {
                push_issue(
                    raw,
                    ValidationCode::MissingResourceDisambiguator,
                    at,
                    String::from_str("Relatum requires @r when its representation has multiple resources"),
                );
            } else {
                assert(before + Seq::<IssueView>::empty() =~= before);
            }
        },
    }
}

fn push_relatum_reference_issues(raw: &mut Vec<ValidationIssue>, model: &ApplicationModel, relatum: &Relatum, at: &str)
    ensures
        issue_views(final(raw)@) == issue_views(old(raw)@) + relatum_reference_issues(*model, *relatum, at@),
{
    match &relatum.format_id {
        Some(id) => match first_representation_with_id(model.representations.as_slice(), id.as_str()) {
            Some(j) => {
                proof { lemma_first_index_of(representation_ids(model.representations@), id@); }
                push_resource_reference_issues(raw, &model.representations[j], relatum, at);
            },
            None => {
                let message = join4("unknown representation ", id.as_str(), " in model ", model.id.as_str());
                push_issue(raw, ValidationCode::UnknownRepresentationReference, at, message);
            },
        },
        None => {
            if model.representations.len() == 1 {
                push_resource_reference_issues(raw, &model.representations[0], relatum, at);
            } else {
                push_issue(
                    raw,
                    ValidationCode::MissingRepresentationDisambiguator,
                    at,
                    String::from_str("Relatum requires @f when its application model has multiple representations"),
                );
            }
        },
    }
}

fn push_relatum_issues(
    raw: &mut Vec<ValidationIssue>,
    models: &[ApplicationModel],
    declared: &[String],
    link: &Link,
    at: &str,
    k: usize,
)
    requires
        k < link.relata@.len(),
    ensures
        issue_views(final(raw)@) == issue_views(old(raw)@) + relatum_issues(models@, texts(declared@), *link, at@, k as int),
{
    let ghost before = issue_views(raw@);
    let ghost ids = model_ids(models@);
    let relatum = &link.relata[k];
    let prefix = crate::text::concat(at, "/Relatum[");
    let here = indexed_location(prefix.as_str(), k);
    push_metadata_issues(raw, relatum.metadata.as_slice(), here.as_str());
    let ghost m1 = issue_views(raw@);
    assert(ids.take(models@.len() as int) =~= ids);
    match first_model_with_id(models, relatum.model_id.as_str()) {
        None => {
            proof { lemma_first_index_of(ids, relatum.model_id@); }
            let message = crate::text::concat("Relatum references undeclared model ", relatum.model_id.as_str());
            push_issue(raw, ValidationCode::UnknownModelReference, here.as_str(), message);
        },
        Some(index) => {
            proof { lemma_first_index_of(ids, relatum.model_id@); }
            assert(ids.contains(relatum.model_id@));
            if !text_among(declared, relatum.model_id.as_str()) {
                let message = join3(
                    "Relatum model ",
                    relatum.model_id.as_str(),
                    " is not declared by the containing LinkModel",
                );
                push_issue(raw, ValidationCode::UnknownModelReference, here.as_str(), message);
            } else {
                assert(m1 + Seq::<IssueView>::empty() =~= m1);
            }
            push_relatum_reference_issues(raw, &models[index], relatum, here.as_str());
            let ghost m2 = issue_views(raw@);
            let mut q: usize = 0;
            assert(m2 + Seq::<IssueView>::empty() =~= m2);
            while q < relatum.rates.len()
                invariant
                    q <= relatum.rates@.len(),
                    ids == model_ids(models@),
                    issue_views(raw@) == m2 + rates_issues_upto(*relatum, ids, here@, q as int),
                decreases relatum.rates@.len() - q,
            {
                let target = &relatum.rates[q].target_model;
                let ghost m3 = issue_views(raw@);
                if !model_id_among(models, models.len(), target.as_str()) {
                    assert(ids.take(models@.len() as int) =~= ids);
                    let message = crate::text::concat("Rate targets undeclared model ", target.as_str());
                    push_issue(raw, ValidationCode::RateTargetsUnknownModel, here.as_str(), message);
                } else {
                    assert(ids.take(models@.len() as int) =~= ids);
                    assert(m3 + Seq::<IssueView>::empty() =~= m3);
                }
                proof {
                    assert(issue_views(raw@) =~= m2 + rates_issues_upto(*relatum, ids, here@, q + 1));
                }
                q = q + 1;
            }
        },
    }
    proof {
        assert(issue_views(raw@) =~= before + relatum_issues(models@, texts(declared@), *link, at@, k as int));
    }
}

fn push_link_issues(
    raw: &mut Vec<ValidationIssue>,
    models: &[ApplicationModel],
    declared: &[String],
    path: &str,
    links: &[Link],
    i: usize,
)
    requires
        i < links@.len(),
    ensures
        issue_views(final(raw)@) == issue_views(old(raw)@) + link_issues(models@, texts(declared@), path@, links@, i as int),
{
    let ghost before = issue_views(raw@);
    let link = &links[i];
    let prefix = crate::text::concat(path, ":Link[");
    let here = indexed_location(prefix.as_str(), i);
    push_metadata_issues(raw, link.metadata.as_slice(), here.as_str());
    let ghost m1 = issue_views(raw@);
    if link.relata.len() < 2 {
        push_issue(
            raw,
            ValidationCode::LinkHasTooFewRelata,
            here.as_str(),
            String::from_str("Link requires at least two Relatum elements"),
        );
    } else {
        assert(m1 + Seq::<IssueView>::empty() =~= m1);
    }
    let ghost m2 = issue_views(raw@);
    if all_same_relatum_models(link.relata.as_slice()) {
        push_issue(
            raw,
            ValidationCode::LinkHasTooFewModels,
            here.as_str(),
            String::from_str("Link requires relata from at least two application models"),
        );
    } else {
        assert(m2 + Seq::<IssueView>::empty() =~= m2);
    }
    let ghost m3 = issue_views(raw@);
    let mut k: usize = 0;
    assert(m3 + Seq::<IssueView>::empty() =~= m3);
    while k < link.relata.len()
        invariant
            k <= link.relata@.len(),
            issue_views(raw@) == m3 + relata_issues_upto(models@, texts(declared@), *link, here@, k as int),
        decreases link.relata@.len() - k,
    {
        push_relatum_issues(raw, models, declared, link, here.as_str(), k);
        proof {
            assert(issue_views(raw@) =~= m3 + relata_issues_upto(models@, texts(declared@), *link, here@, k + 1));
        }
        k = k + 1;
    }
    proof {
        assert(issue_views(raw@) =~= before + link_issues(models@, texts(declared@), path@, links@, i as int));
    }
}

fn push_document_issues(raw: &mut Vec<ValidationIssue>, container: &MultiModel, doc: &LinkModelDocument)
    ensures
        issue_views(final(raw)@) == issue_views(old(raw)@) + document_issues(*container, *doc),
{
    let ghost before = issue_views(raw@);
    let path = doc.path();
    let model = doc.model();
    push_metadata_issues(raw, model.metadata.as_slice(), path);
    let ghost m1 = issue_views(raw@);
    if !same_text(model.format_version.as_str(), "2.0.0") {
        push_issue(
            raw,
            ValidationCode::UnsupportedFormatVersion,
            path,
            String::from_str("LinkModel 2.0 namespace requires formatVersion 2.0.0"),
        );
    } else {
        assert(m1 + Seq::<IssueView>::empty() =~= m1);
    }
    let empty: Vec<String> = Vec::new();
    let declared: &[String] = match first_reference_index(container.link_models.as_slice(), path) {
        Some(index) => {
            proof { lemma_first_reference_at_bound(container.link_models@, path@); }
            container.link_models[index].linked_models.as_slice()
        },
        None => empty.as_slice(),
    };
    assert(texts(declared@) =~= declared_links(container.link_models@, path@));
    let ghost m2 = issue_views(raw@);
    if model.links.len() == 0 {
        push_issue(
            raw,
            ValidationCode::LinkModelHasNoLinks,
            path,
            String::from_str("LinkModel requires at least one Link"),
        );
    } else {
        assert(m2 + Seq::<IssueView>::empty() =~= m2);
    }
    let ghost m3 = issue_views(raw@);
    let mut i: usize = 0;
    assert(m3 + Seq::<IssueView>::empty() =~= m3);
    while i < model.links.len()
        invariant
            i <= model.links@.len(),
            texts(declared@) == declared_links(container.link_models@, path@),
            issue_views(raw@) == m3 + links_issues_upto(
                container.models@,
                texts(declared@),
                path@,
                model.links@,
                i as int,
            ),
        decreases model.links@.len() - i,
    {
        push_link_issues(raw, container.models.as_slice(), declared, path, model.links.as_slice(), i);
        proof {
            assert(issue_views(raw@) =~= m3 + links_issues_upto(
                container.models@,
                texts(declared@),
                path@,
                model.links@,
                i + 1,
            ));
        }
        i = i + 1;
    }
    proof {
        assert(issue_views(raw@) =~= before + document_issues(*container, *doc));
    }
}

#[verifier::spinoff_prover]
#[verifier::rlimit(30)]
fn push_container_issues(raw: &mut Vec<ValidationIssue>, container: &MultiModel, entries: &[ArchiveEntry])
    ensures
        issue_views(final(raw)@) == issue_views(old(raw)@) + container_issues(*container, entry_paths(entries@)),
{
    let ghost before = issue_views(raw@);
    let meta = &container.metadata;
    push_metadata_issues(raw, meta.metadata.as_slice(), "MultiModel.xml/MetaData");
    let ghost m1 = issue_views(raw@);
    if !same_text(meta.format_version.as_str(), "2.0.0") {
        push_issue(
            raw,
            ValidationCode::UnsupportedFormatVersion,
            "MultiModel.xml@formatVersion",
            String::from_str("MMC 2.0 namespace requires formatVersion 2.0.0"),
        );
    } else {
        assert(m1 + Seq::<IssueView>::empty() =~= m1);
    }
    let ghost m2 = issue_views(raw@);
    let domain_invalid = match &meta.mm_domain {
        Some(domain) => !iri_reference_ok(domain.as_str()),
        None => false,
    };
    if domain_invalid {
        push_issue(
            raw,
            ValidationCode::InvalidResourceLocation,
            "MultiModel.xml@mmDomain",
            String::from_str("mmDomain is not a valid IRI reference"),
        );
    } else {
        assert(m2 + Seq::<IssueView>::empty() =~= m2);
    }
    let ghost m3 = issue_views(raw@);
    if container.models.len() == 0 {
        push_issue(
            raw,
            ValidationCode::TooFewApplicationModels,
            "MultiModel.xml",
            String::from_str("MMC 2.0 requires at least one ApplicationModel declaration"),
        );
    } else {
        assert(m3 + Seq::<IssueView>::empty() =~= m3);
    }
    push_models_issues(raw, container.models.as_slice(), entries);
    push_references_issues(raw, container.link_models.as_slice(), container.models.as_slice(), entries);
    proof {
        assert(issue_views(raw@) =~= before + container_issues(*container, entry_paths(entries@)));
    }
}

/// Collects every finding about an archive's container, entries and parsed
/// LinkModel documents, in traversal order.
pub fn collect_findings(
    container: &MultiModel,
    entries: &[ArchiveEntry],
    docs: &[LinkModelDocument],
) -> (raw: Vec<ValidationIssue>)
    ensures
        issue_views(raw@) == archive_findings(*container, entries@, docs@),
{
    let mut raw: Vec<ValidationIssue> = Vec::new();
    assert(issue_views(raw@) =~= Seq::<IssueView>::empty());
    push_container_issues(&mut raw, container, entries);
    let ghost m1 = issue_views(raw@);
    let mut d: usize = 0;
    assert(m1 + Seq::<IssueView>::empty() =~= m1);
    while d < docs.len()
        invariant
            d <= docs@.len(),
            issue_views(raw@) == m1 + documents_issues_upto(*container, docs@, d as int),
        decreases docs@.len() - d,
    {
        push_document_issues(&mut raw, container, &docs[d]);
        proof {
            assert(issue_views(raw@) =~= m1 + documents_issues_upto(*container, docs@, d + 1));
        }
        d = d + 1;
    }
    proof {
        assert(issue_views(raw@) =~= archive_findings(*container, entries@, docs@));
    }
    raw
}

} // verus!
