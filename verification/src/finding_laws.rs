//! What the report says of links and LinkModel references that do not name
//! enough distinct application models.

use vstd::prelude::*;

use crate::conformance::{
    archive_findings, container_issues, model_issues, models_issues_upto, representation_issues,
    representations_issues_upto, resource_issues, resources_issues_upto, declared_links, document_issues, documents_issues_upto, finding_if, indexed,
    link_issues, linked_models_issues_upto, links_issues_upto, location_issues, metadata_issues, reference_issues,
    references_issues_upto, relata_issues_upto, relatum_issues, relatum_models, relatum_reference_issues,
    rates_issues_upto, resource_reference_issues, texts, fewer_than_two_distinct,
};
use crate::archive::{entry_paths, ArchiveEntry, MmcArchive};
use crate::model::{ApplicationModel, Link, ModelData, LinkModelDocument, LinkModelReference, MetadataEntry, MultiModel, Relatum};
use crate::validation::{issue, IssueView, ValidationCode};

verus! {

broadcast use vstd::seq_lib::group_seq_properties;

/// No finding of `s` has the code `c`.
pub open spec fn no_code(s: Seq<IssueView>, c: ValidationCode) -> bool {
    forall|i: int| 0 <= i < s.len() ==> (#[trigger] s[i]).code != c
}

/// Some finding of `s` has the code `c`.
pub open spec fn has_code(s: Seq<IssueView>, c: ValidationCode) -> bool {
    exists|i: int| 0 <= i < s.len() && (#[trigger] s[i]).code == c
}

proof fn lemma_no_code_append(a: Seq<IssueView>, b: Seq<IssueView>, c: ValidationCode)
    requires
        no_code(a, c),
        no_code(b, c),
    ensures
        no_code(a + b, c),
{
    assert forall|i: int| 0 <= i < (a + b).len() implies (#[trigger] (a + b)[i]).code != c by {
        if i < a.len() {
            assert((a + b)[i] == a[i]);
        } else {
            assert((a + b)[i] == b[i - a.len()]);
        }
    }
}

proof fn lemma_finding_if_code(cond: bool, code: ValidationCode, at: Seq<char>, m: Seq<char>, c: ValidationCode)
    requires
        code != c,
    ensures
        no_code(finding_if(cond, code, at, m), c),
{
}

proof fn lemma_metadata_codes(entries: Seq<MetadataEntry>, at: Seq<char>, c: ValidationCode)
    requires
        c != ValidationCode::DuplicateMetadataKey,
    ensures
        no_code(metadata_issues(entries, at), c),
    decreases entries.len(),
{
    if entries.len() > 0 {
        let earlier = entries.drop_last();
        let last = entries.last();
        lemma_metadata_codes(earlier, at, c);
        let f = finding_if(
            exists|j: int| 0 <= j < earlier.len() && crate::conformance::same_metadata_key(earlier[j], last),
            ValidationCode::DuplicateMetadataKey,
            at,
            "duplicate metadata key "@ + crate::conformance::debug_option_text(crate::conformance::opt_text(last.category))
                + "/"@ + last.key@,
        );
        lemma_no_code_append(metadata_issues(earlier, at), f, c);
    }
}

/// The codes a relatum's findings can have.
pub open spec fn relatum_code(c: ValidationCode) -> bool {
    ||| c == ValidationCode::DuplicateMetadataKey
    ||| c == ValidationCode::UnknownModelReference
    ||| c == ValidationCode::UnknownRepresentationReference
    ||| c == ValidationCode::UnknownResourceReference
    ||| c == ValidationCode::MissingRepresentationDisambiguator
    ||| c == ValidationCode::MissingResourceDisambiguator
    ||| c == ValidationCode::RateTargetsUnknownModel
}

proof fn lemma_rates_codes(relatum: Relatum, ids: Seq<Seq<char>>, at: Seq<char>, n: int, c: ValidationCode)
    requires
        !relatum_code(c),
    ensures
        no_code(rates_issues_upto(relatum, ids, at, n), c),
    decreases n,
{
    if n > 0 {
        lemma_rates_codes(relatum, ids, at, n - 1, c);
        let target = relatum.rates@[n - 1].target_model@;
        lemma_no_code_append(
            rates_issues_upto(relatum, ids, at, n - 1),
            finding_if(!ids.contains(target), ValidationCode::RateTargetsUnknownModel, at, "Rate targets undeclared model "@ + target),
            c,
        );
    }
}

proof fn lemma_relata_codes(
    models: Seq<ApplicationModel>,
    declared: Seq<Seq<char>>,
    link: Link,
    at: Seq<char>,
    n: int,
    c: ValidationCode,
)
    requires
        !relatum_code(c),
    ensures
        no_code(relata_issues_upto(models, declared, link, at, n), c),
    decreases n,
{
    if n > 0 {
        lemma_relata_codes(models, declared, link, at, n - 1, c);
        let k = n - 1;
        let relatum = link.relata@[k];
        let here = indexed(at + "/Relatum["@, k);
        let ids = crate::conformance::model_ids(models);
        lemma_metadata_codes(relatum.metadata@, here, c);
        if ids.contains(relatum.model_id@) {
            let m = models[crate::text::first_index_of(ids, relatum.model_id@)->0];
            let a = finding_if(
                !declared.contains(relatum.model_id@),
                ValidationCode::UnknownModelReference,
                here,
                "Relatum model "@ + relatum.model_id@ + " is not declared by the containing LinkModel"@,
            );
            let b = relatum_reference_issues(m, relatum, here);
            assert(no_code(b, c)) by {
                let reps = m.representations@;
                match relatum.format_id {
                    Some(id) => match crate::text::first_index_of(crate::conformance::representation_ids(reps), id@) {
                        Some(j) => {
                            assert(b == resource_reference_issues(reps[j], relatum, here));
                        },
                        None => {},
                    },
                    None => {},
                }
            }
            lemma_rates_codes(relatum, ids, here, relatum.rates@.len() as int, c);
            lemma_no_code_append(a, b, c);
            lemma_no_code_append(a + b, rates_issues_upto(relatum, ids, here, relatum.rates@.len() as int), c);
            lemma_no_code_append(metadata_issues(relatum.metadata@, here), a + b + rates_issues_upto(
                relatum,
                ids,
                here,
                relatum.rates@.len() as int,
            ), c);
            assert(relatum_issues(models, declared, link, at, k) == metadata_issues(relatum.metadata@, here) + (a + b
                + rates_issues_upto(relatum, ids, here, relatum.rates@.len() as int)));
        } else {
            lemma_no_code_append(
                metadata_issues(relatum.metadata@, here),
                seq![issue(ValidationCode::UnknownModelReference, here, "Relatum references undeclared model "@ + relatum.model_id@)],
                c,
            );
        }
        lemma_no_code_append(
            relata_issues_upto(models, declared, link, at, n - 1),
            relatum_issues(models, declared, link, at, k),
            c,
        );
    }
}

/// A sequence has fewer than two distinct values exactly when the set of
/// its values has fewer than two elements.
pub proof fn lemma_two_distinct_set(s: Seq<Seq<char>>)
    ensures
        fewer_than_two_distinct(s) <==> s.to_set().len() < 2,
{
    if fewer_than_two_distinct(s) {
        if s.len() == 0 {
            assert(s.to_set() =~= Set::<Seq<char>>::empty());
        } else {
            assert(s.to_set() =~= Set::<Seq<char>>::empty().insert(s[0]));
        }
    } else {
        let (i, j) = choose|i: int, j: int| 0 <= i < s.len() && 0 <= j < s.len() && s[i] != s[j];
        let two = Set::<Seq<char>>::empty().insert(s[i]).insert(s[j]);
        assert(two.len() == 2);
        assert(two.subset_of(s.to_set()));
        vstd::set_lib::lemma_len_subset(two, s.to_set());
    }
}

/// Links whose relata name fewer than two distinct application models are
/// reported, whatever the number of relata: link `i`'s findings hold one
/// with `LinkHasTooFewModels` exactly when the set of its relata's model ids
/// has fewer than two elements, and then it is the finding at that link.
pub proof fn law_link_too_few_models(
    models: Seq<ApplicationModel>,
    declared: Seq<Seq<char>>,
    path: Seq<char>,
    links: Seq<Link>,
    i: int,
)
    requires
        0 <= i < links.len(),
    ensures
        has_code(link_issues(models, declared, path, links, i), ValidationCode::LinkHasTooFewModels)
            <==> relatum_models(links[i].relata@).to_set().len() < 2,
        relatum_models(links[i].relata@).to_set().len() < 2 ==> link_issues(models, declared, path, links, i).contains(
            issue(
                ValidationCode::LinkHasTooFewModels,
                indexed(path + ":Link["@, i),
                "Link requires relata from at least two application models"@,
            ),
        ),
{
    let link = links[i];
    let here = indexed(path + ":Link["@, i);
    let c = ValidationCode::LinkHasTooFewModels;
    let a = metadata_issues(link.metadata@, here);
    let b = finding_if(link.relata@.len() < 2, ValidationCode::LinkHasTooFewRelata, here, "Link requires at least two Relatum elements"@);
    let f = finding_if(
        fewer_than_two_distinct(relatum_models(link.relata@)),
        c,
        here,
        "Link requires relata from at least two application models"@,
    );
    let r = relata_issues_upto(models, declared, link, here, link.relata@.len() as int);
    let all = link_issues(models, declared, path, links, i);
    assert(all == a + b + f + r);
    lemma_two_distinct_set(relatum_models(link.relata@));
    lemma_metadata_codes(link.metadata@, here, c);
    lemma_relata_codes(models, declared, link, here, link.relata@.len() as int, c);
    lemma_no_code_append(a, b, c);
    if fewer_than_two_distinct(relatum_models(link.relata@)) {
        assert(all[(a.len() + b.len()) as int] == f[0]);
    } else {
        lemma_no_code_append(a + b, f, c);
        lemma_no_code_append(a + b + f, r, c);
    }
}

/// LinkModel references that list fewer than two distinct linked models are
/// reported: reference `i`'s findings hold one with `TooFewLinkedModels`
/// exactly when the set of its LinkedModel ids has fewer than two elements
/// (one id, the same id twice, or none), and then it is the finding at that
/// reference.
pub proof fn law_reference_too_few_linked_models(
    refs: Seq<LinkModelReference>,
    i: int,
    models: Seq<ApplicationModel>,
    paths: Seq<Seq<char>>,
)
    requires
        0 <= i < refs.len(),
    ensures
        has_code(reference_issues(refs, i, models, paths), ValidationCode::TooFewLinkedModels)
            <==> texts(refs[i].linked_models@).to_set().len() < 2,
        texts(refs[i].linked_models@).to_set().len() < 2 ==> reference_issues(refs, i, models, paths).contains(
            issue(
                ValidationCode::TooFewLinkedModels,
                indexed("LinkModel["@, i),
                "LinkModel requires at least two LinkedModel references"@,
            ),
        ),
{
    let reference = refs[i];
    let here = indexed("LinkModel["@, i);
    let linked = texts(reference.linked_models@);
    let c = ValidationCode::TooFewLinkedModels;
    let a = metadata_issues(reference.metadata@, here);
    let b = finding_if(
        exists|j: int| 0 <= j < i && crate::conformance::same_location(refs[j].location, reference.location),
        ValidationCode::DuplicateLinkModelLocation,
        here,
        "duplicate LinkModel location"@,
    );
    let l = location_issues(reference.location, here, ValidationCode::MissingEmbeddedLinkModel, paths);
    let f = finding_if(fewer_than_two_distinct(linked), c, here, "LinkModel requires at least two LinkedModel references"@);
    let u = linked_models_issues_upto(linked, crate::conformance::model_ids(models), here, linked.len() as int);
    let all = reference_issues(refs, i, models, paths);
    assert(all == a + b + l + f + u);
    lemma_two_distinct_set(linked);
    lemma_metadata_codes(reference.metadata@, here, c);
    lemma_linked_codes(linked, crate::conformance::model_ids(models), here, linked.len() as int);
    lemma_no_code_append(a, b, c);
    lemma_no_code_append(a + b, l, c);
    if fewer_than_two_distinct(linked) {
        assert(all[(a.len() + b.len() + l.len()) as int] == f[0]);
    } else {
        lemma_no_code_append(a + b + l, f, c);
        lemma_no_code_append(a + b + l + f, u, c);
    }
}

proof fn lemma_linked_codes(linked: Seq<Seq<char>>, declared: Seq<Seq<char>>, at: Seq<char>, n: int)
    ensures
        no_code(linked_models_issues_upto(linked, declared, at, n), ValidationCode::TooFewLinkedModels),
    decreases n,
{
    if n > 0 {
        lemma_linked_codes(linked, declared, at, n - 1);
        lemma_no_code_append(
            linked_models_issues_upto(linked, declared, at, n - 1),
            finding_if(
                !declared.contains(linked[n - 1]),
                ValidationCode::UnknownModelReference,
                at,
                "LinkedModel references undeclared model "@ + linked[n - 1],
            ),
            ValidationCode::TooFewLinkedModels,
        );
    }
}


proof fn lemma_in_left(a: Seq<IssueView>, b: Seq<IssueView>, x: IssueView)
    requires
        a.contains(x),
    ensures
        (a + b).contains(x),
{
    let w = choose|w: int| 0 <= w < a.len() && a[w] == x;
    assert((a + b)[w] == x);
}

proof fn lemma_in_right(a: Seq<IssueView>, b: Seq<IssueView>, x: IssueView)
    requires
        b.contains(x),
    ensures
        (a + b).contains(x),
{
    let w = choose|w: int| 0 <= w < b.len() && b[w] == x;
    assert((a + b)[a.len() + w] == x);
}

proof fn lemma_in_references(
    refs: Seq<LinkModelReference>,
    n: int,
    i: int,
    models: Seq<ApplicationModel>,
    paths: Seq<Seq<char>>,
    x: IssueView,
)
    requires
        0 <= i < n,
        reference_issues(refs, i, models, paths).contains(x),
    ensures
        references_issues_upto(refs, n, models, paths).contains(x),
    decreases n,
{
    if i < n - 1 {
        lemma_in_references(refs, n - 1, i, models, paths, x);
        lemma_in_left(references_issues_upto(refs, n - 1, models, paths), reference_issues(refs, n - 1, models, paths), x);
    } else {
        lemma_in_right(references_issues_upto(refs, n - 1, models, paths), reference_issues(refs, n - 1, models, paths), x);
    }
}

proof fn lemma_in_links(
    models: Seq<ApplicationModel>,
    declared: Seq<Seq<char>>,
    path: Seq<char>,
    links: Seq<Link>,
    n: int,
    i: int,
    x: IssueView,
)
    requires
        0 <= i < n,
        link_issues(models, declared, path, links, i).contains(x),
    ensures
        links_issues_upto(models, declared, path, links, n).contains(x),
    decreases n,
{
    if i < n - 1 {
        lemma_in_links(models, declared, path, links, n - 1, i, x);
        lemma_in_left(
            links_issues_upto(models, declared, path, links, n - 1),
            link_issues(models, declared, path, links, n - 1),
            x,
        );
    } else {
        lemma_in_right(
            links_issues_upto(models, declared, path, links, n - 1),
            link_issues(models, declared, path, links, n - 1),
            x,
        );
    }
}

proof fn lemma_in_documents(container: MultiModel, docs: Seq<LinkModelDocument>, n: int, k: int, x: IssueView)
    requires
        0 <= k < n,
        document_issues(container, docs[k]).contains(x),
    ensures
        documents_issues_upto(container, docs, n).contains(x),
    decreases n,
{
    if k < n - 1 {
        lemma_in_documents(container, docs, n - 1, k, x);
        lemma_in_left(documents_issues_upto(container, docs, n - 1), document_issues(container, docs[n - 1]), x);
    } else {
        lemma_in_right(documents_issues_upto(container, docs, n - 1), document_issues(container, docs[n - 1]), x);
    }
}

/// A report holding the findings of an archive (as `MmcArchive::validate`
/// returns them, in any order) reports every link of a parsed LinkModel
/// whose relata name fewer than two distinct application models, and so is
/// not valid.
pub proof fn law_report_link_too_few_models(a: MmcArchive, report: Seq<IssueView>, k: int, i: int)
    requires
        report.to_multiset() == archive_findings(a.spec_container(), a.spec_entries(), a.spec_link_models()).to_multiset(),
        0 <= k < a.spec_link_models().len(),
        0 <= i < a.spec_link_models()[k].spec_model().links@.len(),
        relatum_models(a.spec_link_models()[k].spec_model().links@[i].relata@).to_set().len() < 2,
    ensures
        report.contains(
            issue(
                ValidationCode::LinkHasTooFewModels,
                indexed(a.spec_link_models()[k].spec_path() + ":Link["@, i),
                "Link requires relata from at least two application models"@,
            ),
        ),
        report.len() > 0,
{
    let c = a.spec_container();
    let docs = a.spec_link_models();
    let doc = docs[k];
    let path = doc.spec_path();
    let model = doc.spec_model();
    let links = model.links@;
    let declared = declared_links(c.link_models@, path);
    let x = issue(
        ValidationCode::LinkHasTooFewModels,
        indexed(path + ":Link["@, i),
        "Link requires relata from at least two application models"@,
    );
    law_link_too_few_models(c.models@, declared, path, links, i);
    lemma_in_links(c.models@, declared, path, links, links.len() as int, i, x);
    let pre = metadata_issues(model.metadata@, path) + finding_if(
        model.format_version@ != "2.0.0"@,
        ValidationCode::UnsupportedFormatVersion,
        path,
        "LinkModel 2.0 namespace requires formatVersion 2.0.0"@,
    ) + finding_if(
        links.len() == 0,
        ValidationCode::LinkModelHasNoLinks,
        path,
        "LinkModel requires at least one Link"@,
    );
    assert(document_issues(c, doc) == pre + links_issues_upto(c.models@, declared, path, links, links.len() as int));
    lemma_in_right(pre, links_issues_upto(c.models@, declared, path, links, links.len() as int), x);
    lemma_in_documents(c, docs, docs.len() as int, k, x);
    let all = archive_findings(c, a.spec_entries(), docs);
    lemma_in_right(container_issues(c, entry_paths(a.spec_entries())), documents_issues_upto(c, docs, docs.len() as int), x);
    assert(all.to_multiset().count(x) > 0);
    assert(report.to_multiset().count(x) > 0);
}

/// A report holding the findings of an archive reports every LinkModel
/// reference of its container that lists fewer than two distinct linked
/// models, and so is not valid.
pub proof fn law_report_reference_too_few_linked_models(a: MmcArchive, report: Seq<IssueView>, i: int)
    requires
        report.to_multiset() == archive_findings(a.spec_container(), a.spec_entries(), a.spec_link_models()).to_multiset(),
        0 <= i < a.spec_container().link_models@.len(),
        texts(a.spec_container().link_models@[i].linked_models@).to_set().len() < 2,
    ensures
        report.contains(
            issue(
                ValidationCode::TooFewLinkedModels,
                indexed("LinkModel["@, i),
                "LinkModel requires at least two LinkedModel references"@,
            ),
        ),
        report.len() > 0,
{
    let c = a.spec_container();
    let refs = c.link_models@;
    let paths = entry_paths(a.spec_entries());
    let x = issue(
        ValidationCode::TooFewLinkedModels,
        indexed("LinkModel["@, i),
        "LinkModel requires at least two LinkedModel references"@,
    );
    law_reference_too_few_linked_models(refs, i, c.models@, paths);
    lemma_in_references(refs, refs.len() as int, i, c.models@, paths, x);
    let meta = c.metadata;
    let pre = metadata_issues(meta.metadata@, "MultiModel.xml/MetaData"@) + finding_if(
        meta.format_version@ != "2.0.0"@,
        ValidationCode::UnsupportedFormatVersion,
        "MultiModel.xml@formatVersion"@,
        "MMC 2.0 namespace requires formatVersion 2.0.0"@,
    ) + finding_if(
        meta.mm_domain matches Some(d) && !crate::conformance::is_iri_reference(d@),
        ValidationCode::InvalidResourceLocation,
        "MultiModel.xml@mmDomain"@,
        "mmDomain is not a valid IRI reference"@,
    ) + finding_if(
        c.models@.len() == 0,
        ValidationCode::TooFewApplicationModels,
        "MultiModel.xml"@,
        "MMC 2.0 requires at least one ApplicationModel declaration"@,
    ) + crate::conformance::models_issues_upto(c.models@, c.models@.len() as int, paths);
    assert(container_issues(c, paths) == pre + references_issues_upto(refs, refs.len() as int, c.models@, paths));
    lemma_in_right(pre, references_issues_upto(refs, refs.len() as int, c.models@, paths), x);
    let docs = a.spec_link_models();
    let all = archive_findings(c, a.spec_entries(), docs);
    lemma_in_left(container_issues(c, paths), documents_issues_upto(c, docs, docs.len() as int), x);
    assert(all.to_multiset().count(x) > 0);
    assert(report.to_multiset().count(x) > 0);
}


/// The two codes about too few distinct models.
pub open spec fn model_count_code(c: ValidationCode) -> bool {
    c == ValidationCode::LinkHasTooFewModels || c == ValidationCode::TooFewLinkedModels
}

proof fn lemma_resources_codes(data: ModelData, at: Seq<char>, n: int, paths: Seq<Seq<char>>, c: ValidationCode)
    requires
        model_count_code(c),
    ensures
        no_code(resources_issues_upto(data, at, n, paths), c),
    decreases n,
{
    if n > 0 {
        lemma_resources_codes(data, at, n - 1, paths, c);
        let k = n - 1;
        let resource = data.resources@[k];
        let here = indexed(at + "/DataRessource["@, k);
        lemma_metadata_codes(resource.metadata@, here, c);
        let d = finding_if(
            crate::conformance::resource_ids(data.resources@).take(k).contains(resource.id@),
            ValidationCode::DuplicateResourceId,
            here,
            "duplicate resource id "@ + resource.id@ + " in representation "@ + data.id@,
        );
        let l = location_issues(resource.location, here, ValidationCode::MissingEmbeddedResource, paths);
        lemma_no_code_append(metadata_issues(resource.metadata@, here), d, c);
        lemma_no_code_append(metadata_issues(resource.metadata@, here) + d, l, c);
        assert(resource_issues(data, at, k, paths) == metadata_issues(resource.metadata@, here) + d + l);
        lemma_no_code_append(resources_issues_upto(data, at, n - 1, paths), resource_issues(data, at, k, paths), c);
    }
}

proof fn lemma_representations_codes(
    model: ApplicationModel,
    at: Seq<char>,
    n: int,
    paths: Seq<Seq<char>>,
    c: ValidationCode,
)
    requires
        model_count_code(c),
    ensures
        no_code(representations_issues_upto(model, at, n, paths), c),
    decreases n,
{
    if n > 0 {
        lemma_representations_codes(model, at, n - 1, paths, c);
        let j = n - 1;
        let data = model.representations@[j];
        let here = indexed(at + "/ModelData["@, j);
        lemma_metadata_codes(data.metadata@, here, c);
        let d = finding_if(
            crate::conformance::representation_ids(model.representations@).take(j).contains(data.id@),
            ValidationCode::DuplicateRepresentationId,
            here,
            "duplicate representation id "@ + data.id@ + " in model "@ + model.id@,
        );
        let e = finding_if(
            data.resources@.len() == 0,
            ValidationCode::ModelDataMissingResource,
            here,
            "ModelData requires at least one DataRessource"@,
        );
        let r = resources_issues_upto(data, here, data.resources@.len() as int, paths);
        lemma_resources_codes(data, here, data.resources@.len() as int, paths, c);
        let m = metadata_issues(data.metadata@, here);
        lemma_no_code_append(m, d, c);
        lemma_no_code_append(m + d, e, c);
        lemma_no_code_append(m + d + e, r, c);
        assert(representation_issues(model, at, j, paths) == m + d + e + r);
        lemma_no_code_append(
            representations_issues_upto(model, at, n - 1, paths),
            representation_issues(model, at, j, paths),
            c,
        );
    }
}

proof fn lemma_models_codes(models: Seq<ApplicationModel>, n: int, paths: Seq<Seq<char>>, c: ValidationCode)
    requires
        model_count_code(c),
    ensures
        no_code(models_issues_upto(models, n, paths), c),
    decreases n,
{
    if n > 0 {
        lemma_models_codes(models, n - 1, paths, c);
        let i = n - 1;
        let model = models[i];
        let here = indexed("ApplicationModel["@, i);
        let m = metadata_issues(model.metadata@, here);
        lemma_metadata_codes(model.metadata@, here, c);
        let d = finding_if(
            crate::conformance::model_ids(models).take(i).contains(model.id@),
            ValidationCode::DuplicateModelId,
            here,
            "duplicate application-model id "@ + model.id@,
        );
        let e = finding_if(
            model.representations@.len() == 0,
            ValidationCode::ApplicationModelMissingRepresentation,
            here,
            "ApplicationModel requires at least one ModelData"@,
        );
        let r = representations_issues_upto(model, here, model.representations@.len() as int, paths);
        lemma_representations_codes(model, here, model.representations@.len() as int, paths, c);
        lemma_no_code_append(m, d, c);
        lemma_no_code_append(m + d, e, c);
        lemma_no_code_append(m + d + e, r, c);
        assert(model_issues(models, i, paths) == m + d + e + r);
        lemma_no_code_append(models_issues_upto(models, n - 1, paths), model_issues(models, i, paths), c);
    }
}

proof fn lemma_in_sum(a: Seq<IssueView>, b: Seq<IssueView>, x: IssueView)
    requires
        (a + b).contains(x),
    ensures
        a.contains(x) || b.contains(x),
{
    let w = choose|w: int| 0 <= w < (a + b).len() && (a + b)[w] == x;
    if w < a.len() {
        assert(a[w] == x);
    } else {
        assert(b[w - a.len()] == x);
    }
}

proof fn lemma_no_code_member(s: Seq<IssueView>, x: IssueView, c: ValidationCode)
    requires
        no_code(s, c),
        s.contains(x),
    ensures
        x.code != c,
{
}

/// The container's findings before those of its LinkModel references.
pub open spec fn container_head_issues(container: MultiModel, paths: Seq<Seq<char>>) -> Seq<IssueView> {
    let meta = container.metadata;
    metadata_issues(meta.metadata@, "MultiModel.xml/MetaData"@) + finding_if(
        meta.format_version@ != "2.0.0"@,
        ValidationCode::UnsupportedFormatVersion,
        "MultiModel.xml@formatVersion"@,
        "MMC 2.0 namespace requires formatVersion 2.0.0"@,
    ) + finding_if(
        meta.mm_domain matches Some(d) && !crate::conformance::is_iri_reference(d@),
        ValidationCode::InvalidResourceLocation,
        "MultiModel.xml@mmDomain"@,
        "mmDomain is not a valid IRI reference"@,
    ) + finding_if(
        container.models@.len() == 0,
        ValidationCode::TooFewApplicationModels,
        "MultiModel.xml"@,
        "MMC 2.0 requires at least one ApplicationModel declaration"@,
    ) + models_issues_upto(container.models@, container.models@.len() as int, paths)
}

proof fn lemma_container_head_codes(container: MultiModel, paths: Seq<Seq<char>>, c: ValidationCode)
    requires
        model_count_code(c),
    ensures
        no_code(container_head_issues(container, paths), c),
        container_issues(container, paths) == container_head_issues(container, paths) + references_issues_upto(
            container.link_models@,
            container.link_models@.len() as int,
            container.models@,
            paths,
        ),
{
    let meta = container.metadata;
    let m = metadata_issues(meta.metadata@, "MultiModel.xml/MetaData"@);
    lemma_metadata_codes(meta.metadata@, "MultiModel.xml/MetaData"@, c);
    let f1 = finding_if(
        meta.format_version@ != "2.0.0"@,
        ValidationCode::UnsupportedFormatVersion,
        "MultiModel.xml@formatVersion"@,
        "MMC 2.0 namespace requires formatVersion 2.0.0"@,
    );
    let f2 = finding_if(
        meta.mm_domain matches Some(d) && !crate::conformance::is_iri_reference(d@),
        ValidationCode::InvalidResourceLocation,
        "MultiModel.xml@mmDomain"@,
        "mmDomain is not a valid IRI reference"@,
    );
    let f3 = finding_if(
        container.models@.len() == 0,
        ValidationCode::TooFewApplicationModels,
        "MultiModel.xml"@,
        "MMC 2.0 requires at least one ApplicationModel declaration"@,
    );
    let r = models_issues_upto(container.models@, container.models@.len() as int, paths);
    lemma_models_codes(container.models@, container.models@.len() as int, paths, c);
    lemma_no_code_append(m, f1, c);
    lemma_no_code_append(m + f1, f2, c);
    lemma_no_code_append(m + f1 + f2, f3, c);
    lemma_no_code_append(m + f1 + f2 + f3, r, c);
}

proof fn lemma_references_no_link_models_code(
    refs: Seq<LinkModelReference>,
    n: int,
    models: Seq<ApplicationModel>,
    paths: Seq<Seq<char>>,
)
    requires
        n <= refs.len(),
    ensures
        no_code(references_issues_upto(refs, n, models, paths), ValidationCode::LinkHasTooFewModels),
    decreases n,
{
    if n > 0 {
        lemma_references_no_link_models_code(refs, n - 1, models, paths);
        let i = n - 1;
        let c = ValidationCode::LinkHasTooFewModels;
        let reference = refs[i];
        let here = indexed("LinkModel["@, i);
        let linked = texts(reference.linked_models@);
        let a = metadata_issues(reference.metadata@, here);
        lemma_metadata_codes(reference.metadata@, here, c);
        let b = finding_if(
            exists|j: int| 0 <= j < i && crate::conformance::same_location(refs[j].location, reference.location),
            ValidationCode::DuplicateLinkModelLocation,
            here,
            "duplicate LinkModel location"@,
        );
        let l = location_issues(reference.location, here, ValidationCode::MissingEmbeddedLinkModel, paths);
        let f = finding_if(
            fewer_than_two_distinct(linked),
            ValidationCode::TooFewLinkedModels,
            here,
            "LinkModel requires at least two LinkedModel references"@,
        );
        let u = linked_models_issues_upto(linked, crate::conformance::model_ids(models), here, linked.len() as int);
        lemma_linked_codes_any(linked, crate::conformance::model_ids(models), here, linked.len() as int, c);
        lemma_no_code_append(a, b, c);
        lemma_no_code_append(a + b, l, c);
        lemma_no_code_append(a + b + l, f, c);
        lemma_no_code_append(a + b + l + f, u, c);
        assert(reference_issues(refs, i, models, paths) == a + b + l + f + u);
        lemma_no_code_append(references_issues_upto(refs, n - 1, models, paths), reference_issues(refs, i, models, paths), c);
    }
}

proof fn lemma_linked_codes_any(linked: Seq<Seq<char>>, declared: Seq<Seq<char>>, at: Seq<char>, n: int, c: ValidationCode)
    requires
        c != ValidationCode::UnknownModelReference,
    ensures
        no_code(linked_models_issues_upto(linked, declared, at, n), c),
    decreases n,
{
    if n > 0 {
        lemma_linked_codes_any(linked, declared, at, n - 1, c);
        lemma_no_code_append(
            linked_models_issues_upto(linked, declared, at, n - 1),
            finding_if(
                !declared.contains(linked[n - 1]),
                ValidationCode::UnknownModelReference,
                at,
                "LinkedModel references undeclared model "@ + linked[n - 1],
            ),
            c,
        );
    }
}

proof fn lemma_out_of_references(
    refs: Seq<LinkModelReference>,
    n: int,
    models: Seq<ApplicationModel>,
    paths: Seq<Seq<char>>,
    x: IssueView,
)
    requires
        references_issues_upto(refs, n, models, paths).contains(x),
    ensures
        exists|i: int| 0 <= i < n && #[trigger] reference_issues(refs, i, models, paths).contains(x),
    decreases n,
{
    if n > 0 {
        lemma_in_sum(references_issues_upto(refs, n - 1, models, paths), reference_issues(refs, n - 1, models, paths), x);
        if references_issues_upto(refs, n - 1, models, paths).contains(x) {
            lemma_out_of_references(refs, n - 1, models, paths, x);
        }
    }
}

proof fn lemma_out_of_links(
    models: Seq<ApplicationModel>,
    declared: Seq<Seq<char>>,
    path: Seq<char>,
    links: Seq<Link>,
    n: int,
    x: IssueView,
)
    requires
        links_issues_upto(models, declared, path, links, n).contains(x),
    ensures
        exists|i: int| 0 <= i < n && #[trigger] link_issues(models, declared, path, links, i).contains(x),
    decreases n,
{
    if n > 0 {
        lemma_in_sum(
            links_issues_upto(models, declared, path, links, n - 1),
            link_issues(models, declared, path, links, n - 1),
            x,
        );
        if links_issues_upto(models, declared, path, links, n - 1).contains(x) {
            lemma_out_of_links(models, declared, path, links, n - 1, x);
        }
    }
}

proof fn lemma_out_of_documents(container: MultiModel, docs: Seq<LinkModelDocument>, n: int, x: IssueView)
    requires
        documents_issues_upto(container, docs, n).contains(x),
    ensures
        exists|k: int| 0 <= k < n && #[trigger] document_issues(container, docs[k]).contains(x),
    decreases n,
{
    if n > 0 {
        lemma_in_sum(documents_issues_upto(container, docs, n - 1), document_issues(container, docs[n - 1]), x);
        if documents_issues_upto(container, docs, n - 1).contains(x) {
            lemma_out_of_documents(container, docs, n - 1, x);
        }
    }
}


/// The findings of a link: its metadata, its relata count, its model count,
/// then its relata.
proof fn lemma_link_parts(models: Seq<ApplicationModel>, declared: Seq<Seq<char>>, path: Seq<char>, links: Seq<Link>, i: int)
    requires
        0 <= i < links.len(),
    ensures
        ({
            let link = links[i];
            let here = indexed(path + ":Link["@, i);
            let a = metadata_issues(link.metadata@, here) + finding_if(
                link.relata@.len() < 2,
                ValidationCode::LinkHasTooFewRelata,
                here,
                "Link requires at least two Relatum elements"@,
            );
            let f = finding_if(
                fewer_than_two_distinct(relatum_models(link.relata@)),
                ValidationCode::LinkHasTooFewModels,
                here,
                "Link requires relata from at least two application models"@,
            );
            let r = relata_issues_upto(models, declared, link, here, link.relata@.len() as int);
            &&& link_issues(models, declared, path, links, i) == a + f + r
            &&& no_code(a, ValidationCode::LinkHasTooFewModels)
            &&& no_code(r, ValidationCode::LinkHasTooFewModels)
            &&& no_code(link_issues(models, declared, path, links, i), ValidationCode::TooFewLinkedModels)
        }),
{
    let link = links[i];
    let here = indexed(path + ":Link["@, i);
    let m = metadata_issues(link.metadata@, here);
    let b = finding_if(link.relata@.len() < 2, ValidationCode::LinkHasTooFewRelata, here, "Link requires at least two Relatum elements"@);
    let f = finding_if(
        fewer_than_two_distinct(relatum_models(link.relata@)),
        ValidationCode::LinkHasTooFewModels,
        here,
        "Link requires relata from at least two application models"@,
    );
    let r = relata_issues_upto(models, declared, link, here, link.relata@.len() as int);
    lemma_metadata_codes(link.metadata@, here, ValidationCode::LinkHasTooFewModels);
    lemma_metadata_codes(link.metadata@, here, ValidationCode::TooFewLinkedModels);
    lemma_relata_codes(models, declared, link, here, link.relata@.len() as int, ValidationCode::LinkHasTooFewModels);
    lemma_relata_codes(models, declared, link, here, link.relata@.len() as int, ValidationCode::TooFewLinkedModels);
    lemma_no_code_append(m, b, ValidationCode::LinkHasTooFewModels);
    lemma_no_code_append(m, b, ValidationCode::TooFewLinkedModels);
    lemma_no_code_append(m + b, f, ValidationCode::TooFewLinkedModels);
    lemma_no_code_append(m + b + f, r, ValidationCode::TooFewLinkedModels);
}

/// The findings of a LinkModel document before those of its links.
proof fn lemma_document_parts(container: MultiModel, doc: LinkModelDocument)
    ensures
        ({
            let path = doc.spec_path();
            let model = doc.spec_model();
            let pre = metadata_issues(model.metadata@, path) + finding_if(
                model.format_version@ != "2.0.0"@,
                ValidationCode::UnsupportedFormatVersion,
                path,
                "LinkModel 2.0 namespace requires formatVersion 2.0.0"@,
            ) + finding_if(
                model.links@.len() == 0,
                ValidationCode::LinkModelHasNoLinks,
                path,
                "LinkModel requires at least one Link"@,
            );
            &&& document_issues(container, doc) == pre + links_issues_upto(
                container.models@,
                declared_links(container.link_models@, path),
                path,
                model.links@,
                model.links@.len() as int,
            )
            &&& no_code(pre, ValidationCode::LinkHasTooFewModels)
            &&& no_code(pre, ValidationCode::TooFewLinkedModels)
        }),
{
    let path = doc.spec_path();
    let model = doc.spec_model();
    let m = metadata_issues(model.metadata@, path);
    let f1 = finding_if(
        model.format_version@ != "2.0.0"@,
        ValidationCode::UnsupportedFormatVersion,
        path,
        "LinkModel 2.0 namespace requires formatVersion 2.0.0"@,
    );
    let f2 = finding_if(model.links@.len() == 0, ValidationCode::LinkModelHasNoLinks, path, "LinkModel requires at least one Link"@);
    lemma_metadata_codes(model.metadata@, path, ValidationCode::LinkHasTooFewModels);
    lemma_metadata_codes(model.metadata@, path, ValidationCode::TooFewLinkedModels);
    lemma_no_code_append(m, f1, ValidationCode::LinkHasTooFewModels);
    lemma_no_code_append(m + f1, f2, ValidationCode::LinkHasTooFewModels);
    lemma_no_code_append(m, f1, ValidationCode::TooFewLinkedModels);
    lemma_no_code_append(m + f1, f2, ValidationCode::TooFewLinkedModels);
}

/// The LinkModel documents of an archive report no `TooFewLinkedModels`.
proof fn lemma_documents_no_linked_code(container: MultiModel, docs: Seq<LinkModelDocument>, n: int, x: IssueView)
    requires
        0 <= n <= docs.len(),
        documents_issues_upto(container, docs, n).contains(x),
    ensures
        x.code != ValidationCode::TooFewLinkedModels,
{
    lemma_out_of_documents(container, docs, n, x);
    let k = choose|k: int| 0 <= k < n && #[trigger] document_issues(container, docs[k]).contains(x);
    let doc = docs[k];
    lemma_document_parts(container, doc);
    let path = doc.spec_path();
    let model = doc.spec_model();
    let declared = declared_links(container.link_models@, path);
    let pre = metadata_issues(model.metadata@, path) + finding_if(
        model.format_version@ != "2.0.0"@,
        ValidationCode::UnsupportedFormatVersion,
        path,
        "LinkModel 2.0 namespace requires formatVersion 2.0.0"@,
    ) + finding_if(
        model.links@.len() == 0,
        ValidationCode::LinkModelHasNoLinks,
        path,
        "LinkModel requires at least one Link"@,
    );
    let ls = links_issues_upto(container.models@, declared, path, model.links@, model.links@.len() as int);
    lemma_in_sum(pre, ls, x);
    if ls.contains(x) {
        lemma_out_of_links(container.models@, declared, path, model.links@, model.links@.len() as int, x);
        let i = choose|i: int|
            0 <= i < model.links@.len() && #[trigger] link_issues(container.models@, declared, path, model.links@, i).contains(x);
        lemma_link_parts(container.models@, declared, path, model.links@, i);
    }
}

/// Every `LinkHasTooFewModels` finding of a report holding an archive's
/// findings is about a link of a parsed LinkModel whose relata name fewer
/// than two distinct application models, and is the finding at that link.
pub proof fn law_report_link_too_few_models_justified(a: MmcArchive, report: Seq<IssueView>, x: IssueView)
    requires
        report.to_multiset() == archive_findings(a.spec_container(), a.spec_entries(), a.spec_link_models()).to_multiset(),
        report.contains(x),
        x.code == ValidationCode::LinkHasTooFewModels,
    ensures
        exists|k: int, i: int|
            0 <= k < a.spec_link_models().len() && 0 <= i < a.spec_link_models()[k].spec_model().links@.len()
                && relatum_models(#[trigger] a.spec_link_models()[k].spec_model().links@[i].relata@).to_set().len() < 2
                && x == issue(
                ValidationCode::LinkHasTooFewModels,
                indexed(a.spec_link_models()[k].spec_path() + ":Link["@, i),
                "Link requires relata from at least two application models"@,
            ),
{
    let c = a.spec_container();
    let docs = a.spec_link_models();
    let paths = entry_paths(a.spec_entries());
    let all = archive_findings(c, a.spec_entries(), docs);
    assert(report.to_multiset().count(x) > 0);
    assert(all.contains(x));
    lemma_in_sum(container_issues(c, paths), documents_issues_upto(c, docs, docs.len() as int), x);
    lemma_container_head_codes(c, paths, ValidationCode::LinkHasTooFewModels);
    if container_issues(c, paths).contains(x) {
        lemma_references_no_link_models_code(c.link_models@, c.link_models@.len() as int, c.models@, paths);
        lemma_in_sum(
            container_head_issues(c, paths),
            references_issues_upto(c.link_models@, c.link_models@.len() as int, c.models@, paths),
            x,
        );
        assert(false);
    }
    lemma_out_of_documents(c, docs, docs.len() as int, x);
    let k = choose|k: int| 0 <= k < docs.len() && #[trigger] document_issues(c, docs[k]).contains(x);
    let doc = docs[k];
    lemma_document_parts(c, doc);
    let path = doc.spec_path();
    let model = doc.spec_model();
    let declared = declared_links(c.link_models@, path);
    let pre = metadata_issues(model.metadata@, path) + finding_if(
        model.format_version@ != "2.0.0"@,
        ValidationCode::UnsupportedFormatVersion,
        path,
        "LinkModel 2.0 namespace requires formatVersion 2.0.0"@,
    ) + finding_if(
        model.links@.len() == 0,
        ValidationCode::LinkModelHasNoLinks,
        path,
        "LinkModel requires at least one Link"@,
    );
    let ls = links_issues_upto(c.models@, declared, path, model.links@, model.links@.len() as int);
    lemma_in_sum(pre, ls, x);
    lemma_out_of_links(c.models@, declared, path, model.links@, model.links@.len() as int, x);
    let i = choose|i: int| 0 <= i < model.links@.len() && #[trigger] link_issues(c.models@, declared, path, model.links@, i).contains(x);
    lemma_link_parts(c.models@, declared, path, model.links@, i);
    let link = model.links@[i];
    let here = indexed(path + ":Link["@, i);
    let pa = metadata_issues(link.metadata@, here) + finding_if(
        link.relata@.len() < 2,
        ValidationCode::LinkHasTooFewRelata,
        here,
        "Link requires at least two Relatum elements"@,
    );
    let f = finding_if(
        fewer_than_two_distinct(relatum_models(link.relata@)),
        ValidationCode::LinkHasTooFewModels,
        here,
        "Link requires relata from at least two application models"@,
    );
    let r = relata_issues_upto(c.models@, declared, link, here, link.relata@.len() as int);
    lemma_in_sum(pa + f, r, x);
    lemma_in_sum(pa, f, x);
    lemma_two_distinct_set(relatum_models(link.relata@));
    assert(fewer_than_two_distinct(relatum_models(link.relata@)));
    assert(x == f[0]);
}

/// Every `TooFewLinkedModels` finding of a report holding an archive's
/// findings is about a LinkModel reference of the container that lists
/// fewer than two distinct linked models, and is the finding at that
/// reference.
pub proof fn law_report_too_few_linked_models_justified(a: MmcArchive, report: Seq<IssueView>, x: IssueView)
    requires
        report.to_multiset() == archive_findings(a.spec_container(), a.spec_entries(), a.spec_link_models()).to_multiset(),
        report.contains(x),
        x.code == ValidationCode::TooFewLinkedModels,
    ensures
        exists|i: int|
            0 <= i < a.spec_container().link_models@.len()
                && texts(#[trigger] a.spec_container().link_models@[i].linked_models@).to_set().len() < 2
                && x == issue(
                ValidationCode::TooFewLinkedModels,
                indexed("LinkModel["@, i),
                "LinkModel requires at least two LinkedModel references"@,
            ),
{
    let c = a.spec_container();
    let docs = a.spec_link_models();
    let paths = entry_paths(a.spec_entries());
    let refs = c.link_models@;
    let all = archive_findings(c, a.spec_entries(), docs);
    assert(report.to_multiset().count(x) > 0);
    assert(all.contains(x));
    lemma_in_sum(container_issues(c, paths), documents_issues_upto(c, docs, docs.len() as int), x);
    if documents_issues_upto(c, docs, docs.len() as int).contains(x) {
        lemma_documents_no_linked_code(c, docs, docs.len() as int, x);
    }
    lemma_container_head_codes(c, paths, ValidationCode::TooFewLinkedModels);
    let rs = references_issues_upto(refs, refs.len() as int, c.models@, paths);
    lemma_in_sum(container_head_issues(c, paths), rs, x);
    lemma_out_of_references(refs, refs.len() as int, c.models@, paths, x);
    let i = choose|i: int| 0 <= i < refs.len() && #[trigger] reference_issues(refs, i, c.models@, paths).contains(x);
    let reference = refs[i];
    let here = indexed("LinkModel["@, i);
    let linked = texts(reference.linked_models@);
    let pa = metadata_issues(reference.metadata@, here);
    lemma_metadata_codes(reference.metadata@, here, ValidationCode::TooFewLinkedModels);
    let b = finding_if(
        exists|j: int| 0 <= j < i && crate::conformance::same_location(refs[j].location, reference.location),
        ValidationCode::DuplicateLinkModelLocation,
        here,
        "duplicate LinkModel location"@,
    );
    let l = location_issues(reference.location, here, ValidationCode::MissingEmbeddedLinkModel, paths);
    let f = finding_if(
        fewer_than_two_distinct(linked),
        ValidationCode::TooFewLinkedModels,
        here,
        "LinkModel requires at least two LinkedModel references"@,
    );
    let u = linked_models_issues_upto(linked, crate::conformance::model_ids(c.models@), here, linked.len() as int);
    lemma_linked_codes(linked, crate::conformance::model_ids(c.models@), here, linked.len() as int);
    lemma_no_code_append(pa, b, ValidationCode::TooFewLinkedModels);
    lemma_no_code_append(pa + b, l, ValidationCode::TooFewLinkedModels);
    assert(reference_issues(refs, i, c.models@, paths) == pa + b + l + f + u);
    lemma_in_sum(pa + b + l + f, u, x);
    lemma_in_sum(pa + b + l, f, x);
    lemma_two_distinct_set(linked);
    assert(fewer_than_two_distinct(linked));
    assert(x == f[0]);
}

} // verus!
