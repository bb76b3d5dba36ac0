//! Building new deterministic MMC 2.0 archives.

use vstd::prelude::*;

use crate::admission::{is_archive_fault, ArchiveFault};
use crate::archive::{entry_records, law_admission_reads_back, parse_outcome, MmcArchive};
use crate::error::MmcError;
use crate::model::{
    app_model_views, text_views, ApplicationModel, ApplicationModelView, ContainerMetadata, ContainerMetadataView,
    LinkModel, LinkModelReference, LinkModelReferenceView, LinkModelView, LocationView, MetadataView,
    ResourceLocation,
};
use crate::path::{archive_path_problem, collision_key, collision_key_of, path_problem};
use crate::text::{first_index_of, lemma_first_index_of, lemma_first_index_of_prefix, same_text};
use crate::conformance::archive_findings;
use crate::documents::{link_model_document, multimodel_document, serialize_link_model, serialize_multimodel, INDENT_CHAR, INDENT_SIZE};
use crate::limits::production_limits;
use crate::model::reference_views;
use crate::text::concat;
use crate::validation::{issues_debug, issues_debug_text, issues_sorted, IssueView};
use crate::writing::{in_path_order, law_path_order_unique, names_determine, sort_records, ENTRY_PERMISSIONS};
use crate::xml_rules::{pair_keys, pairs_view};
use crate::xml_writer::xml_rendering;
use crate::zip_io::{
    deflated_zip, lemma_names_fit_rearranged, record_views, write_deflated_zip, zip_holds, zip_name_fits, zip_names_fit,
    MAX_ZIP_NAME_BYTES,
};

verus! {

broadcast use {vstd::seq_lib::lemma_seq_contains_after_push, vstd::seq_lib::to_multiset_len};

/// The mathematical value of a builder: what it will write, and the paths it
/// has reserved (each with its collision key).
pub struct BuilderView {
    pub metadata: ContainerMetadataView,
    pub models: Seq<ApplicationModelView>,
    /// Each LinkModel: its archive path, the models it links, and its projection.
    pub link_models: Seq<(Seq<char>, Seq<Seq<char>>, LinkModelView)>,
    /// Each embedded resource: its archive path and bytes, in the order added.
    pub payloads: Seq<(Seq<char>, Seq<u8>)>,
    /// The reservations: collision key, then the path last recorded under it.
    pub reserved: Seq<(Seq<char>, Seq<char>)>,
}

/// Builder for new deterministic MMC 2.0 archives.
#[derive(Debug)]
pub struct MmcArchiveBuilder {
    metadata: ContainerMetadata,
    models: Vec<ApplicationModel>,
    link_models: Vec<(String, Vec<String>, LinkModel)>,
    payloads: Vec<(String, Vec<u8>)>,
    collisions: Vec<(String, String)>,
}

pub open spec fn link_entry_view(l: (String, Vec<String>, LinkModel)) -> (Seq<char>, Seq<Seq<char>>, LinkModelView) {
    (l.0@, text_views(l.1@), l.2@)
}

pub open spec fn payload_views(s: Seq<(String, Vec<u8>)>) -> Seq<(Seq<char>, Seq<u8>)> {
    s.map_values(|p: (String, Vec<u8>)| (p.0@, p.1@))
}

impl View for MmcArchiveBuilder {
    type V = BuilderView;

    closed spec fn view(&self) -> BuilderView {
        BuilderView {
            metadata: self.metadata@,
            models: app_model_views(self.models@),
            link_models: self.link_models@.map_values(|l: (String, Vec<String>, LinkModel)| link_entry_view(l)),
            payloads: payload_views(self.payloads@),
            reserved: pairs_view(self.collisions@),
        }
    }
}

/// The collision keys of `paths`.
pub open spec fn keys_of(paths: Seq<Seq<char>>) -> Seq<Seq<char>> {
    paths.map_values(|p: Seq<char>| collision_key_of(p))
}

pub open spec fn payload_paths(b: BuilderView) -> Seq<Seq<char>> {
    b.payloads.map_values(|p: (Seq<char>, Seq<u8>)| p.0)
}

pub open spec fn link_paths(b: BuilderView) -> Seq<Seq<char>> {
    b.link_models.map_values(|l: (Seq<char>, Seq<Seq<char>>, LinkModelView)| l.0)
}

/// No two elements of `s` are equal.
pub open spec fn all_distinct(s: Seq<Seq<char>>) -> bool {
    forall|i: int, j: int| 0 <= i < j < s.len() ==> s[i] != s[j]
}

/// Every element of `s` is a reserved key.
pub open spec fn covered(s: Seq<Seq<char>>, reserved: Seq<(Seq<char>, Seq<char>)>) -> bool {
    forall|i: int| 0 <= i < s.len() ==> pair_keys(reserved).contains(#[trigger] s[i])
}

/// The builder's invariant: every reservation is keyed by its path's
/// collision key and no key is reserved twice; the root, every resource and
/// every LinkModel hold a reserved key; no two of them share a collision
/// key; and every resource and LinkModel path is admissible and fits a ZIP
/// entry name.
pub open spec fn builder_wf(b: BuilderView) -> bool {
    let root = collision_key_of("MultiModel.xml"@);
    let pk = keys_of(payload_paths(b));
    let lk = keys_of(link_paths(b));
    &&& forall|i: int| 0 <= i < b.reserved.len() ==> #[trigger] b.reserved[i].0 == collision_key_of(b.reserved[i].1)
    &&& all_distinct(pair_keys(b.reserved))
    &&& pair_keys(b.reserved).contains(root)
    &&& covered(pk, b.reserved)
    &&& covered(lk, b.reserved)
    &&& all_distinct(pk)
    &&& all_distinct(lk)
    &&& forall|i: int, j: int| 0 <= i < pk.len() && 0 <= j < lk.len() ==> pk[i] != lk[j]
    &&& !pk.contains(root)
    &&& !lk.contains(root)
    &&& forall|i: int| 0 <= i < b.payloads.len() ==> archive_path_problem(#[trigger] b.payloads[i].0) is None
    &&& forall|i: int| 0 <= i < b.link_models.len() ==> archive_path_problem(#[trigger] b.link_models[i].0) is None
    &&& forall|i: int| 0 <= i < b.payloads.len() ==> zip_name_fits(#[trigger] b.payloads[i].0)
    &&& forall|i: int| 0 <= i < b.link_models.len() ==> zip_name_fits(#[trigger] b.link_models[i].0)
}

/// Reserving `path`: the reservations afterwards and the refusal, if any. A
/// path too long for a ZIP entry name is refused; a colliding path is
/// recorded under the key it collides on.
pub open spec fn reserve(reserved: Seq<(Seq<char>, Seq<char>)>, path: Seq<char>) -> (
    Seq<(Seq<char>, Seq<char>)>,
    Option<ArchiveFault>,
) {
    match archive_path_problem(path) {
        Some(p) => (reserved, Some(ArchiveFault::UnsafePath(path, p.spec_reason()@))),
        None => if !zip_name_fits(path) {
            (
                reserved,
                Some(
                    ArchiveFault::Limit("archive path bytes"@, vstd::utf8::encode_utf8(path).len() as u64, MAX_ZIP_NAME_BYTES),
                ),
            )
        } else {
            let key = collision_key_of(path);
            match first_index_of(pair_keys(reserved), key) {
                Some(i) => (reserved.update(i, (key, path)), Some(ArchiveFault::Duplicate(reserved[i].1, path))),
                None => (reserved.push((key, path)), None),
            }
        },
    }
}

/// The position of the first pair whose key is `key`.
fn find_key(pairs: &Vec<(String, String)>, key: &str) -> (r: Option<usize>)
    ensures
        match r {
            Some(i) => first_index_of(pair_keys(pairs_view(pairs@)), key@) == Some(i as int),
            None => first_index_of(pair_keys(pairs_view(pairs@)), key@) is None,
        },
{
    let ghost keys = pair_keys(pairs_view(pairs@));
    let mut i: usize = 0;
    while i < pairs.len()
        invariant
            i <= pairs@.len(),
            keys == pair_keys(pairs_view(pairs@)),
            first_index_of(keys.take(i as int), key@) is None,
        decreases pairs@.len() - i,
    {
        assert(keys.take(i + 1).drop_last() =~= keys.take(i as int));
        assert(keys.take(i + 1).last() == pairs@[i as int].0@);
        if same_text(pairs[i].0.as_str(), key) {
            proof { lemma_first_index_of_prefix(keys, i + 1, key@); }
            return Some(i);
        }
        i = i + 1;
    }
    assert(keys.take(i as int) =~= keys);
    None
}

impl MmcArchiveBuilder {
    /// A builder for a container with `metadata`, with `MultiModel.xml` reserved.
    pub fn new(metadata: ContainerMetadata) -> (b: Self)
        ensures
            b@.metadata == metadata@,
            b@.models.len() == 0,
            b@.link_models.len() == 0,
            b@.payloads.len() == 0,
            b@.reserved == seq![(collision_key_of("MultiModel.xml"@), "MultiModel.xml"@)],
            builder_wf(b@),
    {
        let mut collisions: Vec<(String, String)> = Vec::new();
        collisions.push((collision_key("MultiModel.xml"), String::from_str("MultiModel.xml")));
        let b = MmcArchiveBuilder {
            metadata,
            models: Vec::new(),
            link_models: Vec::new(),
            payloads: Vec::new(),
            collisions,
        };
        assert(b@.reserved =~= seq![(collision_key_of("MultiModel.xml"@), "MultiModel.xml"@)]);
        assert(pair_keys(b@.reserved) =~= seq![collision_key_of("MultiModel.xml"@)]);
        assert(pair_keys(b@.reserved)[0] == collision_key_of("MultiModel.xml"@));
        assert(keys_of(payload_paths(b@)) =~= Seq::<Seq<char>>::empty());
        assert(keys_of(link_paths(b@)) =~= Seq::<Seq<char>>::empty());
        b
    }

    /// Reserves `path` (see `reserve`).
    fn reserve_path(&mut self, path: &str) -> (r: Result<(), MmcError>)
        ensures
            final(self)@ == (BuilderView { reserved: reserve(old(self)@.reserved, path@).0, ..old(self)@ }),
            match reserve(old(self)@.reserved, path@).1 {
                None => r is Ok,
                Some(f) => r matches Err(e) && is_archive_fault(e, f),
            },
    {
        let ghost before = self@;
        match path_problem(path) {
            Some(problem) => {
                return Err(MmcError::UnsafeArchivePath { path: String::from_str(path), reason: problem.reason() });
            },
            None => {},
        }
        let size = path.as_bytes().len() as u64;
        if size > MAX_ZIP_NAME_BYTES {
            return Err(MmcError::LimitExceeded { resource: "archive path bytes", actual: size, maximum: MAX_ZIP_NAME_BYTES });
        }
        let key = collision_key(path);
        match find_key(&self.collisions, key.as_str()) {
            Some(i) => {
                proof { lemma_first_index_of(pair_keys(pairs_view(self.collisions@)), key@); }
                let first = self.collisions[i].1.clone();
                assert(pairs_view(self.collisions@)[i as int].1 == first@);
                let ghost old_pairs = self.collisions@;
                self.collisions[i] = (key, String::from_str(path));
                assert(pairs_view(self.collisions@) =~= pairs_view(old_pairs).update(
                    i as int,
                    (collision_key_of(path@), path@),
                ));
                assert(self@ == (BuilderView { reserved: reserve(before.reserved, path@).0, ..before }));
                Err(MmcError::DuplicateArchivePath { first, second: String::from_str(path) })
            },
            None => {
                let ghost old_pairs = self.collisions@;
                self.collisions.push((key, String::from_str(path)));
                assert(pairs_view(self.collisions@) =~= pairs_view(old_pairs).push((collision_key_of(path@), path@)));
                assert(self@ == (BuilderView { reserved: reserve(before.reserved, path@).0, ..before }));
                Ok(())
            },
        }
    }
}

/// Reserving a path keeps the invariant; a successful reservation records
/// a key that was not reserved before.
proof fn lemma_reserve(b: BuilderView, path: Seq<char>)
    requires
        builder_wf(b),
    ensures
        builder_wf(BuilderView { reserved: reserve(b.reserved, path).0, ..b }),
        reserve(b.reserved, path).1 is None ==> !pair_keys(b.reserved).contains(collision_key_of(path))
            && reserve(b.reserved, path).0 == b.reserved.push((collision_key_of(path), path)),
{
    let keys = pair_keys(b.reserved);
    let key = collision_key_of(path);
    lemma_first_index_of(keys, key);
    let r2 = reserve(b.reserved, path).0;
    let b2 = BuilderView { reserved: r2, ..b };
    if archive_path_problem(path) is None && zip_name_fits(path) {
        if let Some(i) = first_index_of(keys, key) {
            assert(pair_keys(r2) =~= keys);
            assert forall|k: int| 0 <= k < r2.len() implies #[trigger] r2[k].0 == collision_key_of(r2[k].1) by {
                if k != i {
                    assert(r2[k] == b.reserved[k]);
                }
            }
        } else {
            assert(pair_keys(r2) =~= keys.push(key));
            assert forall|k: int| 0 <= k < r2.len() implies #[trigger] r2[k].0 == collision_key_of(r2[k].1) by {
                if k < b.reserved.len() {
                    assert(r2[k] == b.reserved[k]);
                }
            }
            assert forall|x: int, y: int| 0 <= x < y < pair_keys(r2).len() implies pair_keys(r2)[x] != pair_keys(r2)[y] by {
                if y == keys.len() {
                    assert(pair_keys(r2)[x] == keys[x]);
                } else {
                    assert(pair_keys(r2)[x] == keys[x]);
                    assert(pair_keys(r2)[y] == keys[y]);
                }
            }
            assert(!keys.contains(key)) by {
                if keys.contains(key) {
                    let w = choose|w: int| 0 <= w < keys.len() && keys[w] == key;
                    assert(keys[w] != key);
                }
            }
        }
    }
}

/// A newly reserved key differs from every key the builder already holds.
proof fn lemma_fresh_key(b: BuilderView, key: Seq<char>)
    requires
        builder_wf(b),
        !pair_keys(b.reserved).contains(key),
    ensures
        !keys_of(payload_paths(b)).contains(key),
        !keys_of(link_paths(b)).contains(key),
        key != collision_key_of("MultiModel.xml"@),
{
    let pk = keys_of(payload_paths(b));
    let lk = keys_of(link_paths(b));
    if pk.contains(key) {
        let w = choose|w: int| 0 <= w < pk.len() && pk[w] == key;
        assert(pair_keys(b.reserved).contains(pk[w]));
    }
    if lk.contains(key) {
        let w = choose|w: int| 0 <= w < lk.len() && lk[w] == key;
        assert(pair_keys(b.reserved).contains(lk[w]));
    }
}

impl MmcArchiveBuilder {
    /// Adds an application model; its id and model type must not be empty.
    pub fn add_application_model(&mut self, model: ApplicationModel) -> (r: Result<&mut Self, MmcError>)
        requires
            builder_wf(old(self)@),
        ensures
            match r {
                Ok(b) => model.id@.len() > 0 && model.model_type@.len() > 0 && b@ == (BuilderView {
                    models: old(self)@.models.push(model@),
                    ..old(self)@
                }) && *final(self) == *final(b) && builder_wf(b@),
                Err(e) => {
                    &&& model.id@.len() == 0 || model.model_type@.len() == 0
                    &&& e matches MmcError::InvalidBuilder(m) && m@ == "application models require non-empty id and model_type"@
                    &&& final(self)@ == old(self)@
                },
            },
    {
        if model.id.as_str().is_empty() || model.model_type.as_str().is_empty() {
            return Err(
                MmcError::InvalidBuilder(String::from_str("application models require non-empty id and model_type")),
            );
        }
        let ghost before = self@;
        let ghost old_models = self.models@;
        self.models.push(model);
        assert(app_model_views(self.models@) =~= app_model_views(old_models).push(model@));
        assert(self@ == (BuilderView { models: before.models.push(model@), ..before }));
        Ok(self)
    }

    /// Adds an embedded payload at `path`, reserving the path.
    pub fn add_embedded_resource(&mut self, path: &str, bytes: Vec<u8>) -> (r: Result<&mut Self, MmcError>)
        requires
            builder_wf(old(self)@),
        ensures
            match reserve(old(self)@.reserved, path@) {
                (reserved, None) => r matches Ok(b) && b@ == (BuilderView {
                    reserved,
                    payloads: old(self)@.payloads.push((path@, bytes@)),
                    ..old(self)@
                }) && *final(self) == *final(b) && builder_wf(b@),
                (reserved, Some(f)) => r matches Err(e) && is_archive_fault(e, f) && final(self)@ == (BuilderView {
                    reserved,
                    ..old(self)@
                }) && builder_wf(final(self)@),
            },
    {
        proof { lemma_reserve(self@, path@); }
        self.reserve_path(path)?;
        let ghost mid = self@;
        proof { lemma_fresh_key(old(self)@, collision_key_of(path@)); }
        let ghost old_payloads = self.payloads@;
        self.payloads.push((String::from_str(path), bytes));
        assert(payload_views(self.payloads@) =~= payload_views(old_payloads).push((path@, bytes@)));
        proof {
            let b = self@;
            let pk = keys_of(payload_paths(b));
            let opk = keys_of(payload_paths(mid));
            assert(pk =~= opk.push(collision_key_of(path@)));
            assert(payload_paths(b) =~= payload_paths(mid).push(path@));
            assert(covered(pk, b.reserved)) by {
                assert forall|i: int| 0 <= i < pk.len() implies pair_keys(b.reserved).contains(#[trigger] pk[i]) by {
                    assert(pair_keys(b.reserved) =~= pair_keys(old(self)@.reserved).push(collision_key_of(path@)));
                    if i < opk.len() {
                        assert(pk[i] == opk[i]);
                        assert(pair_keys(old(self)@.reserved).contains(opk[i]));
                    }
                }
            }
            assert forall|x: int, y: int| 0 <= x < y < pk.len() implies pk[x] != pk[y] by {
                assert(pk[x] == opk[x]);
                if y < opk.len() {
                    assert(pk[y] == opk[y]);
                } else {
                    assert(opk.contains(opk[x]));
                }
            }
            let lk = keys_of(link_paths(b));
            assert forall|x: int, y: int| 0 <= x < pk.len() && 0 <= y < lk.len() implies pk[x] != lk[y] by {
                if x < opk.len() {
                    assert(pk[x] == opk[x]);
                } else {
                    assert(lk.contains(lk[y]));
                }
            }
        }
        Ok(self)
    }

    /// Adds a LinkModel at `path` linking `linked_models`, reserving the
    /// path first; no linked model identifier may be empty.
    pub fn add_link_model(&mut self, path: &str, linked_models: Vec<String>, model: LinkModel) -> (r: Result<
        &mut Self,
        MmcError,
    >)
        requires
            builder_wf(old(self)@),
        ensures
            match reserve(old(self)@.reserved, path@) {
                (reserved, None) => if exists|i: int| 0 <= i < linked_models@.len() && linked_models@[i]@.len() == 0 {
                    r matches Err(MmcError::InvalidBuilder(m)) && m@ == "linked model identifiers must not be empty"@
                        && final(self)@ == (BuilderView {
                        reserved,
                        ..old(self)@
                    }) && builder_wf(final(self)@)
                } else {
                    r matches Ok(b) && b@ == (BuilderView {
                        reserved,
                        link_models: old(self)@.link_models.push((path@, text_views(linked_models@), model@)),
                        ..old(self)@
                    }) && *final(self) == *final(b) && builder_wf(b@)
                },
                (reserved, Some(f)) => r matches Err(e) && is_archive_fault(e, f) && final(self)@ == (BuilderView {
                    reserved,
                    ..old(self)@
                }) && builder_wf(final(self)@),
            },
    {
        proof { lemma_reserve(self@, path@); }
        self.reserve_path(path)?;
        let ghost mid = self@;
        let mut i: usize = 0;
        while i < linked_models.len()
            invariant
                i <= linked_models@.len(),
                forall|j: int| 0 <= j < i ==> linked_models@[j]@.len() > 0,
                self@ == mid,
                mid == (BuilderView { reserved: reserve(old(self)@.reserved, path@).0, ..old(self)@ }),
                reserve(old(self)@.reserved, path@).1 is None,
                builder_wf(mid),
            decreases linked_models@.len() - i,
        {
            if linked_models[i].as_str().is_empty() {
                assert(linked_models@[i as int]@.len() == 0);
                return Err(MmcError::InvalidBuilder(String::from_str("linked model identifiers must not be empty")));
            }
            i = i + 1;
        }
        proof { lemma_fresh_key(old(self)@, collision_key_of(path@)); }
        let ghost old_links = self.link_models@;
        let ghost entry = (path@, text_views(linked_models@), model@);
        self.link_models.push((String::from_str(path), linked_models, model));
        proof {
            let b = self@;
            assert(b.link_models =~= mid.link_models.push(entry));
            let lk = keys_of(link_paths(b));
            let olk = keys_of(link_paths(mid));
            assert(link_paths(b) =~= link_paths(mid).push(path@));
            assert(lk =~= olk.push(collision_key_of(path@)));
            assert(covered(lk, b.reserved)) by {
                assert forall|i: int| 0 <= i < lk.len() implies pair_keys(b.reserved).contains(#[trigger] lk[i]) by {
                    assert(pair_keys(b.reserved) =~= pair_keys(old(self)@.reserved).push(collision_key_of(path@)));
                    if i < olk.len() {
                        assert(lk[i] == olk[i]);
                        assert(pair_keys(old(self)@.reserved).contains(olk[i]));
                    }
                }
            }
            assert forall|x: int, y: int| 0 <= x < y < lk.len() implies lk[x] != lk[y] by {
                assert(lk[x] == olk[x]);
                if y < olk.len() {
                    assert(lk[y] == olk[y]);
                } else {
                    assert(olk.contains(olk[x]));
                }
            }
            let pk = keys_of(payload_paths(b));
            assert forall|x: int, y: int| 0 <= x < pk.len() && 0 <= y < lk.len() implies pk[x] != lk[y] by {
                if y < olk.len() {
                    assert(lk[y] == olk[y]);
                } else {
                    assert(pk.contains(pk[x]));
                }
            }
        }
        Ok(self)
    }
}

/// The references `MultiModel.xml` holds for the builder's LinkModels.
pub open spec fn built_references(links: Seq<(Seq<char>, Seq<Seq<char>>, LinkModelView)>) -> Seq<LinkModelReferenceView> {
    links.map_values(
        |l: (Seq<char>, Seq<Seq<char>>, LinkModelView)|
            LinkModelReferenceView { location: LocationView::Embedded(l.0), linked_models: l.1, metadata: Seq::empty() },
    )
}

/// The entries of the builder's LinkModels: each path with its rendered document.
pub open spec fn link_records(links: Seq<(Seq<char>, Seq<Seq<char>>, LinkModelView)>) -> Seq<(Seq<char>, Seq<u8>)> {
    links.map_values(
        |l: (Seq<char>, Seq<Seq<char>>, LinkModelView)|
            (l.0, xml_rendering(link_model_document(l.2), INDENT_CHAR, INDENT_SIZE)),
    )
}

/// Every entry a builder writes has a name that fits a ZIP entry.
proof fn lemma_built_names_fit(b: BuilderView)
    requires
        builder_wf(b),
    ensures
        zip_names_fit(built_records(b)),
{
    let r = built_records(b);
    let p = b.payloads.len() as int;
    assert(zip_name_fits("MultiModel.xml"@)) by {
        reveal_strlit("MultiModel.xml");
        vstd::utf8::is_ascii_chars_encode_utf8("MultiModel.xml"@);
    }
    assert forall|i: int| 0 <= i < r.len() implies zip_name_fits(#[trigger] r[i].0) by {
        if i < p {
            assert(r[i] == b.payloads[i]);
        } else if i > p {
            assert(r[i] == link_records(b.link_models)[i - p - 1]);
            assert(r[i].0 == b.link_models[i - p - 1].0);
        }
    }
}

/// The rendered `MultiModel.xml` of a builder.
pub open spec fn built_index(b: BuilderView) -> Seq<u8> {
    xml_rendering(multimodel_document(b.metadata, b.models, built_references(b.link_models)), INDENT_CHAR, INDENT_SIZE)
}

/// Every entry a builder writes: its payloads, `MultiModel.xml`, and its LinkModels.
pub open spec fn built_records(b: BuilderView) -> Seq<(Seq<char>, Seq<u8>)> {
    b.payloads.push(("MultiModel.xml"@, built_index(b))) + link_records(b.link_models)
}

fn clone_texts(v: &Vec<String>) -> (r: Vec<String>)
    ensures
        text_views(r@) == text_views(v@),
{
    let mut r: Vec<String> = Vec::new();
    let mut i: usize = 0;
    while i < v.len()
        invariant
            i <= v@.len(),
            text_views(r@) == text_views(v@.take(i as int)),
        decreases v@.len() - i,
    {
        let ghost before = r@;
        let c = v[i].clone();
        assert(c@ == v@[i as int]@);
        r.push(c);
        assert(r@ == before.push(c));
        assert(text_views(r@) =~= text_views(before).push(c@));
        assert(v@.take(i + 1) =~= v@.take(i as int).push(v@[i as int]));
        assert(text_views(v@.take(i + 1)) =~= text_views(v@.take(i as int)).push(v@[i as int]@));
        i = i + 1;
    }
    assert(v@.take(i as int) =~= v@);
    r
}

pub open spec fn link_entries_view(s: Seq<(String, Vec<String>, LinkModel)>) -> Seq<(Seq<char>, Seq<Seq<char>>, LinkModelView)> {
    s.map_values(|l: (String, Vec<String>, LinkModel)| link_entry_view(l))
}

/// The references to the builder's LinkModels (see `built_references`).
fn references_for(link_models: &Vec<(String, Vec<String>, LinkModel)>) -> (r: Vec<LinkModelReference>)
    ensures
        reference_views(r@) == built_references(link_entries_view(link_models@)),
{
    let ghost links = link_entries_view(link_models@);
    let mut references: Vec<LinkModelReference> = Vec::new();
    let mut i: usize = 0;
    assert(reference_views(references@) =~= built_references(links.take(0)));
    while i < link_models.len()
        invariant
            i <= link_models@.len(),
            links == link_entries_view(link_models@),
            reference_views(references@) == built_references(links.take(i as int)),
        decreases link_models@.len() - i,
    {
        let path = link_models[i].0.clone();
        let reference = LinkModelReference {
            location: ResourceLocation::Embedded(path),
            linked_models: clone_texts(&link_models[i].1),
            metadata: Vec::new(),
        };
        assert(crate::model::metadata_views(reference.metadata@) =~= Seq::<MetadataView>::empty());
        assert(reference@ == LinkModelReferenceView {
            location: LocationView::Embedded(links[i as int].0),
            linked_models: links[i as int].1,
            metadata: Seq::empty(),
        });
        let ghost before = references@;
        references.push(reference);
        assert(reference_views(references@) =~= reference_views(before).push(reference@));
        assert(links.take(i + 1) =~= links.take(i as int).push(links[i as int]));
        assert(built_references(links.take(i + 1)) =~= built_references(links.take(i as int)).push(reference@));
        i = i + 1;
    }
    assert(links.take(i as int) =~= links);
    references
}

/// Appends each LinkModel's path with its rendered document (see `link_records`).
fn append_link_documents(entries: &mut Vec<(String, Vec<u8>)>, link_models: &Vec<(String, Vec<String>, LinkModel)>) -> (r: Result<(), MmcError>)
    ensures
        r is Ok,
        record_views(final(entries)@) == record_views(old(entries)@) + link_records(link_entries_view(link_models@)),
{
    let ghost links = link_entries_view(link_models@);
    let ghost head = record_views(entries@);
    let mut k: usize = 0;
    assert(record_views(entries@) =~= head + link_records(links.take(0)));
    while k < link_models.len()
        invariant
            k <= link_models@.len(),
            links == link_entries_view(link_models@),
            head == record_views(old(entries)@),
            record_views(entries@) == head + link_records(links.take(k as int)),
        decreases link_models@.len() - k,
    {
        let document = serialize_link_model(&link_models[k].2)?;
        let path = link_models[k].0.clone();
        let ghost before = entries@;
        let ghost item = (path@, document@);
        assert(item == (links[k as int].0, xml_rendering(link_model_document(links[k as int].2), INDENT_CHAR, INDENT_SIZE)));
        entries.push((path, document));
        assert(record_views(entries@) =~= record_views(before).push(item));
        assert(links.take(k + 1) =~= links.take(k as int).push(links[k as int]));
        assert(link_records(links.take(k + 1)) =~= link_records(links.take(k as int)).push(item));
        assert(record_views(entries@) =~= head + link_records(links.take(k + 1)));
        k = k + 1;
    }
    assert(links.take(k as int) =~= links);
    Ok(())
}

/// The message of a refused build: its findings as `{:?}` renders them.
pub open spec fn issues_message(issues: Seq<IssueView>) -> Seq<char> {
    "built archive is not conformant: "@ + issues_debug_text(issues)
}

/// `r` is `InvalidBuilder` with this message.
pub open spec fn refused_with(r: Result<MmcArchive, MmcError>, message: Seq<char>) -> bool {
    r matches Err(MmcError::InvalidBuilder(m)) && m@ == message
}

/// What `build` answers once the archive it wrote is parsed as `parsed`: the
/// parse failure itself; the archive, when validation finds nothing in it;
/// otherwise `InvalidBuilder` with the findings in report order, as `{:?}`
/// renders them.
pub open spec fn build_answer(parsed: Result<MmcArchive, MmcError>, r: Result<MmcArchive, MmcError>) -> bool {
    match parsed {
        Err(e) => r == Err::<MmcArchive, MmcError>(e),
        Ok(a) => {
            let findings = archive_findings(a.spec_container(), a.spec_entries(), a.spec_link_models());
            if findings.len() == 0 {
                r == Ok::<MmcArchive, MmcError>(a)
            } else {
                exists|issues: Seq<IssueView>|
                    #[trigger] issues_sorted(issues) && issues.to_multiset() == findings.to_multiset() && refused_with(
                        r,
                        issues_message(issues),
                    )
            }
        },
    }
}

impl MmcArchiveBuilder {
    /// Writes the archive (`MultiModel.xml` referencing every LinkModel,
    /// the payloads and the LinkModel documents, in path order), reads it
    /// back with production budgets, and refuses it unless validation finds
    /// nothing. A failure to write is the writer's; a failure to read back
    /// is the parser's.
    #[verifier::rlimit(40)]
    pub fn build(self) -> (r: Result<MmcArchive, MmcError>)
        requires
            builder_wf(self@),
        ensures
            exists|s: Seq<(Seq<char>, Seq<u8>)>|
                #![trigger deflated_zip(s, ENTRY_PERMISSIONS)]
                in_path_order(s, built_records(self@)) && match deflated_zip(s, ENTRY_PERMISSIONS) {
                    None => r matches Err(e) && (e is Zip || e is Io),
                    Some(z) => zip_holds(z, s) && exists|parsed: Result<MmcArchive, MmcError>|
                        #[trigger] parse_outcome(z, production_limits(), parsed) && build_answer(parsed, r),
                },
    {
        let ghost b = self@;
        let references = references_for(&self.link_models);
        let index = serialize_multimodel(&self.metadata, &self.models, &references)?;
        let MmcArchiveBuilder { metadata: _, models: _, link_models, payloads, collisions: _ } = self;
        let mut entries = payloads;
        let ghost before_root = entries@;
        entries.push((String::from_str("MultiModel.xml"), index));
        assert(record_views(entries@) =~= b.payloads.push(("MultiModel.xml"@, built_index(b))));
        append_link_documents(&mut entries, &link_models)?;
        assert(record_views(entries@) =~= built_records(b));
        let sorted = sort_records(entries);
        let ghost s = record_views(sorted@);
        assert(in_path_order(s, built_records(b)));
        proof {
            lemma_built_names_fit(b);
            lemma_names_fit_rearranged(s, built_records(b));
        }
        let bytes = write_deflated_zip(&sorted, ENTRY_PERMISSIONS)?;
        let parsed = MmcArchive::parse(bytes.as_slice());
        let ghost p = parsed;
        assert(parse_outcome(bytes@, production_limits(), p));
        let archive = match parsed {
            Ok(a) => a,
            Err(e) => {
                proof {
                    assert(deflated_zip(s, ENTRY_PERMISSIONS)->Some_0 == bytes@);
                    assert(build_answer(p, Err::<MmcArchive, MmcError>(e)));
                }
                return Err(e);
            },
        };
        let report = archive.validate();
        if !report.is_valid() {
            let details = issues_debug(report.issues());
            let message = concat("built archive is not conformant: ", details.as_str());
            proof {
                let findings = archive_findings(archive.spec_container(), archive.spec_entries(), archive.spec_link_models());
                assert(report.spec_issues().len() > 0);
                assert(report.spec_issues().to_multiset().len() > 0);
                assert(findings.to_multiset().len() == findings.len());
                assert(message@ == issues_message(report.spec_issues()));
                assert(issues_sorted(report.spec_issues()));
                let r = Err::<MmcArchive, MmcError>(MmcError::InvalidBuilder(message));
                assert(refused_with(r, issues_message(report.spec_issues())));
                assert(build_answer(p, r));
                assert(deflated_zip(s, ENTRY_PERMISSIONS)->Some_0 == bytes@);
            }
            return Err(MmcError::InvalidBuilder(message));
        }
        proof {
            let findings = archive_findings(archive.spec_container(), archive.spec_entries(), archive.spec_link_models());
            assert(report.spec_issues().len() == 0);
            assert(report.spec_issues().to_multiset().len() == 0);
            assert(findings.to_multiset().len() == findings.len());
            assert(build_answer(p, Ok::<MmcArchive, MmcError>(archive)));
            assert(deflated_zip(s, ENTRY_PERMISSIONS)->Some_0 == bytes@);
        }
        Ok(archive)
    }
}

/// A built archive holds exactly the entries its builder writes (its
/// payloads, `MultiModel.xml` and its LinkModel documents), each under its
/// path with its bytes.
pub proof fn law_built_archive_contents(
    b: BuilderView,
    s: Seq<(Seq<char>, Seq<u8>)>,
    z: Seq<u8>,
    a: MmcArchive,
)
    requires
        in_path_order(s, built_records(b)),
        zip_holds(z, s),
        a.read_from(z, production_limits()),
    ensures
        entry_records(a.spec_entries()).to_multiset() == built_records(b).to_multiset(),
{
    law_admission_reads_back(z, s, production_limits());
}

/// The names of a builder's entries: its payloads, `MultiModel.xml`, then its LinkModels.
pub open spec fn built_names(b: BuilderView) -> Seq<Seq<char>> {
    payload_paths(b).push("MultiModel.xml"@) + link_paths(b)
}

proof fn lemma_built_names(b: BuilderView)
    requires
        builder_wf(b),
    ensures
        built_names(b).len() == built_records(b).len(),
        forall|i: int| 0 <= i < built_records(b).len() ==> (#[trigger] built_records(b)[i]).0 == built_names(b)[i],
        forall|i: int, j: int|
            0 <= i < j < built_names(b).len() ==> collision_key_of(#[trigger] built_names(b)[i]) != collision_key_of(
                #[trigger] built_names(b)[j],
            ),
{
    let n = built_names(b);
    let r = built_records(b);
    let p = b.payloads.len() as int;
    let pk = keys_of(payload_paths(b));
    let lk = keys_of(link_paths(b));
    let root = collision_key_of("MultiModel.xml"@);
    assert forall|i: int| 0 <= i < r.len() implies (#[trigger] r[i]).0 == n[i] by {
        if i < p {
            assert(r[i] == b.payloads[i]);
        } else if i > p {
            assert(r[i] == link_records(b.link_models)[i - p - 1]);
        }
    }
    assert forall|i: int| 0 <= i < n.len() implies #[trigger] collision_key_of(n[i]) == (if i < p {
        pk[i]
    } else if i == p {
        root
    } else {
        lk[i - p - 1]
    }) by {}
    assert forall|i: int, j: int| 0 <= i < j < n.len() implies collision_key_of(#[trigger] n[i]) != collision_key_of(
        #[trigger] n[j],
    ) by {
        assert(collision_key_of(n[i]) == (if i < p {
            pk[i]
        } else if i == p {
            root
        } else {
            lk[i - p - 1]
        }));
        assert(collision_key_of(n[j]) == (if j < p {
            pk[j]
        } else if j == p {
            root
        } else {
            lk[j - p - 1]
        }));
        if i < p && j == p {
            assert(pk.contains(pk[i]));
        } else if i == p && j > p {
            assert(lk.contains(lk[j - p - 1]));
        }
    }
}

/// Building is reproducible: for a builder, every arrangement of the entries
/// it writes in path order gives the same archive bytes.
pub proof fn law_build_reproducible(b: BuilderView, s1: Seq<(Seq<char>, Seq<u8>)>, s2: Seq<(Seq<char>, Seq<u8>)>)
    requires
        builder_wf(b),
        in_path_order(s1, built_records(b)),
        in_path_order(s2, built_records(b)),
    ensures
        deflated_zip(s1, ENTRY_PERMISSIONS) == deflated_zip(s2, ENTRY_PERMISSIONS),
{
    broadcast use vstd::seq_lib::to_multiset_contains;

    let records = built_records(b);
    lemma_built_names(b);
    assert forall|a1: (Seq<char>, Seq<u8>), b1: (Seq<char>, Seq<u8>)|
        #![trigger s1.contains(a1), s1.contains(b1)]
        s1.contains(a1) && s1.contains(b1) && a1.0 == b1.0 implies a1 == b1 by {
        assert(s1.to_multiset().count(a1) > 0 && s1.to_multiset().count(b1) > 0);
        assert(records.contains(a1) && records.contains(b1));
        let i = choose|i: int| 0 <= i < records.len() && records[i] == a1;
        let j = choose|j: int| 0 <= j < records.len() && records[j] == b1;
        assert(records[i].0 == built_names(b)[i] && records[j].0 == built_names(b)[j]);
        if i < j {
            assert(collision_key_of(built_names(b)[i]) != collision_key_of(built_names(b)[j]));
        } else if j < i {
            assert(collision_key_of(built_names(b)[j]) != collision_key_of(built_names(b)[i]));
        }
    }
    assert(names_determine(s1));
    law_path_order_unique(s1, s2);
}

} // verus!
