//! Serialization of the container and LinkModel projections: the exact
//! sequence of XML write events of each document, and its rendering.

use vstd::prelude::*;

use crate::error::MmcError;
use crate::model::{
    app_model_views, link_views, metadata_views, opt_view, rate_views, reference_views, relatum_views,
    representation_views, resource_views, text_views, ApplicationModel, ApplicationModelView, ContainerMetadata,
    ContainerMetadataView, DataResource, DataResourceView, Link, LinkModel, LinkModelReference,
    LinkModelReferenceView, LinkModelView, LinkView, LocationView, MetadataEntry, MetadataView, ModelData,
    ModelDataView, Rate, RateView, Relatum, RelatumView, ResourceLocation,
};
use crate::read_back::{document_reads, reads_back};
use crate::round_trip::{lemma_link_model_readable, lemma_link_model_tree, link_model_ok, link_model_tree};
use crate::container_tree::{container_ok, container_tree, lemma_container_readable, lemma_container_tree};
use crate::text::concat;
use crate::xml_writer::{attribute_views, render_document, writes_view, xml_rendering, WriteView, XmlWrite};
use crate::{LINK_MODEL_NAMESPACE, MMC_NAMESPACE};

verus! {

/// The indentation of written documents: two spaces per level.
pub const INDENT_CHAR: u8 = 32u8;

pub const INDENT_SIZE: usize = 2usize;

/// The lower-case hexadecimal digit for `d` (below 16).
pub open spec fn hex_digit(d: int) -> char {
    if d < 10 {
        (d + 48) as char
    } else {
        (d + 87) as char
    }
}

/// Hexadecimal digit `j` of the 32 digits of `value`, most significant first.
pub open spec fn uuid_digit(value: u128, j: int) -> char {
    hex_digit((value as int / vstd::arithmetic::power::pow(16, (31 - j) as nat)) % 16)
}

/// The textual form `uuid` gives a UUID: its 32 lower-case hexadecimal
/// digits, most significant first, in groups of 8-4-4-4-12 joined by `-`.
pub open spec fn uuid_text(value: u128) -> Seq<char> {
    Seq::new(
        36,
        |i: int|
            if i == 8 || i == 13 || i == 18 || i == 23 {
                '-'
            } else {
                uuid_digit(
                    value,
                    i - if i < 8 {
                        0int
                    } else if i < 13 {
                        1int
                    } else if i < 18 {
                        2int
                    } else if i < 23 {
                        3int
                    } else {
                        4int
                    },
                )
            },
    )
}

/// `Uuid::from_u128` then `to_string` from `uuid`: the hyphenated form of
/// the UUID with this 128-bit value (its bytes big-endian). Claims: the
/// result is that text (see `uuid_text`).
#[verifier::external_body]
fn uuid_string(value: u128) -> (r: String)
    ensures
        r@ == uuid_text(value),
{
    uuid::Uuid::from_u128(value).to_string()
}

pub open spec fn opt_attr(name: Seq<char>, value: Option<Seq<char>>) -> Seq<(Seq<char>, Seq<char>)> {
    match value {
        Some(v) => seq![(name, v)],
        None => Seq::empty(),
    }
}

/// The path or IRI of a location, as written.
pub open spec fn location_text(l: LocationView) -> Seq<char> {
    match l {
        LocationView::Embedded(p) => p,
        LocationView::External(u) => u,
    }
}

/// The attributes of a metadata item: `key`/`value`/`type`/`category`, or
/// in compact form `k`/`v`/`t`/`c`.
pub open spec fn meta_attributes(m: MetadataView, compact: bool) -> Seq<(Seq<char>, Seq<char>)> {
    if compact {
        seq![("k"@, m.key), ("v"@, m.value)] + opt_attr("t"@, m.value_type) + opt_attr("c"@, m.category)
    } else {
        seq![("key"@, m.key), ("value"@, m.value)] + opt_attr("type"@, m.value_type) + opt_attr(
            "category"@,
            m.category,
        )
    }
}

pub open spec fn meta_items(prefix: Seq<char>, items: Seq<MetadataView>, compact: bool) -> Seq<WriteView>
    decreases items.len(),
{
    if items.len() == 0 {
        Seq::empty()
    } else {
        meta_items(prefix, items.drop_last(), compact).push(
            WriteView::Element(prefix + ":Meta"@, meta_attributes(items.last(), compact), true),
        )
    }
}

/// A `MetaData` collection; nothing where there are no items.
pub open spec fn metadata_block(prefix: Seq<char>, items: Seq<MetadataView>, compact: bool) -> Seq<WriteView> {
    if items.len() == 0 {
        Seq::empty()
    } else {
        seq![WriteView::Element(prefix + ":MetaData"@, Seq::empty(), false)] + meta_items(prefix, items, compact)
            + seq![WriteView::End(prefix + ":MetaData"@)]
    }
}

pub open spec fn resource_block(r: DataResourceView) -> Seq<WriteView> {
    let attrs = seq![("id"@, r.id), ("location"@, location_text(r.location))];
    if r.metadata.len() == 0 {
        seq![WriteView::Element("mmc:DataRessource"@, attrs, true)]
    } else {
        seq![WriteView::Element("mmc:DataRessource"@, attrs, false)] + metadata_block("mmc"@, r.metadata, false)
            + seq![WriteView::End("mmc:DataRessource"@)]
    }
}

pub open spec fn resources_block(s: Seq<DataResourceView>) -> Seq<WriteView>
    decreases s.len(),
{
    if s.len() == 0 {
        Seq::empty()
    } else {
        resources_block(s.drop_last()) + resource_block(s.last())
    }
}

pub open spec fn representation_block(d: ModelDataView) -> Seq<WriteView> {
    seq![
        WriteView::Element(
            "mmc:ModelData"@,
            seq![("id"@, d.id), ("formatType"@, d.format_type)] + opt_attr("formatVersion"@, d.format_version),
            false,
        ),
    ] + metadata_block("mmc"@, d.metadata, false) + resources_block(d.resources) + seq![
        WriteView::End("mmc:ModelData"@),
    ]
}

pub open spec fn representations_block(s: Seq<ModelDataView>) -> Seq<WriteView>
    decreases s.len(),
{
    if s.len() == 0 {
        Seq::empty()
    } else {
        representations_block(s.drop_last()) + representation_block(s.last())
    }
}

pub open spec fn model_block(m: ApplicationModelView) -> Seq<WriteView> {
    seq![WriteView::Element("mmc:ApplicationModel"@, seq![("id"@, m.id), ("modelType"@, m.model_type)], false)]
        + metadata_block("mmc"@, m.metadata, false) + representations_block(m.representations) + seq![
        WriteView::End("mmc:ApplicationModel"@),
    ]
}

pub open spec fn models_block(s: Seq<ApplicationModelView>) -> Seq<WriteView>
    decreases s.len(),
{
    if s.len() == 0 {
        Seq::empty()
    } else {
        models_block(s.drop_last()) + model_block(s.last())
    }
}

pub open spec fn linked_item(m: Seq<char>) -> Seq<WriteView> {
    seq![
        WriteView::Element("mmc:LinkedModel"@, Seq::empty(), false),
        WriteView::Text(m),
        WriteView::End("mmc:LinkedModel"@),
    ]
}

pub open spec fn linked_block(s: Seq<Seq<char>>) -> Seq<WriteView>
    decreases s.len(),
{
    if s.len() == 0 {
        Seq::empty()
    } else {
        linked_block(s.drop_last()) + linked_item(s.last())
    }
}

pub open spec fn reference_block(l: LinkModelReferenceView) -> Seq<WriteView> {
    seq![WriteView::Element("mmc:LinkModel"@, seq![("location"@, location_text(l.location))], false)]
        + metadata_block("mmc"@, l.metadata, false) + linked_block(l.linked_models) + seq![
        WriteView::End("mmc:LinkModel"@),
    ]
}

pub open spec fn references_block(s: Seq<LinkModelReferenceView>) -> Seq<WriteView>
    decreases s.len(),
{
    if s.len() == 0 {
        Seq::empty()
    } else {
        references_block(s.drop_last()) + reference_block(s.last())
    }
}

pub open spec fn container_root_attributes(meta: ContainerMetadataView) -> Seq<(Seq<char>, Seq<char>)> {
    seq![("xmlns:mmc"@, MMC_NAMESPACE@), ("uuid"@, uuid_text(meta.uuid)), ("formatVersion"@, meta.format_version)]
        + opt_attr("mmDomain"@, meta.mm_domain)
}

/// The write events of `MultiModel.xml`: the declaration, the root with
/// its metadata, the application models, and the LinkModel references
/// (their collection only where there are any).
pub open spec fn multimodel_document(
    meta: ContainerMetadataView,
    models: Seq<ApplicationModelView>,
    refs: Seq<LinkModelReferenceView>,
) -> Seq<WriteView> {
    seq![
        WriteView::Decl("1.0"@, "UTF-8"@),
        WriteView::Element("mmc:MultiModel"@, container_root_attributes(meta), false),
    ] + metadata_block("mmc"@, meta.metadata, false) + seq![
        WriteView::Element("mmc:ApplicationModels"@, Seq::empty(), false),
    ] + models_block(models) + seq![WriteView::End("mmc:ApplicationModels"@)] + (if refs.len() == 0 {
        Seq::<WriteView>::empty()
    } else {
        seq![WriteView::Element("mmc:LinkModels"@, Seq::empty(), false)] + references_block(refs) + seq![
            WriteView::End("mmc:LinkModels"@),
        ]
    }) + seq![WriteView::End("mmc:MultiModel"@)]
}

pub open spec fn rate_event(t: RateView) -> WriteView {
    WriteView::Element("link:Rate"@, seq![("t"@, t.rate_type), ("v"@, t.value), ("m"@, t.target_model)], true)
}

pub open spec fn rate_item(t: RateView) -> Seq<WriteView> {
    seq![rate_event(t)]
}

pub open spec fn rates_block(s: Seq<RateView>) -> Seq<WriteView>
    decreases s.len(),
{
    if s.len() == 0 {
        Seq::empty()
    } else {
        rates_block(s.drop_last()) + rate_item(s.last())
    }
}

pub open spec fn relatum_attributes(r: RelatumView) -> Seq<(Seq<char>, Seq<char>)> {
    seq![("id"@, r.element_id), ("m"@, r.model_id)] + opt_attr("f"@, r.format_id) + opt_attr("r"@, r.resource_id)
}

pub open spec fn relatum_block(r: RelatumView) -> Seq<WriteView> {
    if r.metadata.len() == 0 && r.rates.len() == 0 {
        seq![WriteView::Element("link:Relatum"@, relatum_attributes(r), true)]
    } else {
        seq![WriteView::Element("link:Relatum"@, relatum_attributes(r), false)] + metadata_block(
            "link"@,
            r.metadata,
            true,
        ) + rates_block(r.rates) + seq![WriteView::End("link:Relatum"@)]
    }
}

pub open spec fn relata_block(s: Seq<RelatumView>) -> Seq<WriteView>
    decreases s.len(),
{
    if s.len() == 0 {
        Seq::empty()
    } else {
        relata_block(s.drop_last()) + relatum_block(s.last())
    }
}

pub open spec fn link_block(l: LinkView) -> Seq<WriteView> {
    seq![WriteView::Element("link:Link"@, Seq::empty(), false)] + metadata_block("link"@, l.metadata, true)
        + relata_block(l.relata) + seq![WriteView::End("link:Link"@)]
}

pub open spec fn links_block(s: Seq<LinkView>) -> Seq<WriteView>
    decreases s.len(),
{
    if s.len() == 0 {
        Seq::empty()
    } else {
        links_block(s.drop_last()) + link_block(s.last())
    }
}

/// The write events of a LinkModel document.
pub open spec fn link_model_document(m: LinkModelView) -> Seq<WriteView> {
    seq![
        WriteView::Decl("1.0"@, "UTF-8"@),
        WriteView::Element(
            "link:LinkModel"@,
            seq![("xmlns:link"@, LINK_MODEL_NAMESPACE@), ("formatVersion"@, m.format_version)],
            false,
        ),
    ] + metadata_block("link"@, m.metadata, true) + links_block(m.links) + seq![WriteView::End("link:LinkModel"@)]
}

fn push_write(out: &mut Vec<XmlWrite>, e: XmlWrite)
    ensures
        writes_view(final(out)@) == writes_view(old(out)@).push(e@),
{
    let ghost before = out@;
    out.push(e);
    assert(writes_view(out@) =~= writes_view(before).push(e@));
}

fn element(name: &str, attributes: Vec<(String, String)>, empty: bool) -> (e: XmlWrite)
    ensures
        e@ == WriteView::Element(name@, attribute_views(attributes@), empty),
{
    XmlWrite::Element { name: String::from_str(name), attributes, empty }
}

fn end_tag(name: &str) -> (e: XmlWrite)
    ensures
        e@ == WriteView::End(name@),
{
    XmlWrite::End(String::from_str(name))
}

fn push_attr(attrs: &mut Vec<(String, String)>, key: &str, value: &str)
    ensures
        attribute_views(final(attrs)@) == attribute_views(old(attrs)@).push((key@, value@)),
{
    let ghost before = attrs@;
    attrs.push((String::from_str(key), String::from_str(value)));
    assert(attribute_views(attrs@) =~= attribute_views(before).push((key@, value@)));
}

fn push_opt_attr(attrs: &mut Vec<(String, String)>, key: &str, value: &Option<String>)
    ensures
        attribute_views(final(attrs)@) == attribute_views(old(attrs)@) + opt_attr(key@, opt_view(*value)),
{
    let ghost before = attribute_views(attrs@);
    match value {
        Some(v) => {
            push_attr(attrs, key, v.as_str());
        },
        None => {},
    }
    assert(attribute_views(attrs@) =~= before + opt_attr(key@, opt_view(*value)));
}

fn no_attrs() -> (r: Vec<(String, String)>)
    ensures
        attribute_views(r@) == Seq::<(Seq<char>, Seq<char>)>::empty(),
{
    let r: Vec<(String, String)> = Vec::new();
    assert(attribute_views(r@) =~= Seq::<(Seq<char>, Seq<char>)>::empty());
    r
}

fn two_attrs(k1: &str, v1: &str, k2: &str, v2: &str) -> (r: Vec<(String, String)>)
    ensures
        attribute_views(r@) == seq![(k1@, v1@), (k2@, v2@)],
{
    let mut r: Vec<(String, String)> = Vec::new();
    push_attr(&mut r, k1, v1);
    push_attr(&mut r, k2, v2);
    assert(attribute_views(r@) =~= seq![(k1@, v1@), (k2@, v2@)]);
    r
}

fn location_string(l: &ResourceLocation) -> (r: &str)
    ensures
        r@ == location_text(l@),
{
    match l {
        ResourceLocation::Embedded(p) => p.as_str(),
        ResourceLocation::External(u) => u.as_str(),
    }
}

fn meta_attributes_of(m: &MetadataEntry, compact: bool) -> (r: Vec<(String, String)>)
    ensures
        attribute_views(r@) == meta_attributes(m@, compact),
{
    let (key, value, value_type, category) = if compact {
        ("k", "v", "t", "c")
    } else {
        ("key", "value", "type", "category")
    };
    let mut r = two_attrs(key, m.key.as_str(), value, m.value.as_str());
    push_opt_attr(&mut r, value_type, &m.value_type);
    push_opt_attr(&mut r, category, &m.category);
    proof {
        reveal_strlit("k");
        reveal_strlit("v");
        reveal_strlit("t");
        reveal_strlit("c");
        reveal_strlit("key");
        reveal_strlit("value");
        reveal_strlit("type");
        reveal_strlit("category");
    }
    r
}

/// Appends the `MetaData` collection of `items` (see `metadata_block`).
fn emit_metadata(out: &mut Vec<XmlWrite>, prefix: &str, items: &Vec<MetadataEntry>, compact: bool)
    ensures
        writes_view(final(out)@) == writes_view(old(out)@) + metadata_block(prefix@, metadata_views(items@), compact),
{
    let ghost start = writes_view(out@);
    let ghost views = metadata_views(items@);
    if items.len() == 0 {
        assert(writes_view(out@) =~= start + metadata_block(prefix@, views, compact));
        return;
    }
    let collection = concat(prefix, ":MetaData");
    let item_name = concat(prefix, ":Meta");
    push_write(out, element(collection.as_str(), no_attrs(), false));
    let ghost base = writes_view(out@);
    let mut i: usize = 0;
    assert(views.take(0) =~= Seq::<MetadataView>::empty());
    assert(base =~= base + meta_items(prefix@, views.take(0), compact));
    while i < items.len()
        invariant
            i <= items@.len(),
            views == metadata_views(items@),
            item_name@ == prefix@ + ":Meta"@,
            writes_view(out@) == base + meta_items(prefix@, views.take(i as int), compact),
        decreases items@.len() - i,
    {
        assert(views.take(i + 1).drop_last() =~= views.take(i as int));
        assert(views.take(i + 1).last() == items@[i as int]@);
        let attrs = meta_attributes_of(&items[i], compact);
        push_write(out, XmlWrite::Element { name: item_name.clone(), attributes: attrs, empty: true });
        assert(writes_view(out@) =~= base + meta_items(prefix@, views.take(i + 1), compact));
        i = i + 1;
    }
    assert(views.take(i as int) =~= views);
    push_write(out, end_tag(collection.as_str()));
    assert(writes_view(out@) =~= start + metadata_block(prefix@, views, compact));
}


fn emit_resources(out: &mut Vec<XmlWrite>, items: &Vec<DataResource>)
    ensures
        writes_view(final(out)@) == writes_view(old(out)@) + resources_block(resource_views(items@)),
{
    let ghost start = writes_view(out@);
    let ghost views = resource_views(items@);
    let mut i: usize = 0;
    assert(views.take(0) =~= Seq::<DataResourceView>::empty());
    assert(writes_view(out@) =~= start + resources_block(views.take(0)));
    while i < items.len()
        invariant
            i <= items@.len(),
            views == resource_views(items@),
            writes_view(out@) == start + resources_block(views.take(i as int)),
        decreases items@.len() - i,
    {
        assert(views.take(i + 1).drop_last() =~= views.take(i as int));
        assert(views.take(i + 1).last() == items@[i as int]@);
        emit_resource(out, &items[i]);
        assert(writes_view(out@) =~= start + resources_block(views.take(i + 1)));
        i = i + 1;
    }
    assert(views.take(i as int) =~= views);
}

fn emit_representations(out: &mut Vec<XmlWrite>, items: &Vec<ModelData>)
    ensures
        writes_view(final(out)@) == writes_view(old(out)@) + representations_block(representation_views(items@)),
{
    let ghost start = writes_view(out@);
    let ghost views = representation_views(items@);
    let mut i: usize = 0;
    assert(views.take(0) =~= Seq::<ModelDataView>::empty());
    assert(writes_view(out@) =~= start + representations_block(views.take(0)));
    while i < items.len()
        invariant
            i <= items@.len(),
            views == representation_views(items@),
            writes_view(out@) == start + representations_block(views.take(i as int)),
        decreases items@.len() - i,
    {
        assert(views.take(i + 1).drop_last() =~= views.take(i as int));
        assert(views.take(i + 1).last() == items@[i as int]@);
        emit_representation(out, &items[i]);
        assert(writes_view(out@) =~= start + representations_block(views.take(i + 1)));
        i = i + 1;
    }
    assert(views.take(i as int) =~= views);
}

fn emit_models(out: &mut Vec<XmlWrite>, items: &Vec<ApplicationModel>)
    ensures
        writes_view(final(out)@) == writes_view(old(out)@) + models_block(app_model_views(items@)),
{
    let ghost start = writes_view(out@);
    let ghost views = app_model_views(items@);
    let mut i: usize = 0;
    assert(views.take(0) =~= Seq::<ApplicationModelView>::empty());
    assert(writes_view(out@) =~= start + models_block(views.take(0)));
    while i < items.len()
        invariant
            i <= items@.len(),
            views == app_model_views(items@),
            writes_view(out@) == start + models_block(views.take(i as int)),
        decreases items@.len() - i,
    {
        assert(views.take(i + 1).drop_last() =~= views.take(i as int));
        assert(views.take(i + 1).last() == items@[i as int]@);
        emit_model(out, &items[i]);
        assert(writes_view(out@) =~= start + models_block(views.take(i + 1)));
        i = i + 1;
    }
    assert(views.take(i as int) =~= views);
}

fn emit_linkeds(out: &mut Vec<XmlWrite>, items: &Vec<String>)
    ensures
        writes_view(final(out)@) == writes_view(old(out)@) + linked_block(text_views(items@)),
{
    let ghost start = writes_view(out@);
    let ghost views = text_views(items@);
    let mut i: usize = 0;
    assert(views.take(0) =~= Seq::<Seq<char>>::empty());
    assert(writes_view(out@) =~= start + linked_block(views.take(0)));
    while i < items.len()
        invariant
            i <= items@.len(),
            views == text_views(items@),
            writes_view(out@) == start + linked_block(views.take(i as int)),
        decreases items@.len() - i,
    {
        assert(views.take(i + 1).drop_last() =~= views.take(i as int));
        assert(views.take(i + 1).last() == items@[i as int]@);
        emit_linked(out, &items[i]);
        assert(writes_view(out@) =~= start + linked_block(views.take(i + 1)));
        i = i + 1;
    }
    assert(views.take(i as int) =~= views);
}

fn emit_references(out: &mut Vec<XmlWrite>, items: &Vec<LinkModelReference>)
    ensures
        writes_view(final(out)@) == writes_view(old(out)@) + references_block(reference_views(items@)),
{
    let ghost start = writes_view(out@);
    let ghost views = reference_views(items@);
    let mut i: usize = 0;
    assert(views.take(0) =~= Seq::<LinkModelReferenceView>::empty());
    assert(writes_view(out@) =~= start + references_block(views.take(0)));
    while i < items.len()
        invariant
            i <= items@.len(),
            views == reference_views(items@),
            writes_view(out@) == start + references_block(views.take(i as int)),
        decreases items@.len() - i,
    {
        assert(views.take(i + 1).drop_last() =~= views.take(i as int));
        assert(views.take(i + 1).last() == items@[i as int]@);
        emit_reference(out, &items[i]);
        assert(writes_view(out@) =~= start + references_block(views.take(i + 1)));
        i = i + 1;
    }
    assert(views.take(i as int) =~= views);
}

fn emit_rates(out: &mut Vec<XmlWrite>, items: &Vec<Rate>)
    ensures
        writes_view(final(out)@) == writes_view(old(out)@) + rates_block(rate_views(items@)),
{
    let ghost start = writes_view(out@);
    let ghost views = rate_views(items@);
    let mut i: usize = 0;
    assert(views.take(0) =~= Seq::<RateView>::empty());
    assert(writes_view(out@) =~= start + rates_block(views.take(0)));
    while i < items.len()
        invariant
            i <= items@.len(),
            views == rate_views(items@),
            writes_view(out@) == start + rates_block(views.take(i as int)),
        decreases items@.len() - i,
    {
        assert(views.take(i + 1).drop_last() =~= views.take(i as int));
        assert(views.take(i + 1).last() == items@[i as int]@);
        emit_rate(out, &items[i]);
        assert(writes_view(out@) =~= start + rates_block(views.take(i + 1)));
        i = i + 1;
    }
    assert(views.take(i as int) =~= views);
}

fn emit_relata(out: &mut Vec<XmlWrite>, items: &Vec<Relatum>)
    ensures
        writes_view(final(out)@) == writes_view(old(out)@) + relata_block(relatum_views(items@)),
{
    let ghost start = writes_view(out@);
    let ghost views = relatum_views(items@);
    let mut i: usize = 0;
    assert(views.take(0) =~= Seq::<RelatumView>::empty());
    assert(writes_view(out@) =~= start + relata_block(views.take(0)));
    while i < items.len()
        invariant
            i <= items@.len(),
            views == relatum_views(items@),
            writes_view(out@) == start + relata_block(views.take(i as int)),
        decreases items@.len() - i,
    {
        assert(views.take(i + 1).drop_last() =~= views.take(i as int));
        assert(views.take(i + 1).last() == items@[i as int]@);
        emit_relatum(out, &items[i]);
        assert(writes_view(out@) =~= start + relata_block(views.take(i + 1)));
        i = i + 1;
    }
    assert(views.take(i as int) =~= views);
}

fn emit_links(out: &mut Vec<XmlWrite>, items: &Vec<Link>)
    ensures
        writes_view(final(out)@) == writes_view(old(out)@) + links_block(link_views(items@)),
{
    let ghost start = writes_view(out@);
    let ghost views = link_views(items@);
    let mut i: usize = 0;
    assert(views.take(0) =~= Seq::<LinkView>::empty());
    assert(writes_view(out@) =~= start + links_block(views.take(0)));
    while i < items.len()
        invariant
            i <= items@.len(),
            views == link_views(items@),
            writes_view(out@) == start + links_block(views.take(i as int)),
        decreases items@.len() - i,
    {
        assert(views.take(i + 1).drop_last() =~= views.take(i as int));
        assert(views.take(i + 1).last() == items@[i as int]@);
        emit_link(out, &items[i]);
        assert(writes_view(out@) =~= start + links_block(views.take(i + 1)));
        i = i + 1;
    }
    assert(views.take(i as int) =~= views);
}

fn one_attr(key: &str, value: &str) -> (r: Vec<(String, String)>)
    ensures
        attribute_views(r@) == seq![(key@, value@)],
{
    let mut r = no_attrs();
    push_attr(&mut r, key, value);
    assert(attribute_views(r@) =~= seq![(key@, value@)]);
    r
}

fn emit_resource(out: &mut Vec<XmlWrite>, r: &DataResource)
    ensures
        writes_view(final(out)@) == writes_view(old(out)@) + resource_block(r@),
{
    let ghost start = writes_view(out@);
    let attrs = two_attrs("id", r.id.as_str(), "location", location_string(&r.location));
    if r.metadata.len() == 0 {
        push_write(out, element("mmc:DataRessource", attrs, true));
    } else {
        push_write(out, element("mmc:DataRessource", attrs, false));
        emit_metadata(out, "mmc", &r.metadata, false);
        push_write(out, end_tag("mmc:DataRessource"));
    }
    assert(writes_view(out@) =~= start + resource_block(r@));
}

fn emit_representation(out: &mut Vec<XmlWrite>, d: &ModelData)
    ensures
        writes_view(final(out)@) == writes_view(old(out)@) + representation_block(d@),
{
    let ghost start = writes_view(out@);
    let mut attrs = two_attrs("id", d.id.as_str(), "formatType", d.format_type.as_str());
    push_opt_attr(&mut attrs, "formatVersion", &d.format_version);
    push_write(out, element("mmc:ModelData", attrs, false));
    emit_metadata(out, "mmc", &d.metadata, false);
    emit_resources(out, &d.resources);
    push_write(out, end_tag("mmc:ModelData"));
    assert(writes_view(out@) =~= start + representation_block(d@));
}

fn emit_model(out: &mut Vec<XmlWrite>, m: &ApplicationModel)
    ensures
        writes_view(final(out)@) == writes_view(old(out)@) + model_block(m@),
{
    let ghost start = writes_view(out@);
    let attrs = two_attrs("id", m.id.as_str(), "modelType", m.model_type.as_str());
    push_write(out, element("mmc:ApplicationModel", attrs, false));
    emit_metadata(out, "mmc", &m.metadata, false);
    emit_representations(out, &m.representations);
    push_write(out, end_tag("mmc:ApplicationModel"));
    assert(writes_view(out@) =~= start + model_block(m@));
}

fn emit_linked(out: &mut Vec<XmlWrite>, m: &String)
    ensures
        writes_view(final(out)@) == writes_view(old(out)@) + linked_item(m@),
{
    let ghost start = writes_view(out@);
    push_write(out, element("mmc:LinkedModel", no_attrs(), false));
    push_write(out, XmlWrite::Text(m.clone()));
    push_write(out, end_tag("mmc:LinkedModel"));
    assert(writes_view(out@) =~= start + linked_item(m@));
}

fn emit_reference(out: &mut Vec<XmlWrite>, l: &LinkModelReference)
    ensures
        writes_view(final(out)@) == writes_view(old(out)@) + reference_block(l@),
{
    let ghost start = writes_view(out@);
    let attrs = one_attr("location", location_string(&l.location));
    push_write(out, element("mmc:LinkModel", attrs, false));
    emit_metadata(out, "mmc", &l.metadata, false);
    emit_linkeds(out, &l.linked_models);
    push_write(out, end_tag("mmc:LinkModel"));
    assert(writes_view(out@) =~= start + reference_block(l@));
}

fn emit_rate(out: &mut Vec<XmlWrite>, t: &Rate)
    ensures
        writes_view(final(out)@) == writes_view(old(out)@) + rate_item(t@),
{
    let ghost start = writes_view(out@);
    let mut attrs = two_attrs("t", t.rate_type.as_str(), "v", t.value.as_str());
    push_attr(&mut attrs, "m", t.target_model.as_str());
    assert(attribute_views(attrs@) =~= seq![("t"@, t.rate_type@), ("v"@, t.value@), ("m"@, t.target_model@)]);
    push_write(out, element("link:Rate", attrs, true));
    assert(writes_view(out@) =~= start + rate_item(t@));
}

fn emit_relatum(out: &mut Vec<XmlWrite>, r: &Relatum)
    ensures
        writes_view(final(out)@) == writes_view(old(out)@) + relatum_block(r@),
{
    let ghost start = writes_view(out@);
    let mut attrs = two_attrs("id", r.element_id.as_str(), "m", r.model_id.as_str());
    push_opt_attr(&mut attrs, "f", &r.format_id);
    push_opt_attr(&mut attrs, "r", &r.resource_id);
    if r.metadata.len() == 0 && r.rates.len() == 0 {
        push_write(out, element("link:Relatum", attrs, true));
    } else {
        push_write(out, element("link:Relatum", attrs, false));
        emit_metadata(out, "link", &r.metadata, true);
        emit_rates(out, &r.rates);
        push_write(out, end_tag("link:Relatum"));
    }
    assert(writes_view(out@) =~= start + relatum_block(r@));
}

fn emit_link(out: &mut Vec<XmlWrite>, l: &Link)
    ensures
        writes_view(final(out)@) == writes_view(old(out)@) + link_block(l@),
{
    let ghost start = writes_view(out@);
    push_write(out, element("link:Link", no_attrs(), false));
    emit_metadata(out, "link", &l.metadata, true);
    emit_relata(out, &l.relata);
    push_write(out, end_tag("link:Link"));
    assert(writes_view(out@) =~= start + link_block(l@));
}

fn declaration() -> (e: XmlWrite)
    ensures
        e@ == WriteView::Decl("1.0"@, "UTF-8"@),
{
    XmlWrite::Decl { version: String::from_str("1.0"), encoding: String::from_str("UTF-8") }
}

/// The write events of `MultiModel.xml` for this metadata, these models and
/// these LinkModel references: exactly `multimodel_document`.
pub fn multimodel_events(
    metadata: &ContainerMetadata,
    models: &Vec<ApplicationModel>,
    references: &Vec<LinkModelReference>,
) -> (events: Vec<XmlWrite>)
    ensures
        writes_view(events@) == multimodel_document(metadata@, app_model_views(models@), reference_views(references@)),
{
    let mut out: Vec<XmlWrite> = Vec::new();
    assert(writes_view(out@) =~= Seq::<WriteView>::empty());
    push_write(&mut out, declaration());
    let uuid = uuid_string(metadata.uuid);
    let mut attrs = one_attr("xmlns:mmc", MMC_NAMESPACE);
    push_attr(&mut attrs, "uuid", uuid.as_str());
    push_attr(&mut attrs, "formatVersion", metadata.format_version.as_str());
    push_opt_attr(&mut attrs, "mmDomain", &metadata.mm_domain);
    assert(attribute_views(attrs@) =~= container_root_attributes(metadata@));
    push_write(&mut out, element("mmc:MultiModel", attrs, false));
    emit_metadata(&mut out, "mmc", &metadata.metadata, false);
    push_write(&mut out, element("mmc:ApplicationModels", no_attrs(), false));
    emit_models(&mut out, models);
    push_write(&mut out, end_tag("mmc:ApplicationModels"));
    let ghost before_links = writes_view(out@);
    if references.len() > 0 {
        push_write(&mut out, element("mmc:LinkModels", no_attrs(), false));
        emit_references(&mut out, references);
        push_write(&mut out, end_tag("mmc:LinkModels"));
    }
    assert(writes_view(out@) =~= before_links + (if references@.len() == 0 {
        Seq::<WriteView>::empty()
    } else {
        seq![WriteView::Element("mmc:LinkModels"@, Seq::empty(), false)] + references_block(reference_views(references@))
            + seq![WriteView::End("mmc:LinkModels"@)]
    }));
    push_write(&mut out, end_tag("mmc:MultiModel"));
    assert(writes_view(out@) =~= multimodel_document(metadata@, app_model_views(models@), reference_views(references@)));
    out
}

/// The write events of a LinkModel document: exactly `link_model_document`.
pub fn link_model_events(model: &LinkModel) -> (events: Vec<XmlWrite>)
    ensures
        writes_view(events@) == link_model_document(model@),
{
    let mut out: Vec<XmlWrite> = Vec::new();
    assert(writes_view(out@) =~= Seq::<WriteView>::empty());
    push_write(&mut out, declaration());
    let attrs = two_attrs("xmlns:link", LINK_MODEL_NAMESPACE, "formatVersion", model.format_version.as_str());
    push_write(&mut out, element("link:LinkModel", attrs, false));
    emit_metadata(&mut out, "link", &model.metadata, true);
    emit_links(&mut out, &model.links);
    push_write(&mut out, end_tag("link:LinkModel"));
    assert(writes_view(out@) =~= link_model_document(model@));
    out
}

/// Renders `MultiModel.xml` (see `multimodel_events`) with two-space
/// indentation; this always succeeds. Where the required values are present
/// and all text is plain (`container_ok`), the bytes read back as the
/// written element tree (`container_tree`).
pub fn serialize_multimodel(
    metadata: &ContainerMetadata,
    models: &Vec<ApplicationModel>,
    references: &Vec<LinkModelReference>,
) -> (r: Result<Vec<u8>, MmcError>)
    ensures
        r matches Ok(bytes) && bytes@ == xml_rendering(
            multimodel_document(metadata@, app_model_views(models@), reference_views(references@)),
            INDENT_CHAR,
            INDENT_SIZE,
        ),
        r matches Ok(bytes) ==> (container_ok(metadata@, app_model_views(models@), reference_views(references@))
            ==> reads_back(
            bytes@,
            document_reads(
                container_tree(metadata@, app_model_views(models@), reference_views(references@)),
                "mmc"@,
                MMC_NAMESPACE@,
                INDENT_CHAR,
                INDENT_SIZE,
            ),
        )),
{
    let events = multimodel_events(metadata, models, references);
    proof {
        lemma_container_tree(metadata@, app_model_views(models@), reference_views(references@));
        if container_ok(metadata@, app_model_views(models@), reference_views(references@)) {
            lemma_container_readable(metadata@, app_model_views(models@), reference_views(references@));
        }
    }
    match render_document(&events, INDENT_CHAR, INDENT_SIZE) {
        Ok(bytes) => Ok(bytes),
        Err(e) => Err(MmcError::Io(e)),
    }
}

/// Renders a LinkModel document (see `link_model_events`) with two-space
/// indentation; this always succeeds. Where the model's required values are
/// present and its text plain (`link_model_ok`), the bytes read back as the
/// written document (see `law_link_model_round_trip`).
pub fn serialize_link_model(model: &LinkModel) -> (r: Result<Vec<u8>, MmcError>)
    ensures
        r matches Ok(bytes) && bytes@ == xml_rendering(link_model_document(model@), INDENT_CHAR, INDENT_SIZE),
        r matches Ok(bytes) ==> (link_model_ok(model@) ==> reads_back(
            bytes@,
            document_reads(link_model_tree(model@), "link"@, LINK_MODEL_NAMESPACE@, INDENT_CHAR, INDENT_SIZE),
        )),
{
    let events = link_model_events(model);
    proof {
        lemma_link_model_tree(model@);
        if link_model_ok(model@) {
            lemma_link_model_readable(model@);
        }
    }
    match render_document(&events, INDENT_CHAR, INDENT_SIZE) {
        Ok(bytes) => Ok(bytes),
        Err(e) => Err(MmcError::Io(e)),
    }
}

} // verus!
