//! The element tree of `MultiModel.xml` as this library writes it, and the
//! conditions under which the writer's output reads back as that tree.

use vstd::prelude::*;

use crate::documents::{
    container_root_attributes, linked_block, linked_item, location_text, meta_attributes, model_block,
    models_block, multimodel_document, opt_attr, reference_block, references_block, representation_block,
    representations_block, resources_block, uuid_text, hex_digit,
};
use crate::model::{
    ApplicationModelView, ContainerMetadataView, DataResourceView, LinkModelReferenceView, LocationView, MetadataView,
    ModelDataView,
};
use crate::read_back::{
    escape_name, flatten, flatten_all, letters, local_of, plain_attributes, plain_value, qualified, readable_root,
    text_alone, tree_ok, trees_ok, XmlTree,
};
use crate::round_trip::{
    lemma_flatten_all_append, lemma_flatten_push, lemma_metadata_trees, lemma_text_alone_elements,
    lemma_trees_ok_append, lemma_trees_ok_push, meta_node, meta_nodes, meta_ok, metadata_trees,
};
use crate::xml_rules::has_uri_scheme;
use crate::xml_writer::WriteView;
use crate::MMC_NAMESPACE;

verus! {

pub open spec fn resource_node(r: DataResourceView) -> XmlTree {
    XmlTree::Element {
        name: "mmc:DataRessource"@,
        attributes: seq![("id"@, r.id), ("location"@, location_text(r.location))],
        empty: r.metadata.len() == 0,
        children: metadata_trees("mmc"@, r.metadata, false),
    }
}

pub open spec fn resource_nodes(s: Seq<DataResourceView>) -> Seq<XmlTree>
    decreases s.len(),
{
    if s.len() == 0 {
        Seq::empty()
    } else {
        resource_nodes(s.drop_last()).push(resource_node(s.last()))
    }
}

pub open spec fn representation_node(d: ModelDataView) -> XmlTree {
    XmlTree::Element {
        name: "mmc:ModelData"@,
        attributes: seq![("id"@, d.id), ("formatType"@, d.format_type)] + opt_attr("formatVersion"@, d.format_version),
        empty: false,
        children: metadata_trees("mmc"@, d.metadata, false) + resource_nodes(d.resources),
    }
}

pub open spec fn representation_nodes(s: Seq<ModelDataView>) -> Seq<XmlTree>
    decreases s.len(),
{
    if s.len() == 0 {
        Seq::empty()
    } else {
        representation_nodes(s.drop_last()).push(representation_node(s.last()))
    }
}

pub open spec fn model_node(m: ApplicationModelView) -> XmlTree {
    XmlTree::Element {
        name: "mmc:ApplicationModel"@,
        attributes: seq![("id"@, m.id), ("modelType"@, m.model_type)],
        empty: false,
        children: metadata_trees("mmc"@, m.metadata, false) + representation_nodes(m.representations),
    }
}

pub open spec fn model_nodes(s: Seq<ApplicationModelView>) -> Seq<XmlTree>
    decreases s.len(),
{
    if s.len() == 0 {
        Seq::empty()
    } else {
        model_nodes(s.drop_last()).push(model_node(s.last()))
    }
}

pub open spec fn linked_node(m: Seq<char>) -> XmlTree {
    XmlTree::Element {
        name: "mmc:LinkedModel"@,
        attributes: Seq::empty(),
        empty: false,
        children: seq![XmlTree::Text(m)],
    }
}

pub open spec fn linked_nodes(s: Seq<Seq<char>>) -> Seq<XmlTree>
    decreases s.len(),
{
    if s.len() == 0 {
        Seq::empty()
    } else {
        linked_nodes(s.drop_last()).push(linked_node(s.last()))
    }
}

pub open spec fn reference_node(l: LinkModelReferenceView) -> XmlTree {
    XmlTree::Element {
        name: "mmc:LinkModel"@,
        attributes: seq![("location"@, location_text(l.location))],
        empty: false,
        children: metadata_trees("mmc"@, l.metadata, false) + linked_nodes(l.linked_models),
    }
}

pub open spec fn reference_nodes(s: Seq<LinkModelReferenceView>) -> Seq<XmlTree>
    decreases s.len(),
{
    if s.len() == 0 {
        Seq::empty()
    } else {
        reference_nodes(s.drop_last()).push(reference_node(s.last()))
    }
}

/// The `ApplicationModels` collection.
pub open spec fn models_tree(models: Seq<ApplicationModelView>) -> XmlTree {
    XmlTree::Element {
        name: "mmc:ApplicationModels"@,
        attributes: Seq::empty(),
        empty: false,
        children: model_nodes(models),
    }
}

/// The `LinkModels` collection; nothing where there are no references.
pub open spec fn references_trees(refs: Seq<LinkModelReferenceView>) -> Seq<XmlTree> {
    if refs.len() == 0 {
        Seq::empty()
    } else {
        seq![
            XmlTree::Element {
                name: "mmc:LinkModels"@,
                attributes: Seq::empty(),
                empty: false,
                children: reference_nodes(refs),
            },
        ]
    }
}

/// The element tree of `MultiModel.xml`.
pub open spec fn container_tree(
    meta: ContainerMetadataView,
    models: Seq<ApplicationModelView>,
    refs: Seq<LinkModelReferenceView>,
) -> XmlTree {
    XmlTree::Element {
        name: "mmc:MultiModel"@,
        attributes: container_root_attributes(meta),
        empty: false,
        children: metadata_trees("mmc"@, meta.metadata, false) + seq![models_tree(models)] + references_trees(refs),
    }
}

proof fn lemma_resource_nodes(s: Seq<DataResourceView>)
    ensures
        flatten_all(resource_nodes(s)) == resources_block(s),
    decreases s.len(),
{
    if s.len() > 0 {
        lemma_resource_nodes(s.drop_last());
        lemma_flatten_push(resource_nodes(s.drop_last()), resource_node(s.last()));
        lemma_metadata_trees("mmc"@, s.last().metadata, false);
    }
}

proof fn lemma_representation_nodes(s: Seq<ModelDataView>)
    ensures
        flatten_all(representation_nodes(s)) == representations_block(s),
    decreases s.len(),
{
    if s.len() > 0 {
        lemma_representation_nodes(s.drop_last());
        lemma_flatten_push(representation_nodes(s.drop_last()), representation_node(s.last()));
        let d = s.last();
        lemma_metadata_trees("mmc"@, d.metadata, false);
        lemma_resource_nodes(d.resources);
        lemma_flatten_all_append(metadata_trees("mmc"@, d.metadata, false), resource_nodes(d.resources));
        assert(flatten(representation_node(d)) =~= representation_block(d));
    }
}

proof fn lemma_model_nodes(s: Seq<ApplicationModelView>)
    ensures
        flatten_all(model_nodes(s)) == models_block(s),
    decreases s.len(),
{
    if s.len() > 0 {
        lemma_model_nodes(s.drop_last());
        lemma_flatten_push(model_nodes(s.drop_last()), model_node(s.last()));
        let m = s.last();
        lemma_metadata_trees("mmc"@, m.metadata, false);
        lemma_representation_nodes(m.representations);
        lemma_flatten_all_append(metadata_trees("mmc"@, m.metadata, false), representation_nodes(m.representations));
        assert(flatten(model_node(m)) =~= model_block(m));
    }
}

proof fn lemma_linked_nodes(s: Seq<Seq<char>>)
    ensures
        flatten_all(linked_nodes(s)) == linked_block(s),
    decreases s.len(),
{
    if s.len() > 0 {
        lemma_linked_nodes(s.drop_last());
        lemma_flatten_push(linked_nodes(s.drop_last()), linked_node(s.last()));
        let t = seq![XmlTree::Text(s.last())];
        assert(t.drop_last() =~= Seq::<XmlTree>::empty());
        assert(flatten_all(Seq::<XmlTree>::empty()) =~= Seq::<WriteView>::empty());
        assert(t.last() == XmlTree::Text(s.last()));
        assert(flatten(XmlTree::Text(s.last())) == seq![WriteView::Text(s.last())]);
        assert(flatten_all(t) == flatten_all(t.drop_last()) + flatten(t.last()));
        assert(flatten_all(t) =~= seq![WriteView::Text(s.last())]);
        assert(flatten(linked_node(s.last())) =~= linked_item(s.last()));
    }
}

proof fn lemma_reference_nodes(s: Seq<LinkModelReferenceView>)
    ensures
        flatten_all(reference_nodes(s)) == references_block(s),
    decreases s.len(),
{
    if s.len() > 0 {
        lemma_reference_nodes(s.drop_last());
        lemma_flatten_push(reference_nodes(s.drop_last()), reference_node(s.last()));
        let l = s.last();
        lemma_metadata_trees("mmc"@, l.metadata, false);
        lemma_linked_nodes(l.linked_models);
        lemma_flatten_all_append(metadata_trees("mmc"@, l.metadata, false), linked_nodes(l.linked_models));
        assert(flatten(reference_node(l)) =~= reference_block(l));
    }
}

/// `MultiModel.xml` is its declaration and the flattened tree.
pub proof fn lemma_container_tree(
    meta: ContainerMetadataView,
    models: Seq<ApplicationModelView>,
    refs: Seq<LinkModelReferenceView>,
)
    ensures
        multimodel_document(meta, models, refs) == seq![WriteView::Decl("1.0"@, "UTF-8"@)] + flatten(
            container_tree(meta, models, refs),
        ),
{
    let md = metadata_trees("mmc"@, meta.metadata, false);
    let rt = references_trees(refs);
    lemma_metadata_trees("mmc"@, meta.metadata, false);
    lemma_model_nodes(models);
    lemma_reference_nodes(refs);
    lemma_flatten_all_append(md + seq![models_tree(models)], rt);
    lemma_flatten_push(md, models_tree(models));
    assert(md + seq![models_tree(models)] =~= md.push(models_tree(models)));
    if refs.len() > 0 {
        assert(rt.drop_last() =~= Seq::<XmlTree>::empty());
        assert(flatten_all(Seq::<XmlTree>::empty()) =~= Seq::<WriteView>::empty());
        assert(rt.last() == rt[0]);
        assert(flatten_all(rt) =~= flatten(rt[0]));
    } else {
        assert(flatten_all(rt) =~= Seq::<WriteView>::empty());
    }
    assert(multimodel_document(meta, models, refs) =~= seq![WriteView::Decl("1.0"@, "UTF-8"@)] + flatten(
        container_tree(meta, models, refs),
    ));
}

/// A data resource the container parser reads back: id and location
/// present and plain, the location's kind the one its text is classified
/// as, and its metadata as `meta_ok` asks.
pub open spec fn resource_ok(r: DataResourceView) -> bool {
    &&& r.id.len() > 0 && plain_value(r.id)
    &&& location_text(r.location).len() > 0 && plain_value(location_text(r.location))
    &&& (r.location matches LocationView::External(u) ==> has_uri_scheme(u))
    &&& (r.location matches LocationView::Embedded(p) ==> !has_uri_scheme(p))
    &&& forall|i: int| 0 <= i < r.metadata.len() ==> meta_ok(#[trigger] r.metadata[i])
}

/// A model representation the container parser reads back.
pub open spec fn representation_ok(d: ModelDataView) -> bool {
    &&& d.id.len() > 0 && plain_value(d.id)
    &&& d.format_type.len() > 0 && plain_value(d.format_type)
    &&& (d.format_version matches Some(v) ==> plain_value(v))
    &&& forall|i: int| 0 <= i < d.metadata.len() ==> meta_ok(#[trigger] d.metadata[i])
    &&& forall|i: int| 0 <= i < d.resources.len() ==> resource_ok(#[trigger] d.resources[i])
}

/// An application model the container parser reads back.
pub open spec fn model_ok(m: ApplicationModelView) -> bool {
    &&& m.id.len() > 0 && plain_value(m.id)
    &&& m.model_type.len() > 0 && plain_value(m.model_type)
    &&& forall|i: int| 0 <= i < m.metadata.len() ==> meta_ok(#[trigger] m.metadata[i])
    &&& forall|i: int| 0 <= i < m.representations.len() ==> representation_ok(#[trigger] m.representations[i])
}

/// A LinkModel reference the container parser reads back.
pub open spec fn reference_ok(l: LinkModelReferenceView) -> bool {
    &&& location_text(l.location).len() > 0 && plain_value(location_text(l.location))
    &&& (l.location matches LocationView::External(u) ==> has_uri_scheme(u))
    &&& (l.location matches LocationView::Embedded(p) ==> !has_uri_scheme(p))
    &&& forall|i: int| 0 <= i < l.metadata.len() ==> meta_ok(#[trigger] l.metadata[i])
    &&& forall|i: int| 0 <= i < l.linked_models.len() ==> plain_value(#[trigger] l.linked_models[i])
}

/// A container the parser reads back: a format version, a plain domain
/// where there is one, and metadata, models and references as above.
pub open spec fn container_ok(
    meta: ContainerMetadataView,
    models: Seq<ApplicationModelView>,
    refs: Seq<LinkModelReferenceView>,
) -> bool {
    &&& meta.format_version.len() > 0 && plain_value(meta.format_version)
    &&& (meta.mm_domain matches Some(d) ==> plain_value(d))
    &&& forall|i: int| 0 <= i < meta.metadata.len() ==> meta_ok(#[trigger] meta.metadata[i])
    &&& forall|i: int| 0 <= i < models.len() ==> model_ok(#[trigger] models[i])
    &&& forall|i: int| 0 <= i < refs.len() ==> reference_ok(#[trigger] refs[i])
}

/// The hexadecimal form of a UUID is plain text.
pub proof fn lemma_uuid_plain(v: u128)
    ensures
        plain_value(uuid_text(v)),
        uuid_text(v).len() == 36,
{
    let t = uuid_text(v);
    assert forall|i: int| 0 <= i < t.len() implies crate::xml_rules::is_xml_char(#[trigger] t[i]) && t[i] != '\t'
        && t[i] != '\n' && t[i] != '\r' by {
        if !(i == 8 || i == 13 || i == 18 || i == 23) {
            let j = i - if i < 8 {
                0int
            } else if i < 13 {
                1int
            } else if i < 18 {
                2int
            } else if i < 23 {
                3int
            } else {
                4int
            };
            let d = (v as int / vstd::arithmetic::power::pow(16, (31 - j) as nat)) % 16;
            assert(0 <= d < 16);
            assert(t[i] == hex_digit(d));
            if d < 10 {
                assert(((d + 48) as char) as int == d + 48);
            } else {
                assert(((d + 87) as char) as int == d + 87);
            }
        }
    }
}

pub proof fn lemma_mmc_literals()
    ensures
        letters("mmc"@),
        "xmlns:"@ + "mmc"@ == "xmlns:mmc"@,
        "mmc"@ + ":Meta"@ == "mmc:Meta"@,
        "mmc"@ + ":MetaData"@ == "mmc:MetaData"@,
        qualified("mmc:MultiModel"@, "mmc"@),
        qualified("mmc:MetaData"@, "mmc"@),
        qualified("mmc:Meta"@, "mmc"@),
        qualified("mmc:ApplicationModels"@, "mmc"@),
        qualified("mmc:ApplicationModel"@, "mmc"@),
        qualified("mmc:ModelData"@, "mmc"@),
        qualified("mmc:DataRessource"@, "mmc"@),
        qualified("mmc:LinkModels"@, "mmc"@),
        qualified("mmc:LinkModel"@, "mmc"@),
        qualified("mmc:LinkedModel"@, "mmc"@),
        local_of("mmc:MultiModel"@, "mmc"@) == "MultiModel"@,
        local_of("mmc:MetaData"@, "mmc"@) == "MetaData"@,
        local_of("mmc:Meta"@, "mmc"@) == "Meta"@,
        local_of("mmc:ApplicationModels"@, "mmc"@) == "ApplicationModels"@,
        local_of("mmc:ApplicationModel"@, "mmc"@) == "ApplicationModel"@,
        local_of("mmc:ModelData"@, "mmc"@) == "ModelData"@,
        local_of("mmc:DataRessource"@, "mmc"@) == "DataRessource"@,
        local_of("mmc:LinkModels"@, "mmc"@) == "LinkModels"@,
        local_of("mmc:LinkModel"@, "mmc"@) == "LinkModel"@,
        local_of("mmc:LinkedModel"@, "mmc"@) == "LinkedModel"@,
        letters("key"@) && "key"@ != "xmlns"@,
        letters("value"@) && "value"@ != "xmlns"@,
        letters("type"@) && "type"@ != "xmlns"@,
        letters("category"@) && "category"@ != "xmlns"@,
        letters("id"@) && "id"@ != "xmlns"@,
        letters("location"@) && "location"@ != "xmlns"@,
        letters("formatType"@) && "formatType"@ != "xmlns"@,
        letters("formatVersion"@) && "formatVersion"@ != "xmlns"@,
        letters("modelType"@) && "modelType"@ != "xmlns"@,
        letters("uuid"@) && "uuid"@ != "xmlns"@,
        letters("mmDomain"@) && "mmDomain"@ != "xmlns"@,
        "formatType"@ != "formatVersion"@,
        "formatVersion"@ != "mmDomain"@,
        "id"@ != "formatType"@,
        "id"@ != "formatVersion"@,
        "id"@ != "location"@,
        "id"@ != "modelType"@,
        "key"@ != "category"@,
        "key"@ != "type"@,
        "key"@ != "value"@,
        "type"@ != "category"@,
        "uuid"@ != "formatVersion"@,
        "uuid"@ != "mmDomain"@,
        "value"@ != "category"@,
        "value"@ != "type"@,
{
    reveal_strlit(":Meta");
    reveal_strlit(":MetaData");
    reveal_strlit("ApplicationModel");
    reveal_strlit("ApplicationModels");
    reveal_strlit("DataRessource");
    reveal_strlit("LinkModel");
    reveal_strlit("LinkModels");
    reveal_strlit("LinkedModel");
    reveal_strlit("Meta");
    reveal_strlit("MetaData");
    reveal_strlit("ModelData");
    reveal_strlit("MultiModel");
    reveal_strlit("category");
    reveal_strlit("formatType");
    reveal_strlit("formatVersion");
    reveal_strlit("id");
    reveal_strlit("key");
    reveal_strlit("location");
    reveal_strlit("mmDomain");
    reveal_strlit("mmc");
    reveal_strlit("mmc:ApplicationModel");
    reveal_strlit("mmc:ApplicationModels");
    reveal_strlit("mmc:DataRessource");
    reveal_strlit("mmc:LinkModel");
    reveal_strlit("mmc:LinkModels");
    reveal_strlit("mmc:LinkedModel");
    reveal_strlit("mmc:Meta");
    reveal_strlit("mmc:MetaData");
    reveal_strlit("mmc:ModelData");
    reveal_strlit("mmc:MultiModel");
    reveal_strlit("modelType");
    reveal_strlit("type");
    reveal_strlit("uuid");
    reveal_strlit("value");
    reveal_strlit("xmlns");
    reveal_strlit("xmlns:");
    reveal_strlit("xmlns:mmc");
    assert("xmlns:"@ + "mmc"@ =~= "xmlns:mmc"@);
    assert("mmc"@ + ":Meta"@ =~= "mmc:Meta"@);
    assert("mmc"@ + ":MetaData"@ =~= "mmc:MetaData"@);
    assert("mmc:MultiModel"@.take(3) =~= "mmc"@);
    assert(local_of("mmc:MultiModel"@, "mmc"@) =~= "MultiModel"@);
    assert("mmc:MetaData"@.take(3) =~= "mmc"@);
    assert(local_of("mmc:MetaData"@, "mmc"@) =~= "MetaData"@);
    assert("mmc:Meta"@.take(3) =~= "mmc"@);
    assert(local_of("mmc:Meta"@, "mmc"@) =~= "Meta"@);
    assert("mmc:ApplicationModels"@.take(3) =~= "mmc"@);
    assert(local_of("mmc:ApplicationModels"@, "mmc"@) =~= "ApplicationModels"@);
    assert("mmc:ApplicationModel"@.take(3) =~= "mmc"@);
    assert(local_of("mmc:ApplicationModel"@, "mmc"@) =~= "ApplicationModel"@);
    assert("mmc:ModelData"@.take(3) =~= "mmc"@);
    assert(local_of("mmc:ModelData"@, "mmc"@) =~= "ModelData"@);
    assert("mmc:DataRessource"@.take(3) =~= "mmc"@);
    assert(local_of("mmc:DataRessource"@, "mmc"@) =~= "DataRessource"@);
    assert("mmc:LinkModels"@.take(3) =~= "mmc"@);
    assert(local_of("mmc:LinkModels"@, "mmc"@) =~= "LinkModels"@);
    assert("mmc:LinkModel"@.take(3) =~= "mmc"@);
    assert(local_of("mmc:LinkModel"@, "mmc"@) =~= "LinkModel"@);
    assert("mmc:LinkedModel"@.take(3) =~= "mmc"@);
    assert(local_of("mmc:LinkedModel"@, "mmc"@) =~= "LinkedModel"@);
    assert("formatType"@.len() != "formatVersion"@.len());
    assert("formatVersion"@.len() != "mmDomain"@.len());
    assert("id"@.len() != "formatType"@.len());
    assert("id"@.len() != "formatVersion"@.len());
    assert("id"@.len() != "location"@.len());
    assert("id"@.len() != "modelType"@.len());
    assert("key"@.len() != "category"@.len());
    assert("key"@.len() != "type"@.len());
    assert("key"@.len() != "value"@.len());
    assert("type"@.len() != "category"@.len());
    assert("uuid"@.len() != "formatVersion"@.len());
    assert("uuid"@.len() != "mmDomain"@.len());
    assert("value"@.len() != "category"@.len());
    assert("value"@.len() != "type"@.len());
    assert("key"@.len() != "xmlns"@.len());
    assert("value"@[0] != "xmlns"@[0]);
    assert("type"@.len() != "xmlns"@.len());
    assert("category"@.len() != "xmlns"@.len());
    assert("id"@.len() != "xmlns"@.len());
    assert("location"@.len() != "xmlns"@.len());
    assert("formatType"@.len() != "xmlns"@.len());
    assert("formatVersion"@.len() != "xmlns"@.len());
    assert("modelType"@.len() != "xmlns"@.len());
    assert("uuid"@.len() != "xmlns"@.len());
    assert("mmDomain"@.len() != "xmlns"@.len());
}

/// Every tree is an element.
pub open spec fn all_elements(cs: Seq<XmlTree>) -> bool {
    forall|i: int| 0 <= i < cs.len() ==> (#[trigger] cs[i]) is Element
}

proof fn lemma_all_elements_append(a: Seq<XmlTree>, b: Seq<XmlTree>)
    requires
        all_elements(a),
        all_elements(b),
    ensures
        all_elements(a + b),
{
    assert forall|i: int| 0 <= i < (a + b).len() implies (#[trigger] (a + b)[i]) is Element by {
        if i < a.len() {
            assert((a + b)[i] == a[i]);
        } else {
            assert((a + b)[i] == b[i - a.len()]);
        }
    }
}

proof fn lemma_all_elements_push(a: Seq<XmlTree>, t: XmlTree)
    requires
        all_elements(a),
        t is Element,
    ensures
        all_elements(a.push(t)),
{
    assert forall|i: int| 0 <= i < a.push(t).len() implies (#[trigger] a.push(t)[i]) is Element by {
        if i < a.len() {
            assert(a.push(t)[i] == a[i]);
        }
    }
}

pub proof fn lemma_mmc_meta_plain(item: MetadataView)
    requires
        meta_ok(item),
    ensures
        plain_attributes(meta_attributes(item, false)),
{
    lemma_mmc_literals();
    let a = meta_attributes(item, false);
    assert forall|i: int, j: int| 0 <= i < j < a.len() implies #[trigger] a[i].0 != #[trigger] a[j].0 by {}
}

proof fn lemma_mmc_meta_nodes_ok(items: Seq<MetadataView>)
    requires
        forall|i: int| 0 <= i < items.len() ==> meta_ok(#[trigger] items[i]),
    ensures
        trees_ok(meta_nodes("mmc"@, items, false), "mmc"@),
        all_elements(meta_nodes("mmc"@, items, false)),
    decreases items.len(),
{
    if items.len() > 0 {
        let init = items.drop_last();
        assert forall|i: int| 0 <= i < init.len() implies meta_ok(#[trigger] init[i]) by {
            assert(init[i] == items[i]);
        }
        lemma_mmc_meta_nodes_ok(init);
        lemma_mmc_literals();
        lemma_mmc_meta_plain(items.last());
        let t = meta_node("mmc"@, items.last(), false);
        assert(trees_ok(Seq::<XmlTree>::empty(), "mmc"@));
        assert(tree_ok(t, "mmc"@));
        lemma_trees_ok_push(meta_nodes("mmc"@, init, false), t, "mmc"@);
        lemma_all_elements_push(meta_nodes("mmc"@, init, false), t);
    }
}

proof fn lemma_mmc_metadata_trees_ok(items: Seq<MetadataView>)
    requires
        forall|i: int| 0 <= i < items.len() ==> meta_ok(#[trigger] items[i]),
    ensures
        trees_ok(metadata_trees("mmc"@, items, false), "mmc"@),
        all_elements(metadata_trees("mmc"@, items, false)),
{
    if items.len() > 0 {
        lemma_mmc_literals();
        lemma_mmc_meta_nodes_ok(items);
        lemma_text_alone_elements(meta_nodes("mmc"@, items, false));
        let t = metadata_trees("mmc"@, items, false)[0];
        assert(plain_attributes(Seq::<(Seq<char>, Seq<char>)>::empty()));
        assert(tree_ok(t, "mmc"@));
        lemma_trees_ok_push(Seq::empty(), t, "mmc"@);
        assert(Seq::<XmlTree>::empty().push(t) =~= metadata_trees("mmc"@, items, false));
    } else {
        assert(metadata_trees("mmc"@, items, false) =~= Seq::<XmlTree>::empty());
    }
}

/// Children that are all elements, each as `tree_ok` asks.
proof fn lemma_children_ok(a: Seq<XmlTree>, b: Seq<XmlTree>)
    requires
        trees_ok(a, "mmc"@),
        trees_ok(b, "mmc"@),
        all_elements(a),
        all_elements(b),
    ensures
        trees_ok(a + b, "mmc"@),
        text_alone(a + b),
        all_elements(a + b),
{
    lemma_trees_ok_append(a, b, "mmc"@);
    lemma_all_elements_append(a, b);
    lemma_text_alone_elements(a + b);
}

proof fn lemma_resource_nodes_ok(s: Seq<DataResourceView>)
    requires
        forall|i: int| 0 <= i < s.len() ==> resource_ok(#[trigger] s[i]),
    ensures
        trees_ok(resource_nodes(s), "mmc"@),
        all_elements(resource_nodes(s)),
    decreases s.len(),
{
    if s.len() > 0 {
        let init = s.drop_last();
        assert forall|i: int| 0 <= i < init.len() implies resource_ok(#[trigger] init[i]) by {
            assert(init[i] == s[i]);
        }
        lemma_resource_nodes_ok(init);
        lemma_mmc_literals();
        let r = s.last();
        lemma_mmc_metadata_trees_ok(r.metadata);
        lemma_text_alone_elements(metadata_trees("mmc"@, r.metadata, false));
        let a = seq![("id"@, r.id), ("location"@, location_text(r.location))];
        assert forall|i: int, j: int| 0 <= i < j < a.len() implies #[trigger] a[i].0 != #[trigger] a[j].0 by {}
        assert(plain_attributes(a));
        if r.metadata.len() == 0 {
            assert(metadata_trees("mmc"@, r.metadata, false) =~= Seq::<XmlTree>::empty());
        }
        assert(tree_ok(resource_node(r), "mmc"@));
        lemma_trees_ok_push(resource_nodes(init), resource_node(r), "mmc"@);
        lemma_all_elements_push(resource_nodes(init), resource_node(r));
    }
}

proof fn lemma_representation_nodes_ok(s: Seq<ModelDataView>)
    requires
        forall|i: int| 0 <= i < s.len() ==> representation_ok(#[trigger] s[i]),
    ensures
        trees_ok(representation_nodes(s), "mmc"@),
        all_elements(representation_nodes(s)),
    decreases s.len(),
{
    if s.len() > 0 {
        let init = s.drop_last();
        assert forall|i: int| 0 <= i < init.len() implies representation_ok(#[trigger] init[i]) by {
            assert(init[i] == s[i]);
        }
        lemma_representation_nodes_ok(init);
        lemma_mmc_literals();
        let d = s.last();
        lemma_mmc_metadata_trees_ok(d.metadata);
        lemma_resource_nodes_ok(d.resources);
        lemma_children_ok(metadata_trees("mmc"@, d.metadata, false), resource_nodes(d.resources));
        let a = seq![("id"@, d.id), ("formatType"@, d.format_type)] + opt_attr("formatVersion"@, d.format_version);
        assert forall|i: int, j: int| 0 <= i < j < a.len() implies #[trigger] a[i].0 != #[trigger] a[j].0 by {}
        assert(plain_attributes(a));
        assert(tree_ok(representation_node(d), "mmc"@));
        lemma_trees_ok_push(representation_nodes(init), representation_node(d), "mmc"@);
        lemma_all_elements_push(representation_nodes(init), representation_node(d));
    }
}

proof fn lemma_model_nodes_ok(s: Seq<ApplicationModelView>)
    requires
        forall|i: int| 0 <= i < s.len() ==> model_ok(#[trigger] s[i]),
    ensures
        trees_ok(model_nodes(s), "mmc"@),
        all_elements(model_nodes(s)),
    decreases s.len(),
{
    if s.len() > 0 {
        let init = s.drop_last();
        assert forall|i: int| 0 <= i < init.len() implies model_ok(#[trigger] init[i]) by {
            assert(init[i] == s[i]);
        }
        lemma_model_nodes_ok(init);
        lemma_mmc_literals();
        let m = s.last();
        lemma_mmc_metadata_trees_ok(m.metadata);
        lemma_representation_nodes_ok(m.representations);
        lemma_children_ok(metadata_trees("mmc"@, m.metadata, false), representation_nodes(m.representations));
        let a = seq![("id"@, m.id), ("modelType"@, m.model_type)];
        assert forall|i: int, j: int| 0 <= i < j < a.len() implies #[trigger] a[i].0 != #[trigger] a[j].0 by {}
        assert(plain_attributes(a));
        assert(tree_ok(model_node(m), "mmc"@));
        lemma_trees_ok_push(model_nodes(init), model_node(m), "mmc"@);
        lemma_all_elements_push(model_nodes(init), model_node(m));
    }
}

proof fn lemma_linked_nodes_ok(s: Seq<Seq<char>>)
    requires
        forall|i: int| 0 <= i < s.len() ==> plain_value(#[trigger] s[i]),
    ensures
        trees_ok(linked_nodes(s), "mmc"@),
        all_elements(linked_nodes(s)),
    decreases s.len(),
{
    if s.len() > 0 {
        let init = s.drop_last();
        assert forall|i: int| 0 <= i < init.len() implies plain_value(#[trigger] init[i]) by {
            assert(init[i] == s[i]);
        }
        lemma_linked_nodes_ok(init);
        lemma_mmc_literals();
        let cs = seq![XmlTree::Text(s.last())];
        assert(cs.drop_last() =~= Seq::<XmlTree>::empty());
        assert(trees_ok(Seq::<XmlTree>::empty(), "mmc"@));
        assert(tree_ok(cs.last(), "mmc"@));
        assert(trees_ok(cs, "mmc"@));
        assert(text_alone(cs));
        assert(plain_attributes(Seq::<(Seq<char>, Seq<char>)>::empty()));
        assert(tree_ok(linked_node(s.last()), "mmc"@));
        lemma_trees_ok_push(linked_nodes(init), linked_node(s.last()), "mmc"@);
        lemma_all_elements_push(linked_nodes(init), linked_node(s.last()));
    }
}

proof fn lemma_reference_nodes_ok(s: Seq<LinkModelReferenceView>)
    requires
        forall|i: int| 0 <= i < s.len() ==> reference_ok(#[trigger] s[i]),
    ensures
        trees_ok(reference_nodes(s), "mmc"@),
        all_elements(reference_nodes(s)),
    decreases s.len(),
{
    if s.len() > 0 {
        let init = s.drop_last();
        assert forall|i: int| 0 <= i < init.len() implies reference_ok(#[trigger] init[i]) by {
            assert(init[i] == s[i]);
        }
        lemma_reference_nodes_ok(init);
        lemma_mmc_literals();
        let l = s.last();
        lemma_mmc_metadata_trees_ok(l.metadata);
        lemma_linked_nodes_ok(l.linked_models);
        lemma_children_ok(metadata_trees("mmc"@, l.metadata, false), linked_nodes(l.linked_models));
        let a = seq![("location"@, location_text(l.location))];
        assert(plain_attributes(a));
        assert(tree_ok(reference_node(l), "mmc"@));
        lemma_trees_ok_push(reference_nodes(init), reference_node(l), "mmc"@);
        lemma_all_elements_push(reference_nodes(init), reference_node(l));
    }
}

/// The container namespace is plain text that needs no escaping.
proof fn lemma_mmc_namespace_plain()
    ensures
        MMC_NAMESPACE@.len() > 0,
        plain_value(MMC_NAMESPACE@),
        forall|i: int| 0 <= i < MMC_NAMESPACE@.len() ==> escape_name(#[trigger] MMC_NAMESPACE@[i]) is None,
{
    reveal_strlit("http://www.buildingsmart.org/multi-model/MMContainer/2.0.0");
    assert(MMC_NAMESPACE@ == "http://www.buildingsmart.org/multi-model/MMContainer/2.0.0"@);
}

/// The tree of a container the parser reads back is one the writer's
/// output can be read back from.
pub proof fn lemma_container_readable(
    meta: ContainerMetadataView,
    models: Seq<ApplicationModelView>,
    refs: Seq<LinkModelReferenceView>,
)
    requires
        container_ok(meta, models, refs),
    ensures
        readable_root(container_tree(meta, models, refs), "mmc"@, MMC_NAMESPACE@),
{
    lemma_mmc_literals();
    lemma_mmc_namespace_plain();
    lemma_uuid_plain(meta.uuid);
    lemma_mmc_metadata_trees_ok(meta.metadata);
    lemma_model_nodes_ok(models);
    lemma_reference_nodes_ok(refs);
    lemma_text_alone_elements(model_nodes(models));
    assert(plain_attributes(Seq::<(Seq<char>, Seq<char>)>::empty()));
    let mt = models_tree(models);
    assert(tree_ok(mt, "mmc"@));
    let one = seq![mt];
    assert(one.drop_last() =~= Seq::<XmlTree>::empty());
    assert(trees_ok(Seq::<XmlTree>::empty(), "mmc"@));
    assert(trees_ok(one, "mmc"@));
    lemma_all_elements_push(Seq::empty(), mt);
    assert(Seq::<XmlTree>::empty().push(mt) =~= one);
    let rt = references_trees(refs);
    if refs.len() > 0 {
        lemma_text_alone_elements(reference_nodes(refs));
        assert(tree_ok(rt[0], "mmc"@));
        lemma_trees_ok_push(Seq::empty(), rt[0], "mmc"@);
        lemma_all_elements_push(Seq::empty(), rt[0]);
        assert(Seq::<XmlTree>::empty().push(rt[0]) =~= rt);
    } else {
        assert(rt =~= Seq::<XmlTree>::empty());
    }
    let md = metadata_trees("mmc"@, meta.metadata, false);
    lemma_children_ok(md, one);
    lemma_children_ok(md + one, rt);
    let attrs = container_root_attributes(meta);
    let rest = attrs.skip(1);
    assert(rest =~= seq![("uuid"@, uuid_text(meta.uuid)), ("formatVersion"@, meta.format_version)] + opt_attr(
        "mmDomain"@,
        meta.mm_domain,
    ));
    assert forall|i: int, j: int| 0 <= i < j < rest.len() implies #[trigger] rest[i].0 != #[trigger] rest[j].0 by {}
    assert(plain_attributes(rest));
}


pub proof fn lemma_mmc_literal_meta()
    ensures
        "mmc"@ + ":Meta"@ == "mmc:Meta"@,
        "mmc"@ + ":MetaData"@ == "mmc:MetaData"@,
        local_of("mmc:Meta"@, "mmc"@) == "Meta"@,
        local_of("mmc:MetaData"@, "mmc"@) == "MetaData"@,
{
    lemma_mmc_literals();
}


pub proof fn lemma_resource_nodes_elements(s: Seq<DataResourceView>)
    ensures
        all_elements(resource_nodes(s)),
    decreases s.len(),
{
    if s.len() > 0 {
        lemma_resource_nodes_elements(s.drop_last());
        lemma_all_elements_push(resource_nodes(s.drop_last()), resource_node(s.last()));
    }
}

pub proof fn lemma_representation_nodes_elements(s: Seq<ModelDataView>)
    ensures
        all_elements(representation_nodes(s)),
    decreases s.len(),
{
    if s.len() > 0 {
        lemma_representation_nodes_elements(s.drop_last());
        lemma_all_elements_push(representation_nodes(s.drop_last()), representation_node(s.last()));
    }
}

pub proof fn lemma_model_nodes_elements(s: Seq<ApplicationModelView>)
    ensures
        all_elements(model_nodes(s)),
    decreases s.len(),
{
    if s.len() > 0 {
        lemma_model_nodes_elements(s.drop_last());
        lemma_all_elements_push(model_nodes(s.drop_last()), model_node(s.last()));
    }
}

pub proof fn lemma_linked_nodes_elements(s: Seq<Seq<char>>)
    ensures
        all_elements(linked_nodes(s)),
    decreases s.len(),
{
    if s.len() > 0 {
        lemma_linked_nodes_elements(s.drop_last());
        lemma_all_elements_push(linked_nodes(s.drop_last()), linked_node(s.last()));
    }
}

pub proof fn lemma_reference_nodes_elements(s: Seq<LinkModelReferenceView>)
    ensures
        all_elements(reference_nodes(s)),
    decreases s.len(),
{
    if s.len() > 0 {
        lemma_reference_nodes_elements(s.drop_last());
        lemma_all_elements_push(reference_nodes(s.drop_last()), reference_node(s.last()));
    }
}

} // verus!
