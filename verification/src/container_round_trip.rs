//! The proof that parsing a written `MultiModel.xml` gives the container
//! back: the container parser run over the events read from the written
//! element tree (`container_tree`).

use vstd::prelude::*;

use crate::container_tree::{
    all_elements, container_ok, container_tree, linked_node, linked_nodes, model_node, model_nodes, model_ok,
    models_tree, reference_node, reference_nodes, reference_ok, references_trees, representation_node,
    representation_nodes, representation_ok, resource_node, resource_nodes, resource_ok,
};
use crate::documents::{container_root_attributes, location_text, meta_attributes, opt_attr, uuid_text};
use crate::error::ParseFault;
use crate::limits::Limits;
use crate::model::{
    ApplicationModelView, ContainerMetadataView, DataResourceView, LinkModelReferenceView, MetadataView,
    ModelDataView, MultiModelView,
};
use crate::multimodel_xml::{
    container_attributes, mm_handle_start, mm_initial, mm_run, mm_step, mmc_meta, multimodel_outcome,
    multimodel_parse_result, uuid_parse, xml_source_fault, MultiModelParse,
};
use crate::read_back::{
    attribute_read, attribute_reads, document_reads, escape_name, indent, letters, local_of, plain_attributes,
    plain_value, reads_back, text_reads, text_reads_from, tree_reads, trees_reads, XmlTree,
};
use crate::round_trip::{
    lemma_attr_get, lemma_attribute_map_plain, lemma_plain_reads_append, lemma_stream, lemma_tree_reads_plain,
    lemma_trees_reads_append, meta_node, meta_nodes, meta_ok, metadata_trees, plain_reads,
};
use crate::xml_events::{AttributeView, EventView, NamespaceView};
use crate::xml_rules::{
    all_xml_chars, attr_get, attribute_map, blank, classify_location, extension_ancestor, path_ends,
    reference_value, valid_multimodel_path,
};
use crate::MMC_NAMESPACE;

verus! {

/// The container parser run over `events` from the state `st`.
pub open spec fn mm_run_from(st: MultiModelParse, events: Seq<EventView>, limits: Limits) -> Result<
    MultiModelParse,
    ParseFault,
>
    decreases events.len(),
{
    if events.len() == 0 {
        Ok(st)
    } else {
        match mm_run_from(st, events.drop_last(), limits) {
            Err(f) => Err(f),
            Ok(s) => if s.done {
                Ok(s)
            } else {
                mm_step(s, events.last(), limits)
            },
        }
    }
}

proof fn lemma_mm_run_initial(events: Seq<EventView>, limits: Limits)
    ensures
        mm_run(events, limits) == mm_run_from(mm_initial(), events, limits),
    decreases events.len(),
{
    if events.len() > 0 {
        lemma_mm_run_initial(events.drop_last(), limits);
    }
}

proof fn lemma_mm_run_append(st: MultiModelParse, a: Seq<EventView>, b: Seq<EventView>, limits: Limits)
    ensures
        mm_run_from(st, a + b, limits) == match mm_run_from(st, a, limits) {
            Err(f) => Err(f),
            Ok(s) => mm_run_from(s, b, limits),
        },
    decreases b.len(),
{
    if b.len() == 0 {
        assert(a + b =~= a);
    } else {
        lemma_mm_run_append(st, a, b.drop_last(), limits);
        assert((a + b).drop_last() =~= a + b.drop_last());
        assert((a + b).last() == b.last());
    }
}

proof fn lemma_mm_run_three(st: MultiModelParse, a: Seq<EventView>, b: Seq<EventView>, c: Seq<EventView>, limits: Limits)
    ensures
        mm_run_from(st, a + b + c, limits) == match mm_run_from(st, a, limits) {
            Err(f) => Err(f),
            Ok(s1) => match mm_run_from(s1, b, limits) {
                Err(f) => Err(f),
                Ok(s2) => mm_run_from(s2, c, limits),
            },
        },
{
    lemma_mm_run_append(st, a + b, c, limits);
    lemma_mm_run_append(st, a, b, limits);
}

proof fn lemma_mm_one(st: MultiModelParse, e: EventView, limits: Limits)
    requires
        !st.done,
    ensures
        mm_run_from(st, seq![e], limits) == mm_step(st, e, limits),
{
    assert(seq![e].drop_last() =~= Seq::<EventView>::empty());
    assert(mm_run_from(st, Seq::<EventView>::empty(), limits) == Ok::<MultiModelParse, ParseFault>(st));
    assert(seq![e].last() == e);
}

/// The namespace the tags of a written container resolve to.
pub open spec fn mmc_ns() -> Seq<u8> {
    vstd::utf8::encode_utf8(MMC_NAMESPACE@)
}

/// A state inside the root, with no linked-model text open.
pub open spec fn mm_ready(st: MultiModelParse) -> bool {
    &&& st.root_seen
    &&& st.metadata is Some
    &&& st.linked_text is None
    &&& !st.done
    &&& 0 <= st.events
}

/// The state after one more event.
pub open spec fn counted(st: MultiModelParse, n: int) -> MultiModelParse {
    MultiModelParse { events: st.events + n, ..st }
}

/// Indentation is white space the parser passes over.
proof fn lemma_mm_indent(st: MultiModelParse, d: nat, limits: Limits)
    requires
        mm_ready(st),
        st.stack.len() > 0,
        st.events + 1 <= limits.max_xml_events,
    ensures
        mm_run_from(st, seq![indent(d, 32, 2)], limits) == Ok::<MultiModelParse, ParseFault>(counted(st, 1)),
{
    lemma_mm_one(st, indent(d, 32, 2), limits);
    let t = seq!['\n'] + Seq::new((d * 2) as nat, |i: int| 32u8 as char);
    assert forall|i: int| 0 <= i < t.len() implies crate::xml_rules::is_xml_char(#[trigger] t[i]) by {
        if i > 0 {
            assert(t[i] == ' ');
        }
    }
    assert(all_xml_chars(t));
}

/// Stacks of element names made of letters have no extension ancestor.
proof fn lemma_letters_stack(s: Seq<Seq<char>>)
    requires
        forall|i: int| 0 <= i < s.len() ==> letters(#[trigger] s[i]),
    ensures
        !extension_ancestor(s),
{
    assert forall|i: int| 0 <= i < s.len() && s[i].len() > 0 implies #[trigger] s[i][0] != '\0' by {
        assert(letters(s[i]));
        assert(crate::read_back::is_letter(s[i][0]));
    }
}

/// A start tag in the container namespace inside the root: the element is
/// placed on the stack, handled by its position, and taken off again when
/// written empty.
proof fn lemma_mm_start(st: MultiModelParse, x: Seq<char>, a: Seq<(Seq<char>, Seq<char>)>, empty: bool, limits: Limits)
    requires
        mm_ready(st),
        st.stack.len() > 0,
        st.events + 1 <= limits.max_xml_events,
        !extension_ancestor(st.stack.push(x)),
        valid_multimodel_path(st.stack.push(x)),
        plain_attributes(a),
    ensures
        mm_run_from(
            st,
            seq![EventView::Start { namespace: NamespaceView::Bound(mmc_ns()), local: Ok(x), attributes: attribute_reads(a), empty }],
            limits,
        ) == match mm_handle_start(
            MultiModelParse { stack: st.stack.push(x), events: st.events + 1, ..st },
            attribute_reads(a),
            limits,
        ) {
            Err(f) => Err(f),
            Ok(s3) => Ok(
                if empty {
                    MultiModelParse { stack: s3.stack.drop_last(), ..s3 }
                } else if path_ends(s3.stack, "LinkModel"@, "LinkedModel"@) {
                    MultiModelParse { linked_text: Some(Seq::empty()), ..s3 }
                } else {
                    s3
                },
            ),
        },
{
    let e = EventView::Start { namespace: NamespaceView::Bound(mmc_ns()), local: Ok(x), attributes: attribute_reads(a), empty };
    lemma_mm_one(st, e, limits);
}

/// An end tag, not of a linked model, takes the element off the stack.
proof fn lemma_mm_end(st: MultiModelParse, limits: Limits)
    requires
        mm_ready(st),
        st.stack.len() > 0,
        st.stack.last() != "LinkedModel"@,
        st.events + 1 <= limits.max_xml_events,
    ensures
        mm_run_from(st, seq![EventView::End], limits) == Ok::<MultiModelParse, ParseFault>(
            MultiModelParse { stack: st.stack.drop_last(), events: st.events + 1, ..st },
        ),
{
    lemma_mm_one(st, EventView::End, limits);
}

/// The end tag of an element, on a line of its own.
proof fn lemma_mm_close(st: MultiModelParse, d: nat, limits: Limits)
    requires
        mm_ready(st),
        st.stack.len() > 0,
        st.stack.last() != "LinkedModel"@,
        st.events + 2 <= limits.max_xml_events,
    ensures
        mm_run_from(st, seq![indent(d, 32, 2), EventView::End], limits) == Ok::<MultiModelParse, ParseFault>(
            MultiModelParse { stack: st.stack.drop_last(), events: st.events + 2, ..st },
        ),
{
    assert(seq![indent(d, 32, 2), EventView::End] =~= seq![indent(d, 32, 2)] + seq![EventView::End]);
    lemma_mm_run_append(st, seq![indent(d, 32, 2)], seq![EventView::End], limits);
    lemma_mm_indent(st, d, limits);
    lemma_mm_end(counted(st, 1), limits);
}

/// The start tag of an element, on a line of its own, inside the root.
proof fn lemma_mm_open(st: MultiModelParse, x: Seq<char>, a: Seq<(Seq<char>, Seq<char>)>, empty: bool, d: nat, limits: Limits)
    requires
        mm_ready(st),
        st.stack.len() > 0,
        st.events + 2 <= limits.max_xml_events,
        !extension_ancestor(st.stack.push(x)),
        valid_multimodel_path(st.stack.push(x)),
        plain_attributes(a),
    ensures
        mm_run_from(
            st,
            seq![
                indent(d, 32, 2),
                EventView::Start { namespace: NamespaceView::Bound(mmc_ns()), local: Ok(x), attributes: attribute_reads(a), empty },
            ],
            limits,
        ) == match mm_handle_start(
            MultiModelParse { stack: st.stack.push(x), events: st.events + 2, ..st },
            attribute_reads(a),
            limits,
        ) {
            Err(f) => Err(f),
            Ok(s3) => Ok(
                if empty {
                    MultiModelParse { stack: s3.stack.drop_last(), ..s3 }
                } else if path_ends(s3.stack, "LinkModel"@, "LinkedModel"@) {
                    MultiModelParse { linked_text: Some(Seq::empty()), ..s3 }
                } else {
                    s3
                },
            ),
        },
{
    let start = EventView::Start { namespace: NamespaceView::Bound(mmc_ns()), local: Ok(x), attributes: attribute_reads(a), empty };
    assert(seq![indent(d, 32, 2), start] =~= seq![indent(d, 32, 2)] + seq![start]);
    lemma_mm_run_append(st, seq![indent(d, 32, 2)], seq![start], limits);
    lemma_mm_indent(st, d, limits);
    lemma_mm_start(counted(st, 1), x, a, empty, limits);
}

/// The local names of the container's elements are distinct words of letters.
proof fn lemma_mm_names()
    ensures
        "MultiModel"@ != "MetaData"@,
        "MultiModel"@ != "Meta"@,
        "MultiModel"@ != "ApplicationModels"@,
        "MultiModel"@ != "ApplicationModel"@,
        "MultiModel"@ != "ModelData"@,
        "MultiModel"@ != "DataRessource"@,
        "MultiModel"@ != "LinkModels"@,
        "MultiModel"@ != "LinkModel"@,
        "MultiModel"@ != "LinkedModel"@,
        "MetaData"@ != "Meta"@,
        "MetaData"@ != "ApplicationModels"@,
        "MetaData"@ != "ApplicationModel"@,
        "MetaData"@ != "ModelData"@,
        "MetaData"@ != "DataRessource"@,
        "MetaData"@ != "LinkModels"@,
        "MetaData"@ != "LinkModel"@,
        "MetaData"@ != "LinkedModel"@,
        "Meta"@ != "ApplicationModels"@,
        "Meta"@ != "ApplicationModel"@,
        "Meta"@ != "ModelData"@,
        "Meta"@ != "DataRessource"@,
        "Meta"@ != "LinkModels"@,
        "Meta"@ != "LinkModel"@,
        "Meta"@ != "LinkedModel"@,
        "ApplicationModels"@ != "ApplicationModel"@,
        "ApplicationModels"@ != "ModelData"@,
        "ApplicationModels"@ != "DataRessource"@,
        "ApplicationModels"@ != "LinkModels"@,
        "ApplicationModels"@ != "LinkModel"@,
        "ApplicationModels"@ != "LinkedModel"@,
        "ApplicationModel"@ != "ModelData"@,
        "ApplicationModel"@ != "DataRessource"@,
        "ApplicationModel"@ != "LinkModels"@,
        "ApplicationModel"@ != "LinkModel"@,
        "ApplicationModel"@ != "LinkedModel"@,
        "ModelData"@ != "DataRessource"@,
        "ModelData"@ != "LinkModels"@,
        "ModelData"@ != "LinkModel"@,
        "ModelData"@ != "LinkedModel"@,
        "DataRessource"@ != "LinkModels"@,
        "DataRessource"@ != "LinkModel"@,
        "DataRessource"@ != "LinkedModel"@,
        "LinkModels"@ != "LinkModel"@,
        "LinkModels"@ != "LinkedModel"@,
        "LinkModel"@ != "LinkedModel"@,
        letters("MultiModel"@),
        letters("MetaData"@),
        letters("Meta"@),
        letters("ApplicationModels"@),
        letters("ApplicationModel"@),
        letters("ModelData"@),
        letters("DataRessource"@),
        letters("LinkModels"@),
        letters("LinkModel"@),
        letters("LinkedModel"@),
{
    reveal_strlit("MultiModel");
    reveal_strlit("MetaData");
    reveal_strlit("Meta");
    reveal_strlit("ApplicationModels");
    reveal_strlit("ApplicationModel");
    reveal_strlit("ModelData");
    reveal_strlit("DataRessource");
    reveal_strlit("LinkModels");
    reveal_strlit("LinkModel");
    reveal_strlit("LinkedModel");
    assert("MultiModel"@.len() != "MetaData"@.len());
    assert("MultiModel"@.len() != "Meta"@.len());
    assert("MultiModel"@.len() != "ApplicationModels"@.len());
    assert("MultiModel"@.len() != "ApplicationModel"@.len());
    assert("MultiModel"@.len() != "ModelData"@.len());
    assert("MultiModel"@.len() != "DataRessource"@.len());
    assert("MultiModel"@[0] != "LinkModels"@[0]);
    assert("MultiModel"@.len() != "LinkModel"@.len());
    assert("MultiModel"@.len() != "LinkedModel"@.len());
    assert("MetaData"@.len() != "Meta"@.len());
    assert("MetaData"@.len() != "ApplicationModels"@.len());
    assert("MetaData"@.len() != "ApplicationModel"@.len());
    assert("MetaData"@.len() != "ModelData"@.len());
    assert("MetaData"@.len() != "DataRessource"@.len());
    assert("MetaData"@.len() != "LinkModels"@.len());
    assert("MetaData"@.len() != "LinkModel"@.len());
    assert("MetaData"@.len() != "LinkedModel"@.len());
    assert("Meta"@.len() != "ApplicationModels"@.len());
    assert("Meta"@.len() != "ApplicationModel"@.len());
    assert("Meta"@.len() != "ModelData"@.len());
    assert("Meta"@.len() != "DataRessource"@.len());
    assert("Meta"@.len() != "LinkModels"@.len());
    assert("Meta"@.len() != "LinkModel"@.len());
    assert("Meta"@.len() != "LinkedModel"@.len());
    assert("ApplicationModels"@.len() != "ApplicationModel"@.len());
    assert("ApplicationModels"@.len() != "ModelData"@.len());
    assert("ApplicationModels"@.len() != "DataRessource"@.len());
    assert("ApplicationModels"@.len() != "LinkModels"@.len());
    assert("ApplicationModels"@.len() != "LinkModel"@.len());
    assert("ApplicationModels"@.len() != "LinkedModel"@.len());
    assert("ApplicationModel"@.len() != "ModelData"@.len());
    assert("ApplicationModel"@.len() != "DataRessource"@.len());
    assert("ApplicationModel"@.len() != "LinkModels"@.len());
    assert("ApplicationModel"@.len() != "LinkModel"@.len());
    assert("ApplicationModel"@.len() != "LinkedModel"@.len());
    assert("ModelData"@.len() != "DataRessource"@.len());
    assert("ModelData"@.len() != "LinkModels"@.len());
    assert("ModelData"@[0] != "LinkModel"@[0]);
    assert("ModelData"@.len() != "LinkedModel"@.len());
    assert("DataRessource"@.len() != "LinkModels"@.len());
    assert("DataRessource"@.len() != "LinkModel"@.len());
    assert("DataRessource"@.len() != "LinkedModel"@.len());
    assert("LinkModels"@.len() != "LinkModel"@.len());
    assert("LinkModels"@.len() != "LinkedModel"@.len());
    assert("LinkModel"@.len() != "LinkedModel"@.len());
}


/// The element stack at the level metadata is placed on: the root, the
/// last application model, its last representation, that one's last
/// resource, or the last LinkModel reference.
pub open spec fn mm_level_stack(level: int) -> Seq<Seq<char>> {
    if level == 0 {
        seq!["MultiModel"@]
    } else if level == 1 {
        seq!["MultiModel"@, "ApplicationModels"@, "ApplicationModel"@]
    } else if level == 2 {
        seq!["MultiModel"@, "ApplicationModels"@, "ApplicationModel"@, "ModelData"@]
    } else if level == 3 {
        seq!["MultiModel"@, "ApplicationModels"@, "ApplicationModel"@, "ModelData"@, "DataRessource"@]
    } else {
        seq!["MultiModel"@, "LinkModels"@, "LinkModel"@]
    }
}

/// The state has the element that metadata at `level` is placed on.
pub open spec fn mm_level_ready(level: int, st: MultiModelParse) -> bool {
    if level == 0 {
        true
    } else if level == 4 {
        st.link_models.len() > 0
    } else {
        &&& st.models.len() > 0
        &&& (level >= 2 ==> st.models.last().representations.len() > 0)
        &&& (level >= 3 ==> st.models.last().representations.last().resources.len() > 0)
    }
}

pub open spec fn with_last_model(st: MultiModelParse, m: ApplicationModelView) -> MultiModelParse {
    MultiModelParse { models: st.models.update(st.models.len() - 1, m), ..st }
}

pub open spec fn with_last_representation(m: ApplicationModelView, d: ModelDataView) -> ApplicationModelView {
    ApplicationModelView { representations: m.representations.update(m.representations.len() - 1, d), ..m }
}

pub open spec fn with_last_resource(d: ModelDataView, r: DataResourceView) -> ModelDataView {
    ModelDataView { resources: d.resources.update(d.resources.len() - 1, r), ..d }
}

/// The state with `items` added to the metadata at `level`.
pub open spec fn with_mm_metadata(level: int, st: MultiModelParse, items: Seq<MetadataView>) -> MultiModelParse {
    if level == 0 {
        let c = st.metadata->Some_0;
        MultiModelParse { metadata: Some(ContainerMetadataView { metadata: c.metadata + items, ..c }), ..st }
    } else if level == 1 {
        let m = st.models.last();
        with_last_model(st, ApplicationModelView { metadata: m.metadata + items, ..m })
    } else if level == 2 {
        let m = st.models.last();
        let d = m.representations.last();
        with_last_model(st, with_last_representation(m, ModelDataView { metadata: d.metadata + items, ..d }))
    } else if level == 3 {
        let m = st.models.last();
        let d = m.representations.last();
        let r = d.resources.last();
        with_last_model(
            st,
            with_last_representation(m, with_last_resource(d, DataResourceView { metadata: r.metadata + items, ..r })),
        )
    } else {
        let l = st.link_models.last();
        MultiModelParse {
            link_models: st.link_models.update(
                st.link_models.len() - 1,
                LinkModelReferenceView { metadata: l.metadata + items, ..l },
            ),
            ..st
        }
    }
}

proof fn lemma_mm_paths(level: int)
    requires
        0 <= level <= 4,
    ensures
        valid_multimodel_path(mm_level_stack(level)),
        valid_multimodel_path(mm_level_stack(level).push("MetaData"@)),
        valid_multimodel_path(mm_level_stack(level).push("MetaData"@).push("Meta"@)),
        !extension_ancestor(mm_level_stack(level)),
        !extension_ancestor(mm_level_stack(level).push("MetaData"@)),
        !extension_ancestor(mm_level_stack(level).push("MetaData"@).push("Meta"@)),
        mm_level_stack(level).len() > 0,
        mm_level_stack(level)[0] == "MultiModel"@,
        mm_level_stack(level).last() != "LinkedModel"@,
{
    lemma_mm_names();
    let s = mm_level_stack(level);
    let s1 = s.push("MetaData"@);
    let s2 = s1.push("Meta"@);
    if level == 0 {
        assert(s =~= seq!["MultiModel"].map_values(|x: &str| x@));
        assert(s1 =~= seq!["MultiModel", "MetaData"].map_values(|x: &str| x@));
        assert(s2 =~= seq!["MultiModel", "MetaData", "Meta"].map_values(|x: &str| x@));
    } else if level == 1 {
        assert(s =~= seq!["MultiModel", "ApplicationModels", "ApplicationModel"].map_values(|x: &str| x@));
        assert(s1 =~= seq!["MultiModel", "ApplicationModels", "ApplicationModel", "MetaData"].map_values(|x: &str| x@));
        assert(s2 =~= seq!["MultiModel", "ApplicationModels", "ApplicationModel", "MetaData", "Meta"].map_values(
            |x: &str| x@,
        ));
    } else if level == 2 {
        assert(s =~= seq!["MultiModel", "ApplicationModels", "ApplicationModel", "ModelData"].map_values(|x: &str| x@));
        assert(s1 =~= seq!["MultiModel", "ApplicationModels", "ApplicationModel", "ModelData", "MetaData"].map_values(
            |x: &str| x@,
        ));
        assert(s2 =~= seq!["MultiModel", "ApplicationModels", "ApplicationModel", "ModelData", "MetaData", "Meta"].map_values(
            |x: &str| x@,
        ));
    } else if level == 3 {
        assert(s =~= seq!["MultiModel", "ApplicationModels", "ApplicationModel", "ModelData", "DataRessource"].map_values(
            |x: &str| x@,
        ));
        assert(s1 =~= seq!["MultiModel", "ApplicationModels", "ApplicationModel", "ModelData", "DataRessource", "MetaData"].map_values(
            |x: &str| x@,
        ));
        assert(s2 =~= seq![
            "MultiModel",
            "ApplicationModels",
            "ApplicationModel",
            "ModelData",
            "DataRessource",
            "MetaData",
            "Meta",
        ].map_values(|x: &str| x@));
    } else {
        assert(s =~= seq!["MultiModel", "LinkModels", "LinkModel"].map_values(|x: &str| x@));
        assert(s1 =~= seq!["MultiModel", "LinkModels", "LinkModel", "MetaData"].map_values(|x: &str| x@));
        assert(s2 =~= seq!["MultiModel", "LinkModels", "LinkModel", "MetaData", "Meta"].map_values(|x: &str| x@));
    }
    lemma_letters_stack(s);
    lemma_letters_stack(s1);
    lemma_letters_stack(s2);
}


proof fn lemma_mmc_meta(item: MetadataView)
    requires
        meta_ok(item),
    ensures
        plain_attributes(meta_attributes(item, false)),
        mmc_meta(meta_attributes(item, false)) == Ok::<MetadataView, Seq<char>>(item),
{
    crate::container_tree::lemma_mmc_meta_plain(item);
    crate::container_tree::lemma_mmc_literals();
    let a = meta_attributes(item, false);
    lemma_attr_get(a, "key"@);
    lemma_attr_get(a, "value"@);
    lemma_attr_get(a, "type"@);
    lemma_attr_get(a, "category"@);
    assert(a[0] == ("key"@, item.key));
    assert(a[1] == ("value"@, item.value));
    if item.value_type is Some {
        assert(a[2] == ("type"@, item.value_type->Some_0));
    }
    if item.category is Some {
        assert(a[a.len() - 1] == ("category"@, item.category->Some_0));
    }
}

/// A metadata item at `level` is read back into the state.
#[verifier::rlimit(40)]
proof fn lemma_mm_meta(level: int, item: MetadataView, st: MultiModelParse, d: nat, limits: Limits)
    requires
        0 <= level <= 4,
        mm_ready(st),
        st.stack == mm_level_stack(level).push("MetaData"@),
        mm_level_ready(level, st),
        meta_ok(item),
        st.events + 2 <= limits.max_xml_events,
    ensures
        mm_run_from(st, tree_reads(meta_node("mmc"@, item, false), d, "mmc"@, mmc_ns(), 32, 2), limits) == Ok::<
            MultiModelParse,
            ParseFault,
        >(with_mm_metadata(level, counted(st, 2), seq![item])),
{
    lemma_mm_names();
    lemma_mm_paths(level);
    lemma_mmc_meta(item);
    crate::container_tree::lemma_mmc_literal_meta();
    let a = meta_attributes(item, false);
    assert(tree_reads(meta_node("mmc"@, item, false), d, "mmc"@, mmc_ns(), 32, 2) =~= seq![
        indent(d, 32, 2),
        EventView::Start { namespace: NamespaceView::Bound(mmc_ns()), local: Ok("Meta"@), attributes: attribute_reads(a), empty: true },
    ]);
    lemma_mm_open(st, "Meta"@, a, true, d, limits);
    lemma_attribute_map_plain(a);
    let full = st.stack.push("Meta"@);
    assert(full.last() == "Meta"@);
    assert(full[full.len() - 2] == "MetaData"@);
    assert(full[full.len() - 3] == mm_level_stack(level).last());
    if level == 0 {
        assert(full =~= seq!["MultiModel", "MetaData", "Meta"].map_values(|x: &str| x@));
        let c = st.metadata->Some_0;
        assert(c.metadata.push(item) =~= c.metadata + seq![item]);
    } else if level == 1 {
        let m = st.models.last();
        assert(m.metadata.push(item) =~= m.metadata + seq![item]);
    } else if level == 2 {
        let d0 = st.models.last().representations.last();
        assert(d0.metadata.push(item) =~= d0.metadata + seq![item]);
    } else if level == 3 {
        let r = st.models.last().representations.last().resources.last();
        assert(r.metadata.push(item) =~= r.metadata + seq![item]);
    } else {
        let l = st.link_models.last();
        assert(l.metadata.push(item) =~= l.metadata + seq![item]);
    }
    assert(full.drop_last() =~= st.stack);
}


proof fn lemma_with_mm_metadata(level: int, st: MultiModelParse, a: Seq<MetadataView>, b: Seq<MetadataView>)
    requires
        0 <= level <= 4,
        mm_level_ready(level, st),
        level == 0 ==> st.metadata is Some,
    ensures
        with_mm_metadata(level, with_mm_metadata(level, st, a), b) == with_mm_metadata(level, st, a + b),
        mm_level_ready(level, with_mm_metadata(level, st, a)),
        with_mm_metadata(level, st, Seq::empty()) == st,
        with_mm_metadata(level, st, a).stack == st.stack,
        with_mm_metadata(level, st, a).events == st.events,
        with_mm_metadata(level, st, a).root_seen == st.root_seen,
        with_mm_metadata(level, st, a).linked_text == st.linked_text,
        with_mm_metadata(level, st, a).done == st.done,
        with_mm_metadata(level, st, a).metadata is Some == st.metadata is Some,
        with_mm_metadata(level, st, a).models.len() == st.models.len(),
        with_mm_metadata(level, st, a).link_models.len() == st.link_models.len(),
{
    let st1 = with_mm_metadata(level, st, a);
    if level == 0 {
        let c = st.metadata->Some_0;
        assert(c.metadata + a + b =~= c.metadata + (a + b));
        assert(c.metadata + Seq::<MetadataView>::empty() =~= c.metadata);
    } else if level == 1 {
        let m = st.models.last();
        assert(st1.models.last() == ApplicationModelView { metadata: m.metadata + a, ..m });
        assert(m.metadata + a + b =~= m.metadata + (a + b));
        assert(st1.models.update(st1.models.len() - 1, ApplicationModelView { metadata: m.metadata + a + b, ..m })
            =~= st.models.update(st.models.len() - 1, ApplicationModelView { metadata: m.metadata + (a + b), ..m }));
        assert(m.metadata + Seq::<MetadataView>::empty() =~= m.metadata);
        assert(st.models.update(st.models.len() - 1, m) =~= st.models);
    } else if level == 2 {
        let m = st.models.last();
        let d = m.representations.last();
        let m1 = with_last_representation(m, ModelDataView { metadata: d.metadata + a, ..d });
        assert(st1.models.last() == m1);
        assert(m1.representations.last() == ModelDataView { metadata: d.metadata + a, ..d });
        assert(d.metadata + a + b =~= d.metadata + (a + b));
        assert(m1.representations.update(m1.representations.len() - 1, ModelDataView { metadata: d.metadata + a + b, ..d })
            =~= m.representations.update(m.representations.len() - 1, ModelDataView { metadata: d.metadata + (a + b), ..d }));
        assert(st1.models.update(
            st1.models.len() - 1,
            with_last_representation(m1, ModelDataView { metadata: d.metadata + a + b, ..d }),
        ) =~= st.models.update(
            st.models.len() - 1,
            with_last_representation(m, ModelDataView { metadata: d.metadata + (a + b), ..d }),
        ));
        assert(d.metadata + Seq::<MetadataView>::empty() =~= d.metadata);
        assert(m.representations.update(m.representations.len() - 1, d) =~= m.representations);
        assert(st.models.update(st.models.len() - 1, m) =~= st.models);
    } else if level == 3 {
        let m = st.models.last();
        let d = m.representations.last();
        let r = d.resources.last();
        let d1 = with_last_resource(d, DataResourceView { metadata: r.metadata + a, ..r });
        let m1 = with_last_representation(m, d1);
        assert(st1.models.last() == m1);
        assert(m1.representations.last() == d1);
        assert(d1.resources.last() == DataResourceView { metadata: r.metadata + a, ..r });
        assert(r.metadata + a + b =~= r.metadata + (a + b));
        let r2 = DataResourceView { metadata: r.metadata + (a + b), ..r };
        assert(d1.resources.update(d1.resources.len() - 1, DataResourceView { metadata: r.metadata + a + b, ..r })
            =~= d.resources.update(d.resources.len() - 1, r2));
        assert(with_last_resource(d1, DataResourceView { metadata: r.metadata + a + b, ..r }) == with_last_resource(d, r2));
        assert(m1.representations.update(m1.representations.len() - 1, with_last_resource(d, r2))
            =~= m.representations.update(m.representations.len() - 1, with_last_resource(d, r2)));
        assert(st1.models.update(st1.models.len() - 1, with_last_representation(m1, with_last_resource(d, r2)))
            =~= st.models.update(st.models.len() - 1, with_last_representation(m, with_last_resource(d, r2))));
        assert(r.metadata + Seq::<MetadataView>::empty() =~= r.metadata);
        assert(d.resources.update(d.resources.len() - 1, r) =~= d.resources);
        assert(m.representations.update(m.representations.len() - 1, d) =~= m.representations);
        assert(st.models.update(st.models.len() - 1, m) =~= st.models);
    } else {
        let l = st.link_models.last();
        assert(st1.link_models.last() == LinkModelReferenceView { metadata: l.metadata + a, ..l });
        assert(l.metadata + a + b =~= l.metadata + (a + b));
        assert(st1.link_models.update(
            st1.link_models.len() - 1,
            LinkModelReferenceView { metadata: l.metadata + a + b, ..l },
        ) =~= st.link_models.update(st.link_models.len() - 1, LinkModelReferenceView { metadata: l.metadata + (a + b), ..l }));
        assert(l.metadata + Seq::<MetadataView>::empty() =~= l.metadata);
        assert(st.link_models.update(st.link_models.len() - 1, l) =~= st.link_models);
    }
}

proof fn lemma_mmc_meta_reads_len(items: Seq<MetadataView>, d: nat)
    ensures
        trees_reads(meta_nodes("mmc"@, items, false), d, "mmc"@, mmc_ns(), 32, 2).len() == 2 * items.len(),
    decreases items.len(),
{
    if items.len() > 0 {
        lemma_mmc_meta_reads_len(items.drop_last(), d);
        crate::round_trip::lemma_trees_reads_push(
            meta_nodes("mmc"@, items.drop_last(), false),
            meta_node("mmc"@, items.last(), false),
            d,
            "mmc"@,
            mmc_ns(),
        );
    }
}

/// Metadata items at `level` are read back into the state, in order.
#[verifier::rlimit(60)]
#[verifier::spinoff_prover]
proof fn lemma_mm_metas(level: int, items: Seq<MetadataView>, st: MultiModelParse, d: nat, limits: Limits)
    requires
        0 <= level <= 4,
        mm_ready(st),
        st.stack == mm_level_stack(level).push("MetaData"@),
        mm_level_ready(level, st),
        forall|i: int| 0 <= i < items.len() ==> meta_ok(#[trigger] items[i]),
        st.events + 2 * items.len() <= limits.max_xml_events,
    ensures
        trees_reads(meta_nodes("mmc"@, items, false), d, "mmc"@, mmc_ns(), 32, 2).len() == 2 * items.len(),
        mm_run_from(st, trees_reads(meta_nodes("mmc"@, items, false), d, "mmc"@, mmc_ns(), 32, 2), limits) == Ok::<
            MultiModelParse,
            ParseFault,
        >(with_mm_metadata(level, counted(st, (2 * items.len()) as int), items)),
    decreases items.len(),
{
    lemma_with_mm_metadata(level, st, Seq::empty(), Seq::empty());
    if items.len() == 0 {
        assert(mm_run_from(st, Seq::<EventView>::empty(), limits) == Ok::<MultiModelParse, ParseFault>(st));
        assert(counted(st, 0) == st);
        lemma_with_mm_metadata(level, counted(st, 0), Seq::empty(), Seq::empty());
    } else {
        let init = items.drop_last();
        let x = items.last();
        assert forall|i: int| 0 <= i < init.len() implies meta_ok(#[trigger] init[i]) by {
            assert(init[i] == items[i]);
        }
        lemma_mm_metas(level, init, st, d, limits);
        let c = counted(st, (2 * init.len()) as int);
        lemma_with_mm_metadata(level, c, init, seq![x]);
        let s1 = with_mm_metadata(level, c, init);
        assert(init + seq![x] =~= items);
        crate::round_trip::lemma_trees_reads_push(meta_nodes("mmc"@, init, false), meta_node("mmc"@, x, false), d, "mmc"@, mmc_ns());
        lemma_mm_run_append(
            st,
            trees_reads(meta_nodes("mmc"@, init, false), d, "mmc"@, mmc_ns(), 32, 2),
            tree_reads(meta_node("mmc"@, x, false), d, "mmc"@, mmc_ns(), 32, 2),
            limits,
        );
        lemma_mm_meta(level, x, s1, d, limits);
        lemma_with_mm_metadata(level, counted(st, (2 * items.len()) as int), init, seq![x]);
        assert(with_mm_metadata(level, counted(s1, 2), seq![x]) == with_mm_metadata(
            level,
            with_mm_metadata(level, counted(st, (2 * items.len()) as int), init),
            seq![x],
        ));
        assert(tree_reads(meta_node("mmc"@, x, false), d, "mmc"@, mmc_ns(), 32, 2).len() == 2);
    }
}


/// An element with no attributes whose position adds nothing.
proof fn lemma_mm_plain_start(st: MultiModelParse, limits: Limits)
    requires
        st.stack.len() > 0,
        st.stack.last() != "ApplicationModel"@,
        st.stack.last() != "ModelData"@,
        st.stack.last() != "DataRessource"@,
        st.stack.last() != "LinkModel"@,
        st.stack.last() != "Meta"@,
    ensures
        mm_handle_start(st, attribute_reads(Seq::empty()), limits) == Ok::<MultiModelParse, ParseFault>(st),
{
    assert(attribute_reads(Seq::empty()) =~= Seq::<Result<AttributeView, Seq<char>>>::empty());
}

/// A metadata collection at `level` is read back into the state.
#[verifier::rlimit(50)]
#[verifier::spinoff_prover]
proof fn lemma_mm_metadata(level: int, items: Seq<MetadataView>, st: MultiModelParse, d: nat, limits: Limits)
    requires
        0 <= level <= 4,
        mm_ready(st),
        st.stack == mm_level_stack(level),
        mm_level_ready(level, st),
        forall|i: int| 0 <= i < items.len() ==> meta_ok(#[trigger] items[i]),
        st.events + trees_reads(metadata_trees("mmc"@, items, false), d, "mmc"@, mmc_ns(), 32, 2).len()
            <= limits.max_xml_events,
    ensures
        trees_reads(metadata_trees("mmc"@, items, false), d, "mmc"@, mmc_ns(), 32, 2).len() == if items.len() == 0 {
            0
        } else {
            4 + 2 * items.len()
        },
        mm_run_from(st, trees_reads(metadata_trees("mmc"@, items, false), d, "mmc"@, mmc_ns(), 32, 2), limits) == Ok::<
            MultiModelParse,
            ParseFault,
        >(
            with_mm_metadata(
                level,
                counted(st, trees_reads(metadata_trees("mmc"@, items, false), d, "mmc"@, mmc_ns(), 32, 2).len() as int),
                items,
            ),
        ),
{
    lemma_mm_names();
    lemma_mm_paths(level);
    crate::container_tree::lemma_mmc_literal_meta();
    lemma_with_mm_metadata(level, st, Seq::empty(), Seq::empty());
    if items.len() == 0 {
        assert(metadata_trees("mmc"@, items, false) =~= Seq::<XmlTree>::empty());
        assert(mm_run_from(st, Seq::<EventView>::empty(), limits) == Ok::<MultiModelParse, ParseFault>(st));
        assert(counted(st, 0) == st);
    } else {
        let node = metadata_trees("mmc"@, items, false)[0];
        assert(metadata_trees("mmc"@, items, false) =~= seq![node]);
        crate::round_trip::lemma_trees_reads_one(node, d, "mmc"@, mmc_ns());
        let metas = meta_nodes("mmc"@, items, false);
        let a = seq![
            indent(d, 32, 2),
            EventView::Start {
                namespace: NamespaceView::Bound(mmc_ns()),
                local: Ok("MetaData"@),
                attributes: attribute_reads(Seq::empty()),
                empty: false,
            },
        ];
        let b = trees_reads(metas, d + 1, "mmc"@, mmc_ns(), 32, 2);
        let c = seq![indent(d, 32, 2), EventView::End];
        assert(metas.len() > 0) by {
            assert(meta_nodes("mmc"@, items, false) == meta_nodes("mmc"@, items.drop_last(), false).push(
                meta_node("mmc"@, items.last(), false),
            ));
        }
        assert(!(metas.len() == 1 && metas[0] is Text)) by {
            if metas.len() == 1 {
                assert(metas[metas.len() - 1] == meta_node("mmc"@, items.last(), false));
            }
        }
        assert(tree_reads(node, d, "mmc"@, mmc_ns(), 32, 2) =~= a + b + c);
        lemma_mm_run_three(st, a, b, c, limits);
        assert(plain_attributes(Seq::<(Seq<char>, Seq<char>)>::empty()));
        lemma_mmc_meta_reads_len(items, d + 1);
        lemma_mm_open(st, "MetaData"@, Seq::empty(), false, d, limits);
        let s2 = MultiModelParse { stack: st.stack.push("MetaData"@), events: st.events + 2, ..st };
        lemma_mm_plain_start(s2, limits);
        assert(!path_ends(s2.stack, "LinkModel"@, "LinkedModel"@));
        lemma_mm_metas(level, items, s2, d + 1, limits);
        let s3 = with_mm_metadata(level, counted(s2, (2 * items.len()) as int), items);
        lemma_with_mm_metadata(level, counted(s2, (2 * items.len()) as int), items, Seq::empty());
        lemma_mm_close(s3, d, limits);
        assert(s3.stack.drop_last() =~= st.stack);
        lemma_with_mm_metadata(
            level,
            counted(st, tree_reads(node, d, "mmc"@, mmc_ns(), 32, 2).len() as int),
            items,
            Seq::empty(),
        );
    }
}


/// The state with `rs` added to the resources of the last representation.
pub open spec fn with_resources(st: MultiModelParse, rs: Seq<DataResourceView>) -> MultiModelParse {
    let m = st.models.last();
    let d = m.representations.last();
    with_last_model(st, with_last_representation(m, ModelDataView { resources: d.resources + rs, ..d }))
}

proof fn lemma_with_resources(st: MultiModelParse, a: Seq<DataResourceView>, b: Seq<DataResourceView>)
    requires
        mm_level_ready(2, st),
    ensures
        with_resources(with_resources(st, a), b) == with_resources(st, a + b),
        mm_level_ready(2, with_resources(st, a)),
        with_resources(st, Seq::empty()) == st,
        a.len() > 0 ==> mm_level_ready(3, with_resources(st, a)),
        with_resources(st, a).models.len() == st.models.len(),
        with_resources(st, a).link_models == st.link_models,
        with_resources(st, a).metadata == st.metadata,
{
    let m = st.models.last();
    let d = m.representations.last();
    let st1 = with_resources(st, a);
    let d1 = ModelDataView { resources: d.resources + a, ..d };
    let m1 = with_last_representation(m, d1);
    assert(st1.models.last() == m1);
    assert(m1.representations.last() == d1);
    assert(d.resources + a + b =~= d.resources + (a + b));
    assert(m1.representations.update(m1.representations.len() - 1, ModelDataView { resources: d.resources + a + b, ..d })
        =~= m.representations.update(m.representations.len() - 1, ModelDataView { resources: d.resources + (a + b), ..d }));
    assert(st1.models.update(
        st1.models.len() - 1,
        with_last_representation(m1, ModelDataView { resources: d.resources + a + b, ..d }),
    ) =~= st.models.update(
        st.models.len() - 1,
        with_last_representation(m, ModelDataView { resources: d.resources + (a + b), ..d }),
    ));
    assert(d.resources + Seq::<DataResourceView>::empty() =~= d.resources);
    assert(m.representations.update(m.representations.len() - 1, d) =~= m.representations);
    assert(st.models.update(st.models.len() - 1, m) =~= st.models);
    if a.len() > 0 {
        assert((d.resources + a).len() > 0);
    }
}

proof fn lemma_resource_metadata(st: MultiModelParse, r: DataResourceView, items: Seq<MetadataView>)
    requires
        mm_level_ready(2, st),
    ensures
        with_mm_metadata(3, with_resources(st, seq![r]), items) == with_resources(
            st,
            seq![DataResourceView { metadata: r.metadata + items, ..r }],
        ),
{
    let m = st.models.last();
    let d = m.representations.last();
    let st1 = with_resources(st, seq![r]);
    let d1 = ModelDataView { resources: d.resources + seq![r], ..d };
    let m1 = with_last_representation(m, d1);
    assert(st1.models.last() == m1);
    assert(m1.representations.last() == d1);
    assert(d1.resources.last() == r);
    let r2 = DataResourceView { metadata: r.metadata + items, ..r };
    assert(d1.resources.update(d1.resources.len() - 1, r2) =~= d.resources + seq![r2]);
    assert(m1.representations.update(m1.representations.len() - 1, with_last_resource(d1, r2))
        =~= m.representations.update(m.representations.len() - 1, ModelDataView { resources: d.resources + seq![r2], ..d }));
    assert(st1.models.update(st1.models.len() - 1, with_last_representation(m1, with_last_resource(d1, r2)))
        =~= st.models.update(
        st.models.len() - 1,
        with_last_representation(m, ModelDataView { resources: d.resources + seq![r2], ..d }),
    ));
}

/// The attributes of a written element, read back by name.
proof fn lemma_two_attrs(n1: Seq<char>, v1: Seq<char>, n2: Seq<char>, v2: Seq<char>)
    requires
        n1 != n2,
        plain_attributes(seq![(n1, v1), (n2, v2)]),
    ensures
        attribute_map(attribute_reads(seq![(n1, v1), (n2, v2)])) == Ok::<Seq<(Seq<char>, Seq<char>)>, Seq<char>>(
            seq![(n1, v1), (n2, v2)],
        ),
        attr_get(seq![(n1, v1), (n2, v2)], n1) == Some(v1),
        attr_get(seq![(n1, v1), (n2, v2)], n2) == Some(v2),
{
    let a = seq![(n1, v1), (n2, v2)];
    lemma_attribute_map_plain(a);
    lemma_attr_get(a, n1);
    lemma_attr_get(a, n2);
    assert(a[0].0 == n1);
    assert(a[1].0 == n2);
}

/// A data resource is read back into the last representation.
#[verifier::rlimit(60)]
#[verifier::spinoff_prover]
proof fn lemma_mm_resource(r: DataResourceView, st: MultiModelParse, d: nat, limits: Limits)
    requires
        mm_ready(st),
        st.stack == mm_level_stack(2),
        mm_level_ready(2, st),
        resource_ok(r),
        st.events + tree_reads(resource_node(r), d, "mmc"@, mmc_ns(), 32, 2).len() <= limits.max_xml_events,
    ensures
        mm_run_from(st, tree_reads(resource_node(r), d, "mmc"@, mmc_ns(), 32, 2), limits) == Ok::<MultiModelParse, ParseFault>(
            counted(with_resources(st, seq![r]), tree_reads(resource_node(r), d, "mmc"@, mmc_ns(), 32, 2).len() as int),
        ),
{
    lemma_mm_names();
    lemma_mm_paths(3);
    crate::container_tree::lemma_mmc_literals();
    let a = seq![("id"@, r.id), ("location"@, location_text(r.location))];
    assert forall|i: int, j: int| 0 <= i < j < a.len() implies #[trigger] a[i].0 != #[trigger] a[j].0 by {}
    assert(plain_attributes(a));
    lemma_two_attrs("id"@, r.id, "location"@, location_text(r.location));
    assert(classify_location(location_text(r.location)) == r.location);
    let empty = r.metadata.len() == 0;
    assert(mm_level_stack(2).push("DataRessource"@) =~= mm_level_stack(3));
    let s2 = MultiModelParse { stack: mm_level_stack(3), events: st.events + 2, ..st };
    let r0 = DataResourceView { id: r.id, location: r.location, metadata: Seq::empty() };
    assert(mm_handle_start(s2, attribute_reads(a), limits) == Ok::<MultiModelParse, ParseFault>(with_resources(s2, seq![r0]))) by {
        let stk = s2.stack;
        assert(stk[stk.len() - 1] == "DataRessource"@);
        assert(stk[stk.len() - 2] == "ModelData"@);
        assert(!path_ends(stk, "ApplicationModels"@, "ApplicationModel"@));
        assert(!path_ends(stk, "ApplicationModel"@, "ModelData"@));
        assert(path_ends(stk, "ModelData"@, "DataRessource"@));
        let m = s2.models.last();
        let dd = m.representations.last();
        assert(dd.resources.push(r0) =~= dd.resources + seq![r0]);
        assert(crate::xml_rules::required_attr(a, "id"@, "DataRessource"@) == Ok::<Seq<char>, Seq<char>>(r.id));
        assert(crate::xml_rules::required_attr(a, "location"@, "DataRessource"@) == Ok::<Seq<char>, Seq<char>>(
            location_text(r.location),
        ));
    }
    lemma_mm_open(st, "DataRessource"@, a, empty, d, limits);
    lemma_with_resources(s2, seq![r0], Seq::empty());
    let open = seq![
        indent(d, 32, 2),
        EventView::Start { namespace: NamespaceView::Bound(mmc_ns()), local: Ok("DataRessource"@), attributes: attribute_reads(a), empty },
    ];
    if empty {
        assert(r0 == r) by {
            assert(r.metadata =~= Seq::<MetadataView>::empty());
        }
        assert(tree_reads(resource_node(r), d, "mmc"@, mmc_ns(), 32, 2) =~= open);
        assert(mm_level_stack(3).drop_last() =~= mm_level_stack(2));
    } else {
        let md = metadata_trees("mmc"@, r.metadata, false);
        let b = trees_reads(md, d + 1, "mmc"@, mmc_ns(), 32, 2);
        let c = seq![indent(d, 32, 2), EventView::End];
        assert(md.len() == 1);
        assert(!(md[0] is Text));
        assert(tree_reads(resource_node(r), d, "mmc"@, mmc_ns(), 32, 2) =~= open + b + c);
        lemma_mm_run_three(st, open, b, c, limits);
        let s3 = with_resources(s2, seq![r0]);
        assert(!path_ends(s3.stack, "LinkModel"@, "LinkedModel"@));
        lemma_mm_metadata(3, r.metadata, s3, d + 1, limits);
        let s4 = with_mm_metadata(3, counted(s3, b.len() as int), r.metadata);
        lemma_resource_metadata(counted(s2, b.len() as int), r0, r.metadata);
        assert(Seq::<MetadataView>::empty() + r.metadata =~= r.metadata);
        assert(DataResourceView { metadata: r0.metadata + r.metadata, ..r0 } == r);
        lemma_with_resources(counted(s2, b.len() as int), seq![r], Seq::empty());
        lemma_mm_close(s4, d, limits);
        assert(mm_level_stack(3).drop_last() =~= mm_level_stack(2));
    }
}


/// Data resources are read back into the last representation, in order.
#[verifier::rlimit(60)]
#[verifier::spinoff_prover]
proof fn lemma_mm_resources(s: Seq<DataResourceView>, st: MultiModelParse, d: nat, limits: Limits)
    requires
        mm_ready(st),
        st.stack == mm_level_stack(2),
        mm_level_ready(2, st),
        forall|i: int| 0 <= i < s.len() ==> resource_ok(#[trigger] s[i]),
        st.events + trees_reads(resource_nodes(s), d, "mmc"@, mmc_ns(), 32, 2).len() <= limits.max_xml_events,
    ensures
        mm_run_from(st, trees_reads(resource_nodes(s), d, "mmc"@, mmc_ns(), 32, 2), limits) == Ok::<MultiModelParse, ParseFault>(
            counted(with_resources(st, s), trees_reads(resource_nodes(s), d, "mmc"@, mmc_ns(), 32, 2).len() as int),
        ),
    decreases s.len(),
{
    lemma_with_resources(st, Seq::empty(), Seq::empty());
    if s.len() == 0 {
        assert(mm_run_from(st, Seq::<EventView>::empty(), limits) == Ok::<MultiModelParse, ParseFault>(st));
        assert(counted(st, 0) == st);
    } else {
        let init = s.drop_last();
        let x = s.last();
        assert forall|i: int| 0 <= i < init.len() implies resource_ok(#[trigger] init[i]) by {
            assert(init[i] == s[i]);
        }
        crate::round_trip::lemma_trees_reads_push(resource_nodes(init), resource_node(x), d, "mmc"@, mmc_ns());
        let b1 = trees_reads(resource_nodes(init), d, "mmc"@, mmc_ns(), 32, 2);
        let b2 = tree_reads(resource_node(x), d, "mmc"@, mmc_ns(), 32, 2);
        lemma_mm_run_append(st, b1, b2, limits);
        lemma_mm_resources(init, st, d, limits);
        let s1 = counted(with_resources(st, init), b1.len() as int);
        lemma_with_resources(st, init, seq![x]);
        lemma_mm_resource(x, s1, d, limits);
        assert(init + seq![x] =~= s);
    }
}


/// The state with `ds` added to the representations of the last model.
pub open spec fn with_representations(st: MultiModelParse, ds: Seq<ModelDataView>) -> MultiModelParse {
    let m = st.models.last();
    with_last_model(st, ApplicationModelView { representations: m.representations + ds, ..m })
}

proof fn lemma_with_representations(st: MultiModelParse, a: Seq<ModelDataView>, b: Seq<ModelDataView>)
    requires
        mm_level_ready(1, st),
    ensures
        with_representations(with_representations(st, a), b) == with_representations(st, a + b),
        mm_level_ready(1, with_representations(st, a)),
        with_representations(st, Seq::empty()) == st,
        a.len() > 0 ==> mm_level_ready(2, with_representations(st, a)),
        with_representations(st, a).link_models == st.link_models,
        with_representations(st, a).metadata == st.metadata,
{
    let m = st.models.last();
    let st1 = with_representations(st, a);
    assert(st1.models.last() == ApplicationModelView { representations: m.representations + a, ..m });
    assert(m.representations + a + b =~= m.representations + (a + b));
    assert(st1.models.update(st1.models.len() - 1, ApplicationModelView { representations: m.representations + a + b, ..m })
        =~= st.models.update(st.models.len() - 1, ApplicationModelView { representations: m.representations + (a + b), ..m }));
    assert(m.representations + Seq::<ModelDataView>::empty() =~= m.representations);
    assert(st.models.update(st.models.len() - 1, m) =~= st.models);
}

proof fn lemma_representation_fill(st: MultiModelParse, d0: ModelDataView, items: Seq<MetadataView>, rs: Seq<DataResourceView>)
    requires
        mm_level_ready(1, st),
    ensures
        with_mm_metadata(2, with_representations(st, seq![d0]), items) == with_representations(
            st,
            seq![ModelDataView { metadata: d0.metadata + items, ..d0 }],
        ),
        with_resources(with_representations(st, seq![d0]), rs) == with_representations(
            st,
            seq![ModelDataView { resources: d0.resources + rs, ..d0 }],
        ),
{
    let m = st.models.last();
    let st1 = with_representations(st, seq![d0]);
    let m1 = ApplicationModelView { representations: m.representations + seq![d0], ..m };
    assert(st1.models.last() == m1);
    assert(m1.representations.last() == d0);
    let d1 = ModelDataView { metadata: d0.metadata + items, ..d0 };
    assert(m1.representations.update(m1.representations.len() - 1, d1) =~= m.representations + seq![d1]);
    assert(st1.models.update(st1.models.len() - 1, with_last_representation(m1, d1)) =~= st.models.update(
        st.models.len() - 1,
        ApplicationModelView { representations: m.representations + seq![d1], ..m },
    ));
    let d2 = ModelDataView { resources: d0.resources + rs, ..d0 };
    assert(m1.representations.update(m1.representations.len() - 1, d2) =~= m.representations + seq![d2]);
    assert(st1.models.update(st1.models.len() - 1, with_last_representation(m1, d2)) =~= st.models.update(
        st.models.len() - 1,
        ApplicationModelView { representations: m.representations + seq![d2], ..m },
    ));
}

/// The attributes of a written representation.
proof fn lemma_representation_attrs(d: ModelDataView)
    requires
        representation_ok(d),
    ensures
        plain_attributes(seq![("id"@, d.id), ("formatType"@, d.format_type)] + opt_attr("formatVersion"@, d.format_version)),
        attribute_map(attribute_reads(seq![("id"@, d.id), ("formatType"@, d.format_type)] + opt_attr("formatVersion"@, d.format_version)))
            == Ok::<Seq<(Seq<char>, Seq<char>)>, Seq<char>>(
            seq![("id"@, d.id), ("formatType"@, d.format_type)] + opt_attr("formatVersion"@, d.format_version),
        ),
        crate::xml_rules::required_attr(
            seq![("id"@, d.id), ("formatType"@, d.format_type)] + opt_attr("formatVersion"@, d.format_version),
            "id"@,
            "ModelData"@,
        ) == Ok::<Seq<char>, Seq<char>>(d.id),
        crate::xml_rules::required_attr(
            seq![("id"@, d.id), ("formatType"@, d.format_type)] + opt_attr("formatVersion"@, d.format_version),
            "formatType"@,
            "ModelData"@,
        ) == Ok::<Seq<char>, Seq<char>>(d.format_type),
        attr_get(
            seq![("id"@, d.id), ("formatType"@, d.format_type)] + opt_attr("formatVersion"@, d.format_version),
            "formatVersion"@,
        ) == d.format_version,
{
    crate::container_tree::lemma_mmc_literals();
    let a = seq![("id"@, d.id), ("formatType"@, d.format_type)] + opt_attr("formatVersion"@, d.format_version);
    assert forall|i: int, j: int| 0 <= i < j < a.len() implies #[trigger] a[i].0 != #[trigger] a[j].0 by {}
    assert(plain_attributes(a));
    lemma_attribute_map_plain(a);
    lemma_attr_get(a, "id"@);
    lemma_attr_get(a, "formatType"@);
    lemma_attr_get(a, "formatVersion"@);
    assert(a[0].0 == "id"@);
    assert(a[1].0 == "formatType"@);
    if d.format_version is Some {
        assert(a[2] == ("formatVersion"@, d.format_version->Some_0));
    }
}

/// A representation is read back into the last application model.
#[verifier::rlimit(80)]
#[verifier::spinoff_prover]
proof fn lemma_mm_representation(x: ModelDataView, st: MultiModelParse, dep: nat, limits: Limits)
    requires
        mm_ready(st),
        st.stack == mm_level_stack(1),
        mm_level_ready(1, st),
        representation_ok(x),
        st.events + tree_reads(representation_node(x), dep, "mmc"@, mmc_ns(), 32, 2).len() <= limits.max_xml_events,
    ensures
        mm_run_from(st, tree_reads(representation_node(x), dep, "mmc"@, mmc_ns(), 32, 2), limits) == Ok::<
            MultiModelParse,
            ParseFault,
        >(counted(with_representations(st, seq![x]), tree_reads(representation_node(x), dep, "mmc"@, mmc_ns(), 32, 2).len() as int)),
{
    lemma_mm_names();
    lemma_mm_paths(2);
    crate::container_tree::lemma_mmc_literals();
    lemma_representation_attrs(x);
    let a = seq![("id"@, x.id), ("formatType"@, x.format_type)] + opt_attr("formatVersion"@, x.format_version);
    assert(mm_level_stack(1).push("ModelData"@) =~= mm_level_stack(2));
    let s2 = MultiModelParse { stack: mm_level_stack(2), events: st.events + 2, ..st };
    let d0 = ModelDataView {
        id: x.id,
        format_type: x.format_type,
        format_version: x.format_version,
        metadata: Seq::empty(),
        resources: Seq::empty(),
    };
    assert(mm_handle_start(s2, attribute_reads(a), limits) == Ok::<MultiModelParse, ParseFault>(
        with_representations(s2, seq![d0]),
    )) by {
        let stk = s2.stack;
        assert(stk[stk.len() - 1] == "ModelData"@);
        assert(stk[stk.len() - 2] == "ApplicationModel"@);
        assert(!path_ends(stk, "ApplicationModels"@, "ApplicationModel"@));
        assert(path_ends(stk, "ApplicationModel"@, "ModelData"@));
        let m = s2.models.last();
        assert(m.representations.push(d0) =~= m.representations + seq![d0]);
    }
    lemma_mm_open(st, "ModelData"@, a, false, dep, limits);
    let open = seq![
        indent(dep, 32, 2),
        EventView::Start { namespace: NamespaceView::Bound(mmc_ns()), local: Ok("ModelData"@), attributes: attribute_reads(a), empty: false },
    ];
    let md = metadata_trees("mmc"@, x.metadata, false);
    let rn = resource_nodes(x.resources);
    crate::container_tree::lemma_resource_nodes_elements(x.resources);
    let b = trees_reads(md, dep + 1, "mmc"@, mmc_ns(), 32, 2);
    let b2 = trees_reads(rn, dep + 1, "mmc"@, mmc_ns(), 32, 2);
    lemma_trees_reads_append(md, rn, dep + 1, "mmc"@, mmc_ns());
    let c = seq![indent(dep, 32, 2), EventView::End];
    assert(!((md + rn).len() == 1 && (md + rn)[0] is Text)) by {
        if md.len() > 0 {
            assert((md + rn)[0] == md[0]);
        } else if rn.len() > 0 {
            assert((md + rn)[0] == rn[0]);
        }
    }
    assert(tree_reads(representation_node(x), dep, "mmc"@, mmc_ns(), 32, 2) =~= open + (b + b2) + c);
    lemma_mm_run_three(st, open, b + b2, c, limits);
    lemma_mm_run_append(with_representations(s2, seq![d0]), b, b2, limits);
    let s3 = with_representations(s2, seq![d0]);
    lemma_with_representations(s2, seq![d0], Seq::empty());
    assert(!path_ends(s3.stack, "LinkModel"@, "LinkedModel"@));
    lemma_mm_metadata(2, x.metadata, s3, dep + 1, limits);
    lemma_representation_fill(counted(s2, b.len() as int), d0, x.metadata, Seq::empty());
    let d1 = ModelDataView { metadata: d0.metadata + x.metadata, ..d0 };
    let s4 = with_representations(counted(s2, b.len() as int), seq![d1]);
    lemma_with_representations(counted(s2, b.len() as int), seq![d1], Seq::empty());
    lemma_mm_resources(x.resources, s4, dep + 1, limits);
    lemma_representation_fill(counted(s2, (b.len() + b2.len()) as int), d1, Seq::empty(), x.resources);
    let d2 = ModelDataView { resources: d1.resources + x.resources, ..d1 };
    assert(Seq::<MetadataView>::empty() + x.metadata =~= x.metadata);
    assert(Seq::<DataResourceView>::empty() + x.resources =~= x.resources);
    assert(d2 == x);
    let s5 = with_representations(counted(s2, (b.len() + b2.len()) as int), seq![x]);
    lemma_with_representations(counted(s2, (b.len() + b2.len()) as int), seq![x], Seq::empty());
    lemma_mm_close(s5, dep, limits);
    assert(mm_level_stack(2).drop_last() =~= mm_level_stack(1));
}


/// Representations are read back into the last application model, in order.
#[verifier::rlimit(60)]
#[verifier::spinoff_prover]
proof fn lemma_mm_representations(s: Seq<ModelDataView>, st: MultiModelParse, d: nat, limits: Limits)
    requires
        mm_ready(st),
        st.stack == mm_level_stack(1),
        mm_level_ready(1, st),
        forall|i: int| 0 <= i < s.len() ==> representation_ok(#[trigger] s[i]),
        st.events + trees_reads(representation_nodes(s), d, "mmc"@, mmc_ns(), 32, 2).len() <= limits.max_xml_events,
    ensures
        mm_run_from(st, trees_reads(representation_nodes(s), d, "mmc"@, mmc_ns(), 32, 2), limits) == Ok::<
            MultiModelParse,
            ParseFault,
        >(counted(with_representations(st, s), trees_reads(representation_nodes(s), d, "mmc"@, mmc_ns(), 32, 2).len() as int)),
    decreases s.len(),
{
    lemma_with_representations(st, Seq::empty(), Seq::empty());
    if s.len() == 0 {
        assert(mm_run_from(st, Seq::<EventView>::empty(), limits) == Ok::<MultiModelParse, ParseFault>(st));
        assert(counted(st, 0) == st);
    } else {
        let init = s.drop_last();
        let x = s.last();
        assert forall|i: int| 0 <= i < init.len() implies representation_ok(#[trigger] init[i]) by {
            assert(init[i] == s[i]);
        }
        crate::round_trip::lemma_trees_reads_push(representation_nodes(init), representation_node(x), d, "mmc"@, mmc_ns());
        let b1 = trees_reads(representation_nodes(init), d, "mmc"@, mmc_ns(), 32, 2);
        let b2 = tree_reads(representation_node(x), d, "mmc"@, mmc_ns(), 32, 2);
        lemma_mm_run_append(st, b1, b2, limits);
        lemma_mm_representations(init, st, d, limits);
        let s1 = counted(with_representations(st, init), b1.len() as int);
        lemma_with_representations(st, init, seq![x]);
        lemma_mm_representation(x, s1, d, limits);
        assert(init + seq![x] =~= s);
    }
}

/// The state with `ms` added to the application models.
pub open spec fn with_models(st: MultiModelParse, ms: Seq<ApplicationModelView>) -> MultiModelParse {
    MultiModelParse { models: st.models + ms, ..st }
}

proof fn lemma_model_fill(
    st: MultiModelParse,
    m0: ApplicationModelView,
    items: Seq<MetadataView>,
    ds: Seq<ModelDataView>,
)
    ensures
        with_mm_metadata(1, with_models(st, seq![m0]), items) == with_models(
            st,
            seq![ApplicationModelView { metadata: m0.metadata + items, ..m0 }],
        ),
        with_representations(with_models(st, seq![m0]), ds) == with_models(
            st,
            seq![ApplicationModelView { representations: m0.representations + ds, ..m0 }],
        ),
        mm_level_ready(1, with_models(st, seq![m0])),
{
    let st1 = with_models(st, seq![m0]);
    assert(st1.models.last() == m0);
    let m1 = ApplicationModelView { metadata: m0.metadata + items, ..m0 };
    assert(st1.models.update(st1.models.len() - 1, m1) =~= st.models + seq![m1]);
    let m2 = ApplicationModelView { representations: m0.representations + ds, ..m0 };
    assert(st1.models.update(st1.models.len() - 1, m2) =~= st.models + seq![m2]);
}

/// An application model is read back.
#[verifier::rlimit(80)]
#[verifier::spinoff_prover]
proof fn lemma_mm_model(x: ApplicationModelView, st: MultiModelParse, dep: nat, limits: Limits)
    requires
        mm_ready(st),
        st.stack == seq!["MultiModel"@, "ApplicationModels"@],
        model_ok(x),
        st.models.len() + 1 <= limits.max_models,
        st.events + tree_reads(model_node(x), dep, "mmc"@, mmc_ns(), 32, 2).len() <= limits.max_xml_events,
    ensures
        mm_run_from(st, tree_reads(model_node(x), dep, "mmc"@, mmc_ns(), 32, 2), limits) == Ok::<MultiModelParse, ParseFault>(
            counted(with_models(st, seq![x]), tree_reads(model_node(x), dep, "mmc"@, mmc_ns(), 32, 2).len() as int),
        ),
{
    lemma_mm_names();
    lemma_mm_paths(1);
    crate::container_tree::lemma_mmc_literals();
    let a = seq![("id"@, x.id), ("modelType"@, x.model_type)];
    assert forall|i: int, j: int| 0 <= i < j < a.len() implies #[trigger] a[i].0 != #[trigger] a[j].0 by {}
    assert(plain_attributes(a));
    lemma_two_attrs("id"@, x.id, "modelType"@, x.model_type);
    assert(st.stack.push("ApplicationModel"@) =~= mm_level_stack(1));
    let s2 = MultiModelParse { stack: mm_level_stack(1), events: st.events + 2, ..st };
    let m0 = ApplicationModelView { id: x.id, model_type: x.model_type, metadata: Seq::empty(), representations: Seq::empty() };
    assert(mm_handle_start(s2, attribute_reads(a), limits) == Ok::<MultiModelParse, ParseFault>(with_models(s2, seq![m0]))) by {
        let stk = s2.stack;
        assert(stk[stk.len() - 1] == "ApplicationModel"@);
        assert(stk[stk.len() - 2] == "ApplicationModels"@);
        assert(path_ends(stk, "ApplicationModels"@, "ApplicationModel"@));
        assert(s2.models.push(m0) =~= s2.models + seq![m0]);
        assert(crate::xml_rules::required_attr(a, "id"@, "ApplicationModel"@) == Ok::<Seq<char>, Seq<char>>(x.id));
        assert(crate::xml_rules::required_attr(a, "modelType"@, "ApplicationModel"@) == Ok::<Seq<char>, Seq<char>>(
            x.model_type,
        ));
    }
    lemma_mm_open(st, "ApplicationModel"@, a, false, dep, limits);
    let open = seq![
        indent(dep, 32, 2),
        EventView::Start { namespace: NamespaceView::Bound(mmc_ns()), local: Ok("ApplicationModel"@), attributes: attribute_reads(a), empty: false },
    ];
    let md = metadata_trees("mmc"@, x.metadata, false);
    let rn = representation_nodes(x.representations);
    crate::container_tree::lemma_representation_nodes_elements(x.representations);
    let b = trees_reads(md, dep + 1, "mmc"@, mmc_ns(), 32, 2);
    let b2 = trees_reads(rn, dep + 1, "mmc"@, mmc_ns(), 32, 2);
    lemma_trees_reads_append(md, rn, dep + 1, "mmc"@, mmc_ns());
    let c = seq![indent(dep, 32, 2), EventView::End];
    assert(!((md + rn).len() == 1 && (md + rn)[0] is Text)) by {
        if md.len() > 0 {
            assert((md + rn)[0] == md[0]);
        } else if rn.len() > 0 {
            assert((md + rn)[0] == rn[0]);
        }
    }
    assert(tree_reads(model_node(x), dep, "mmc"@, mmc_ns(), 32, 2) =~= open + (b + b2) + c);
    lemma_mm_run_three(st, open, b + b2, c, limits);
    lemma_mm_run_append(with_models(s2, seq![m0]), b, b2, limits);
    let s3 = with_models(s2, seq![m0]);
    lemma_model_fill(s2, m0, x.metadata, Seq::empty());
    assert(!path_ends(s3.stack, "LinkModel"@, "LinkedModel"@));
    lemma_mm_metadata(1, x.metadata, s3, dep + 1, limits);
    lemma_model_fill(counted(s2, b.len() as int), m0, x.metadata, Seq::empty());
    let m1 = ApplicationModelView { metadata: m0.metadata + x.metadata, ..m0 };
    let s4 = with_models(counted(s2, b.len() as int), seq![m1]);
    lemma_model_fill(counted(s2, b.len() as int), m1, Seq::empty(), Seq::empty());
    lemma_mm_representations(x.representations, s4, dep + 1, limits);
    lemma_model_fill(counted(s2, (b.len() + b2.len()) as int), m1, Seq::empty(), x.representations);
    let m2 = ApplicationModelView { representations: m1.representations + x.representations, ..m1 };
    assert(Seq::<MetadataView>::empty() + x.metadata =~= x.metadata);
    assert(Seq::<ModelDataView>::empty() + x.representations =~= x.representations);
    assert(m2 == x);
    let s5 = with_models(counted(s2, (b.len() + b2.len()) as int), seq![x]);
    lemma_mm_close(s5, dep, limits);
    assert(mm_level_stack(1).drop_last() =~= st.stack);
}


/// Application models are read back, in order.
#[verifier::rlimit(60)]
#[verifier::spinoff_prover]
proof fn lemma_mm_models(s: Seq<ApplicationModelView>, st: MultiModelParse, d: nat, limits: Limits)
    requires
        mm_ready(st),
        st.stack == seq!["MultiModel"@, "ApplicationModels"@],
        forall|i: int| 0 <= i < s.len() ==> model_ok(#[trigger] s[i]),
        st.models.len() + s.len() <= limits.max_models,
        st.events + trees_reads(model_nodes(s), d, "mmc"@, mmc_ns(), 32, 2).len() <= limits.max_xml_events,
    ensures
        mm_run_from(st, trees_reads(model_nodes(s), d, "mmc"@, mmc_ns(), 32, 2), limits) == Ok::<MultiModelParse, ParseFault>(
            counted(with_models(st, s), trees_reads(model_nodes(s), d, "mmc"@, mmc_ns(), 32, 2).len() as int),
        ),
    decreases s.len(),
{
    assert(st.models + Seq::<ApplicationModelView>::empty() =~= st.models);
    if s.len() == 0 {
        assert(mm_run_from(st, Seq::<EventView>::empty(), limits) == Ok::<MultiModelParse, ParseFault>(st));
        assert(counted(st, 0) == st);
        assert(with_models(st, s) == st);
    } else {
        let init = s.drop_last();
        let x = s.last();
        assert forall|i: int| 0 <= i < init.len() implies model_ok(#[trigger] init[i]) by {
            assert(init[i] == s[i]);
        }
        crate::round_trip::lemma_trees_reads_push(model_nodes(init), model_node(x), d, "mmc"@, mmc_ns());
        let b1 = trees_reads(model_nodes(init), d, "mmc"@, mmc_ns(), 32, 2);
        let b2 = tree_reads(model_node(x), d, "mmc"@, mmc_ns(), 32, 2);
        lemma_mm_run_append(st, b1, b2, limits);
        lemma_mm_models(init, st, d, limits);
        let s1 = counted(with_models(st, init), b1.len() as int);
        lemma_mm_model(x, s1, d, limits);
        assert(st.models + init + seq![x] =~= st.models + s);
    }
}

/// An escaped character is read back from its entity reference.
proof fn lemma_escape_reference(c: char)
    requires
        escape_name(c) is Some,
        crate::xml_rules::is_xml_char(c),
    ensures
        reference_value(Ok(None), Ok(escape_name(c)->Some_0)) == Ok::<char, Seq<char>>(c),
{
    reveal_strlit("lt");
    reveal_strlit("gt");
    reveal_strlit("amp");
    reveal_strlit("apos");
    reveal_strlit("quot");
    assert("gt"@[0] != "lt"@[0]);
    assert("amp"@.len() != "lt"@.len());
    assert("amp"@.len() != "gt"@.len());
    assert("apos"@.len() != "lt"@.len());
    assert("apos"@.len() != "gt"@.len());
    assert("apos"@[1] != "amp"@[1]);
    assert("quot"@.len() != "lt"@.len());
    assert("quot"@.len() != "gt"@.len());
    assert("quot"@.len() != "amp"@.len());
    assert("quot"@[0] != "apos"@[0]);
}

/// The pending run of plain text, if any, is read into the linked text.
proof fn lemma_mm_pending(run: Seq<char>, st: MultiModelParse, limits: Limits)
    requires
        st.linked_text is Some,
        !st.done,
        st.stack.len() > 0,
        0 <= st.events,
        all_xml_chars(run),
        st.events + (if run.len() == 0 { 0int } else { 1int }) <= limits.max_xml_events,
    ensures
        mm_run_from(
            st,
            if run.len() == 0 {
                Seq::<EventView>::empty()
            } else {
                seq![EventView::Text(Ok(run))]
            },
            limits,
        ) == Ok::<MultiModelParse, ParseFault>(
            MultiModelParse {
                linked_text: Some(st.linked_text->Some_0 + run),
                events: st.events + (if run.len() == 0 { 0int } else { 1int }),
                ..st
            },
        ),
{
    let v = st.linked_text->Some_0;
    if run.len() == 0 {
        assert(mm_run_from(st, Seq::<EventView>::empty(), limits) == Ok::<MultiModelParse, ParseFault>(st));
        assert(v + run =~= v);
    } else {
        lemma_mm_one(st, EventView::Text(Ok(run)), limits);
    }
}

/// An escaped character is read into the linked text.
proof fn lemma_mm_escaped(c: char, st: MultiModelParse, limits: Limits)
    requires
        st.linked_text is Some,
        !st.done,
        st.stack.len() > 0,
        0 <= st.events,
        escape_name(c) is Some,
        crate::xml_rules::is_xml_char(c),
        st.events + 1 <= limits.max_xml_events,
    ensures
        mm_run_from(st, seq![EventView::Reference { character: Ok(None), name: Ok(escape_name(c)->Some_0) }], limits)
            == Ok::<MultiModelParse, ParseFault>(
            MultiModelParse { linked_text: Some(st.linked_text->Some_0.push(c)), events: st.events + 1, ..st },
        ),
{
    lemma_escape_reference(c);
    lemma_mm_one(st, EventView::Reference { character: Ok(None), name: Ok(escape_name(c)->Some_0) }, limits);
}

proof fn lemma_text_reads_len(s: Seq<char>, run: Seq<char>)
    ensures
        run.len() > 0 ==> text_reads_from(s, run).len() >= 1,
    decreases s.len(),
{
    if s.len() > 0 {
        lemma_text_reads_len(s.drop_first(), run.push(s[0]));
    }
}

/// Escaped text is read back as written, after what was read before.
#[verifier::rlimit(60)]
#[verifier::spinoff_prover]
proof fn lemma_mm_text(s: Seq<char>, run: Seq<char>, st: MultiModelParse, limits: Limits)
    requires
        st.linked_text is Some,
        !st.done,
        st.stack.len() > 0,
        0 <= st.events,
        all_xml_chars(run),
        all_xml_chars(s),
        st.events + text_reads_from(s, run).len() <= limits.max_xml_events,
    ensures
        mm_run_from(st, text_reads_from(s, run), limits) == Ok::<MultiModelParse, ParseFault>(
            MultiModelParse {
                linked_text: Some(st.linked_text->Some_0 + run + s),
                events: st.events + text_reads_from(s, run).len(),
                ..st
            },
        ),
    decreases s.len(),
{
    let v = st.linked_text->Some_0;
    let pending = if run.len() == 0 {
        Seq::<EventView>::empty()
    } else {
        seq![EventView::Text(Ok(run))]
    };
    let k: int = if run.len() == 0 { 0int } else { 1int };
    let after = MultiModelParse { linked_text: Some(v + run), events: st.events + k, ..st };
    if s.len() == 0 {
        assert(text_reads_from(s, run) == pending);
        lemma_mm_pending(run, st, limits);
        assert(v + run + s =~= v + run);
    } else {
        let c = s[0];
        assert(crate::xml_rules::is_xml_char(c));
        assert(all_xml_chars(s.drop_first()));
        if escape_name(c) is Some {
            let n = escape_name(c)->Some_0;
            let r = seq![EventView::Reference { character: Ok(None), name: Ok(n) }];
            let rest = text_reads_from(s.drop_first(), Seq::empty());
            assert(text_reads_from(s, run) == pending + r + rest);
            lemma_mm_run_three(st, pending, r, rest, limits);
            lemma_mm_pending(run, st, limits);
            lemma_mm_escaped(c, after, limits);
            let a2 = MultiModelParse { linked_text: Some((v + run).push(c)), events: after.events + 1, ..st };
            assert(all_xml_chars(Seq::<char>::empty()));
            lemma_mm_text(s.drop_first(), Seq::empty(), a2, limits);
            assert((v + run).push(c) + Seq::<char>::empty() + s.drop_first() =~= v + run + s);
        } else {
            assert(text_reads_from(s, run) == text_reads_from(s.drop_first(), run.push(c)));
            assert(all_xml_chars(run.push(c)));
            lemma_mm_text(s.drop_first(), run.push(c), st, limits);
            assert(v + run.push(c) + s.drop_first() =~= v + run + s);
        }
    }
}


proof fn lemma_mm_more_paths()
    ensures
        valid_multimodel_path(seq!["MultiModel"@, "ApplicationModels"@]),
        valid_multimodel_path(seq!["MultiModel"@, "LinkModels"@]),
        valid_multimodel_path(mm_level_stack(4).push("LinkedModel"@)),
        !extension_ancestor(seq!["MultiModel"@, "ApplicationModels"@]),
        !extension_ancestor(seq!["MultiModel"@, "LinkModels"@]),
        !extension_ancestor(mm_level_stack(4).push("LinkedModel"@)),
        seq!["MultiModel"@, "LinkModels"@].push("LinkModel"@) == mm_level_stack(4),
        seq!["MultiModel"@].push("ApplicationModels"@) == seq!["MultiModel"@, "ApplicationModels"@],
        seq!["MultiModel"@].push("LinkModels"@) == seq!["MultiModel"@, "LinkModels"@],
{
    lemma_mm_names();
    let a = seq!["MultiModel"@, "ApplicationModels"@];
    let l = seq!["MultiModel"@, "LinkModels"@];
    let k = mm_level_stack(4).push("LinkedModel"@);
    assert(a =~= seq!["MultiModel", "ApplicationModels"].map_values(|x: &str| x@));
    assert(l =~= seq!["MultiModel", "LinkModels"].map_values(|x: &str| x@));
    assert(k =~= seq!["MultiModel", "LinkModels", "LinkModel", "LinkedModel"].map_values(|x: &str| x@));
    lemma_letters_stack(a);
    lemma_letters_stack(l);
    lemma_letters_stack(k);
    assert(l.push("LinkModel"@) =~= mm_level_stack(4));
    assert(seq!["MultiModel"@].push("ApplicationModels"@) =~= a);
    assert(seq!["MultiModel"@].push("LinkModels"@) =~= l);
}

/// The state with `ls` added to the linked models of the last reference.
pub open spec fn with_linked(st: MultiModelParse, ls: Seq<Seq<char>>) -> MultiModelParse {
    let l = st.link_models.last();
    MultiModelParse {
        link_models: st.link_models.update(
            st.link_models.len() - 1,
            LinkModelReferenceView { linked_models: l.linked_models + ls, ..l },
        ),
        ..st
    }
}

proof fn lemma_with_linked(st: MultiModelParse, a: Seq<Seq<char>>, b: Seq<Seq<char>>)
    requires
        st.link_models.len() > 0,
    ensures
        with_linked(with_linked(st, a), b) == with_linked(st, a + b),
        with_linked(st, Seq::empty()) == st,
        with_linked(st, a).link_models.len() == st.link_models.len(),
{
    let l = st.link_models.last();
    let st1 = with_linked(st, a);
    assert(st1.link_models.last() == LinkModelReferenceView { linked_models: l.linked_models + a, ..l });
    assert(l.linked_models + a + b =~= l.linked_models + (a + b));
    assert(st1.link_models.update(
        st1.link_models.len() - 1,
        LinkModelReferenceView { linked_models: l.linked_models + a + b, ..l },
    ) =~= st.link_models.update(st.link_models.len() - 1, LinkModelReferenceView { linked_models: l.linked_models + (a + b), ..l }));
    assert(l.linked_models + Seq::<Seq<char>>::empty() =~= l.linked_models);
    assert(st.link_models.update(st.link_models.len() - 1, l) =~= st.link_models);
}

/// A linked model is read back into the last reference.
#[verifier::rlimit(60)]
#[verifier::spinoff_prover]
proof fn lemma_mm_linked(v: Seq<char>, st: MultiModelParse, dep: nat, limits: Limits)
    requires
        mm_ready(st),
        st.stack == mm_level_stack(4),
        st.link_models.len() > 0,
        plain_value(v),
        st.events + tree_reads(linked_node(v), dep, "mmc"@, mmc_ns(), 32, 2).len() <= limits.max_xml_events,
    ensures
        mm_run_from(st, tree_reads(linked_node(v), dep, "mmc"@, mmc_ns(), 32, 2), limits) == Ok::<MultiModelParse, ParseFault>(
            counted(with_linked(st, seq![v]), tree_reads(linked_node(v), dep, "mmc"@, mmc_ns(), 32, 2).len() as int),
        ),
{
    lemma_mm_names();
    lemma_mm_more_paths();
    crate::container_tree::lemma_mmc_literals();
    assert(plain_attributes(Seq::<(Seq<char>, Seq<char>)>::empty()));
    let open = seq![
        indent(dep, 32, 2),
        EventView::Start {
            namespace: NamespaceView::Bound(mmc_ns()),
            local: Ok("LinkedModel"@),
            attributes: attribute_reads(Seq::empty()),
            empty: false,
        },
    ];
    let body = text_reads(v);
    crate::round_trip::lemma_trees_reads_one(XmlTree::Text(v), dep + 1, "mmc"@, mmc_ns());
    let close = seq![EventView::End];
    let cs = seq![XmlTree::Text(v)];
    assert(cs.len() == 1 && cs[0] is Text);
    assert(tree_reads(linked_node(v), dep, "mmc"@, mmc_ns(), 32, 2) =~= open + body + close);
    lemma_mm_run_three(st, open, body, close, limits);
    let s2 = MultiModelParse { stack: mm_level_stack(4).push("LinkedModel"@), events: st.events + 2, ..st };
    lemma_mm_plain_start(s2, limits);
    assert(path_ends(s2.stack, "LinkModel"@, "LinkedModel"@));
    lemma_mm_open(st, "LinkedModel"@, Seq::empty(), false, dep, limits);
    let s3 = MultiModelParse { linked_text: Some(Seq::empty()), ..s2 };
    assert(all_xml_chars(Seq::<char>::empty()));
    lemma_mm_text(v, Seq::empty(), s3, limits);
    assert(Seq::<char>::empty() + Seq::<char>::empty() + v =~= v);
    let s4 = MultiModelParse { linked_text: Some(v), events: s3.events + body.len(), ..s3 };
    lemma_mm_one(s4, EventView::End, limits);
    lemma_letters_stack(s4.stack);
    let l = st.link_models.last();
    assert(l.linked_models.push(v) =~= l.linked_models + seq![v]);
    assert(s4.stack.drop_last() =~= st.stack);
}


/// Linked models are read back into the last reference, in order.
#[verifier::rlimit(60)]
#[verifier::spinoff_prover]
proof fn lemma_mm_linkeds(s: Seq<Seq<char>>, st: MultiModelParse, d: nat, limits: Limits)
    requires
        mm_ready(st),
        st.stack == mm_level_stack(4),
        st.link_models.len() > 0,
        forall|i: int| 0 <= i < s.len() ==> plain_value(#[trigger] s[i]),
        st.events + trees_reads(linked_nodes(s), d, "mmc"@, mmc_ns(), 32, 2).len() <= limits.max_xml_events,
    ensures
        mm_run_from(st, trees_reads(linked_nodes(s), d, "mmc"@, mmc_ns(), 32, 2), limits) == Ok::<MultiModelParse, ParseFault>(
            counted(with_linked(st, s), trees_reads(linked_nodes(s), d, "mmc"@, mmc_ns(), 32, 2).len() as int),
        ),
    decreases s.len(),
{
    lemma_with_linked(st, Seq::empty(), Seq::empty());
    if s.len() == 0 {
        assert(mm_run_from(st, Seq::<EventView>::empty(), limits) == Ok::<MultiModelParse, ParseFault>(st));
        assert(counted(st, 0) == st);
    } else {
        let init = s.drop_last();
        let x = s.last();
        assert forall|i: int| 0 <= i < init.len() implies plain_value(#[trigger] init[i]) by {
            assert(init[i] == s[i]);
        }
        crate::round_trip::lemma_trees_reads_push(linked_nodes(init), linked_node(x), d, "mmc"@, mmc_ns());
        let b1 = trees_reads(linked_nodes(init), d, "mmc"@, mmc_ns(), 32, 2);
        let b2 = tree_reads(linked_node(x), d, "mmc"@, mmc_ns(), 32, 2);
        lemma_mm_run_append(st, b1, b2, limits);
        lemma_mm_linkeds(init, st, d, limits);
        let s1 = counted(with_linked(st, init), b1.len() as int);
        lemma_with_linked(st, init, seq![x]);
        lemma_mm_linked(x, s1, d, limits);
        assert(init + seq![x] =~= s);
    }
}

/// The state with `rs` added to the LinkModel references.
pub open spec fn with_refs(st: MultiModelParse, rs: Seq<LinkModelReferenceView>) -> MultiModelParse {
    MultiModelParse { link_models: st.link_models + rs, ..st }
}

proof fn lemma_reference_fill(
    st: MultiModelParse,
    l0: LinkModelReferenceView,
    items: Seq<MetadataView>,
    ls: Seq<Seq<char>>,
)
    ensures
        with_mm_metadata(4, with_refs(st, seq![l0]), items) == with_refs(
            st,
            seq![LinkModelReferenceView { metadata: l0.metadata + items, ..l0 }],
        ),
        with_linked(with_refs(st, seq![l0]), ls) == with_refs(
            st,
            seq![LinkModelReferenceView { linked_models: l0.linked_models + ls, ..l0 }],
        ),
        with_refs(st, seq![l0]).link_models.len() > 0,
{
    let st1 = with_refs(st, seq![l0]);
    assert(st1.link_models.last() == l0);
    let l1 = LinkModelReferenceView { metadata: l0.metadata + items, ..l0 };
    assert(st1.link_models.update(st1.link_models.len() - 1, l1) =~= st.link_models + seq![l1]);
    let l2 = LinkModelReferenceView { linked_models: l0.linked_models + ls, ..l0 };
    assert(st1.link_models.update(st1.link_models.len() - 1, l2) =~= st.link_models + seq![l2]);
}

/// A LinkModel reference is read back.
#[verifier::rlimit(80)]
#[verifier::spinoff_prover]
proof fn lemma_mm_reference(x: LinkModelReferenceView, st: MultiModelParse, dep: nat, limits: Limits)
    requires
        mm_ready(st),
        st.stack == seq!["MultiModel"@, "LinkModels"@],
        reference_ok(x),
        st.link_models.len() + 1 <= limits.max_link_models,
        st.events + tree_reads(reference_node(x), dep, "mmc"@, mmc_ns(), 32, 2).len() <= limits.max_xml_events,
    ensures
        mm_run_from(st, tree_reads(reference_node(x), dep, "mmc"@, mmc_ns(), 32, 2), limits) == Ok::<MultiModelParse, ParseFault>(
            counted(with_refs(st, seq![x]), tree_reads(reference_node(x), dep, "mmc"@, mmc_ns(), 32, 2).len() as int),
        ),
{
    lemma_mm_names();
    lemma_mm_paths(4);
    lemma_mm_more_paths();
    crate::container_tree::lemma_mmc_literals();
    let a = seq![("location"@, location_text(x.location))];
    assert(plain_attributes(a));
    lemma_attribute_map_plain(a);
    lemma_attr_get(a, "location"@);
    assert(a[0].0 == "location"@);
    assert(classify_location(location_text(x.location)) == x.location);
    let s2 = MultiModelParse { stack: mm_level_stack(4), events: st.events + 2, ..st };
    let l0 = LinkModelReferenceView { location: x.location, linked_models: Seq::empty(), metadata: Seq::empty() };
    assert(mm_handle_start(s2, attribute_reads(a), limits) == Ok::<MultiModelParse, ParseFault>(with_refs(s2, seq![l0]))) by {
        let stk = s2.stack;
        assert(stk[stk.len() - 1] == "LinkModel"@);
        assert(stk[stk.len() - 2] == "LinkModels"@);
        assert(!path_ends(stk, "ApplicationModels"@, "ApplicationModel"@));
        assert(!path_ends(stk, "ApplicationModel"@, "ModelData"@));
        assert(!path_ends(stk, "ModelData"@, "DataRessource"@));
        assert(path_ends(stk, "LinkModels"@, "LinkModel"@));
        assert(s2.link_models.push(l0) =~= s2.link_models + seq![l0]);
        assert(crate::xml_rules::required_attr(a, "location"@, "LinkModel"@) == Ok::<Seq<char>, Seq<char>>(
            location_text(x.location),
        ));
    }
    lemma_mm_open(st, "LinkModel"@, a, false, dep, limits);
    let open = seq![
        indent(dep, 32, 2),
        EventView::Start { namespace: NamespaceView::Bound(mmc_ns()), local: Ok("LinkModel"@), attributes: attribute_reads(a), empty: false },
    ];
    let md = metadata_trees("mmc"@, x.metadata, false);
    let ln = linked_nodes(x.linked_models);
    crate::container_tree::lemma_linked_nodes_elements(x.linked_models);
    let b = trees_reads(md, dep + 1, "mmc"@, mmc_ns(), 32, 2);
    let b2 = trees_reads(ln, dep + 1, "mmc"@, mmc_ns(), 32, 2);
    lemma_trees_reads_append(md, ln, dep + 1, "mmc"@, mmc_ns());
    let c = seq![indent(dep, 32, 2), EventView::End];
    assert(!((md + ln).len() == 1 && (md + ln)[0] is Text)) by {
        if md.len() > 0 {
            assert((md + ln)[0] == md[0]);
        } else if ln.len() > 0 {
            assert((md + ln)[0] == ln[0]);
        }
    }
    assert(tree_reads(reference_node(x), dep, "mmc"@, mmc_ns(), 32, 2) =~= open + (b + b2) + c);
    lemma_mm_run_three(st, open, b + b2, c, limits);
    lemma_mm_run_append(with_refs(s2, seq![l0]), b, b2, limits);
    let s3 = with_refs(s2, seq![l0]);
    lemma_reference_fill(s2, l0, x.metadata, Seq::empty());
    assert(!path_ends(s3.stack, "LinkModel"@, "LinkedModel"@));
    lemma_mm_metadata(4, x.metadata, s3, dep + 1, limits);
    lemma_reference_fill(counted(s2, b.len() as int), l0, x.metadata, Seq::empty());
    let l1 = LinkModelReferenceView { metadata: l0.metadata + x.metadata, ..l0 };
    let s4 = with_refs(counted(s2, b.len() as int), seq![l1]);
    lemma_reference_fill(counted(s2, b.len() as int), l1, Seq::empty(), Seq::empty());
    lemma_mm_linkeds(x.linked_models, s4, dep + 1, limits);
    lemma_reference_fill(counted(s2, (b.len() + b2.len()) as int), l1, Seq::empty(), x.linked_models);
    let l2 = LinkModelReferenceView { linked_models: l1.linked_models + x.linked_models, ..l1 };
    assert(Seq::<MetadataView>::empty() + x.metadata =~= x.metadata);
    assert(Seq::<Seq<char>>::empty() + x.linked_models =~= x.linked_models);
    assert(l2 == x);
    let s5 = with_refs(counted(s2, (b.len() + b2.len()) as int), seq![x]);
    lemma_mm_close(s5, dep, limits);
    assert(mm_level_stack(4).drop_last() =~= st.stack);
}

/// LinkModel references are read back, in order.
#[verifier::rlimit(60)]
#[verifier::spinoff_prover]
proof fn lemma_mm_references(s: Seq<LinkModelReferenceView>, st: MultiModelParse, d: nat, limits: Limits)
    requires
        mm_ready(st),
        st.stack == seq!["MultiModel"@, "LinkModels"@],
        forall|i: int| 0 <= i < s.len() ==> reference_ok(#[trigger] s[i]),
        st.link_models.len() + s.len() <= limits.max_link_models,
        st.events + trees_reads(reference_nodes(s), d, "mmc"@, mmc_ns(), 32, 2).len() <= limits.max_xml_events,
    ensures
        mm_run_from(st, trees_reads(reference_nodes(s), d, "mmc"@, mmc_ns(), 32, 2), limits) == Ok::<MultiModelParse, ParseFault>(
            counted(with_refs(st, s), trees_reads(reference_nodes(s), d, "mmc"@, mmc_ns(), 32, 2).len() as int),
        ),
    decreases s.len(),
{
    assert(st.link_models + Seq::<LinkModelReferenceView>::empty() =~= st.link_models);
    if s.len() == 0 {
        assert(mm_run_from(st, Seq::<EventView>::empty(), limits) == Ok::<MultiModelParse, ParseFault>(st));
        assert(counted(st, 0) == st);
        assert(with_refs(st, s) == st);
    } else {
        let init = s.drop_last();
        let x = s.last();
        assert forall|i: int| 0 <= i < init.len() implies reference_ok(#[trigger] init[i]) by {
            assert(init[i] == s[i]);
        }
        crate::round_trip::lemma_trees_reads_push(reference_nodes(init), reference_node(x), d, "mmc"@, mmc_ns());
        let b1 = trees_reads(reference_nodes(init), d, "mmc"@, mmc_ns(), 32, 2);
        let b2 = tree_reads(reference_node(x), d, "mmc"@, mmc_ns(), 32, 2);
        lemma_mm_run_append(st, b1, b2, limits);
        lemma_mm_references(init, st, d, limits);
        let s1 = counted(with_refs(st, init), b1.len() as int);
        lemma_mm_reference(x, s1, d, limits);
        assert(st.link_models + init + seq![x] =~= st.link_models + s);
    }
}


/// A namespace declaration ahead of the attributes is passed over.
proof fn lemma_map_skips_declaration(first: Result<AttributeView, Seq<char>>, rest: Seq<Result<AttributeView, Seq<char>>>)
    requires
        first matches Ok(a) && a.prefixed,
    ensures
        attribute_map(seq![first] + rest) == attribute_map(rest),
    decreases rest.len(),
{
    if rest.len() == 0 {
        assert(seq![first] + rest =~= seq![first]);
        assert(seq![first].drop_last() =~= Seq::<Result<AttributeView, Seq<char>>>::empty());
        assert(seq![first].last() == first);
        assert(attribute_map(Seq::<Result<AttributeView, Seq<char>>>::empty()) == Ok::<Seq<(Seq<char>, Seq<char>)>, Seq<char>>(
            Seq::empty(),
        ));
        assert(attribute_map(rest) == Ok::<Seq<(Seq<char>, Seq<char>)>, Seq<char>>(Seq::empty())) by {
            assert(rest =~= Seq::<Result<AttributeView, Seq<char>>>::empty());
        }
    } else {
        lemma_map_skips_declaration(first, rest.drop_last());
        assert((seq![first] + rest).drop_last() =~= seq![first] + rest.drop_last());
        assert((seq![first] + rest).last() == rest.last());
    }
}

/// The root's attributes read back as written, past the namespace declaration.
proof fn lemma_mm_root_attributes(meta: ContainerMetadataView)
    requires
        container_ok(meta, Seq::empty(), Seq::empty()),
    ensures
        ({
            let rest = seq![("uuid"@, uuid_text(meta.uuid)), ("formatVersion"@, meta.format_version)] + opt_attr(
                "mmDomain"@,
                meta.mm_domain,
            );
            &&& attribute_map(attribute_reads(container_root_attributes(meta))) == Ok::<
                Seq<(Seq<char>, Seq<char>)>,
                Seq<char>,
            >(rest)
            &&& crate::xml_rules::required_attr(rest, "uuid"@, "MultiModel"@) == Ok::<Seq<char>, Seq<char>>(
                uuid_text(meta.uuid),
            )
            &&& crate::xml_rules::required_attr(rest, "formatVersion"@, "MultiModel"@) == Ok::<Seq<char>, Seq<char>>(
                meta.format_version,
            )
            &&& attr_get(rest, "mmDomain"@) == meta.mm_domain
        }),
{
    crate::container_tree::lemma_mmc_literals();
    crate::container_tree::lemma_uuid_plain(meta.uuid);
    let attrs = container_root_attributes(meta);
    let rest = seq![("uuid"@, uuid_text(meta.uuid)), ("formatVersion"@, meta.format_version)] + opt_attr(
        "mmDomain"@,
        meta.mm_domain,
    );
    assert(attrs =~= seq![("xmlns:mmc"@, MMC_NAMESPACE@)] + rest);
    assert forall|i: int, j: int| 0 <= i < j < rest.len() implies #[trigger] rest[i].0 != #[trigger] rest[j].0 by {}
    assert(plain_attributes(rest));
    lemma_attribute_map_plain(rest);
    assert(attribute_reads(attrs) =~= seq![attribute_read(("xmlns:mmc"@, MMC_NAMESPACE@))] + attribute_reads(rest));
    reveal_strlit("xmlns:");
    reveal_strlit("xmlns:mmc");
    reveal_strlit("mmc");
    assert("xmlns:mmc"@.take(6) =~= "xmlns:"@);
    assert("xmlns:mmc"@.skip(6) =~= "mmc"@);
    lemma_map_skips_declaration(attribute_read(("xmlns:mmc"@, MMC_NAMESPACE@)), attribute_reads(rest));
    lemma_attr_get(rest, "uuid"@);
    lemma_attr_get(rest, "formatVersion"@);
    lemma_attr_get(rest, "mmDomain"@);
    assert(rest[0].0 == "uuid"@);
    assert(rest[1].0 == "formatVersion"@);
    if meta.mm_domain is Some {
        assert(rest[2] == ("mmDomain"@, meta.mm_domain->Some_0));
    }
}

/// The start of the document: the declaration, a line end, and the root
/// with its attributes.
#[verifier::rlimit(60)]
#[verifier::spinoff_prover]
proof fn lemma_mm_root_start(meta: ContainerMetadataView, limits: Limits)
    requires
        container_ok(meta, Seq::empty(), Seq::empty()),
        uuid_parse(uuid_text(meta.uuid)) == Ok::<u128, Seq<char>>(meta.uuid),
        3 <= limits.max_xml_events,
    ensures
        mm_run_from(
            mm_initial(),
            seq![
                EventView::Decl,
                indent(0, 32, 2),
                EventView::Start {
                    namespace: NamespaceView::Bound(mmc_ns()),
                    local: Ok("MultiModel"@),
                    attributes: attribute_reads(container_root_attributes(meta)),
                    empty: false,
                },
            ],
            limits,
        ) == Ok::<MultiModelParse, ParseFault>(
            MultiModelParse {
                stack: mm_level_stack(0),
                events: 3,
                root_seen: true,
                metadata: Some(ContainerMetadataView { metadata: Seq::empty(), ..meta }),
                models: Seq::empty(),
                link_models: Seq::empty(),
                linked_text: None,
                done: false,
            },
        ),
{
    lemma_mm_names();
    lemma_mm_paths(0);
    lemma_mm_root_attributes(meta);
    let start = EventView::Start {
        namespace: NamespaceView::Bound(mmc_ns()),
        local: Ok("MultiModel"@),
        attributes: attribute_reads(container_root_attributes(meta)),
        empty: false,
    };
    let s0 = mm_initial();
    let e = seq![EventView::Decl, indent(0, 32, 2), start];
    assert(e =~= seq![EventView::Decl] + seq![indent(0, 32, 2)] + seq![start]);
    lemma_mm_run_three(s0, seq![EventView::Decl], seq![indent(0, 32, 2)], seq![start], limits);
    lemma_mm_one(s0, EventView::Decl, limits);
    let s1 = MultiModelParse { events: 1, ..s0 };
    lemma_mm_one(s1, indent(0, 32, 2), limits);
    let t = seq!['\n'] + Seq::new(0nat, |i: int| 32u8 as char);
    assert(t =~= seq!['\n']);
    assert(all_xml_chars(t));
    assert(blank(t));
    let s2 = MultiModelParse { events: 2, ..s0 };
    lemma_mm_one(s2, start, limits);
    let meta0 = ContainerMetadataView { metadata: Seq::empty(), ..meta };
    assert(container_attributes(attribute_reads(container_root_attributes(meta))) == Ok::<ContainerMetadataView, Seq<char>>(
        meta0,
    ));
    assert(Seq::<Seq<char>>::empty().push("MultiModel"@) =~= mm_level_stack(0));
}


/// The events of a collection element that holds only elements, written at depth 1.
proof fn lemma_collection_reads(name: Seq<char>, local: Seq<char>, cs: Seq<XmlTree>)
    requires
        all_elements(cs),
        local_of(name, "mmc"@) == local,
    ensures
        tree_reads(
            XmlTree::Element { name, attributes: Seq::empty(), empty: false, children: cs },
            1,
            "mmc"@,
            mmc_ns(),
            32,
            2,
        ) == seq![
            indent(1, 32, 2),
            EventView::Start {
                namespace: NamespaceView::Bound(mmc_ns()),
                local: Ok(local),
                attributes: attribute_reads(Seq::empty()),
                empty: false,
            },
        ] + trees_reads(cs, 2, "mmc"@, mmc_ns(), 32, 2) + seq![indent(1, 32, 2), EventView::End],
{
    if cs.len() == 1 {
        assert(cs[0] is Element);
    }
}

/// The events read from a written `MultiModel.xml` project back to the
/// container.
#[verifier::rlimit(100)]
#[verifier::spinoff_prover]
pub proof fn lemma_container_reads(
    meta: ContainerMetadataView,
    models: Seq<ApplicationModelView>,
    refs: Seq<LinkModelReferenceView>,
    source: Seq<u8>,
    limits: Limits,
)
    requires
        container_ok(meta, models, refs),
        uuid_parse(uuid_text(meta.uuid)) == Ok::<u128, Seq<char>>(meta.uuid),
        document_reads(container_tree(meta, models, refs), "mmc"@, MMC_NAMESPACE@, 32, 2).len() <= limits.max_xml_events,
        models.len() <= limits.max_models,
        refs.len() <= limits.max_link_models,
    ensures
        multimodel_outcome(document_reads(container_tree(meta, models, refs), "mmc"@, MMC_NAMESPACE@, 32, 2), source, limits)
            == Ok::<MultiModelView, ParseFault>(MultiModelView { metadata: meta, models, link_models: refs, source }),
{
    lemma_mm_names();
    lemma_mm_paths(0);
    lemma_mm_more_paths();
    crate::container_tree::lemma_mmc_literals();
    crate::container_tree::lemma_model_nodes_elements(models);
    crate::container_tree::lemma_reference_nodes_elements(refs);
    assert(container_ok(meta, Seq::empty(), Seq::empty()));
    let doc = document_reads(container_tree(meta, models, refs), "mmc"@, MMC_NAMESPACE@, 32, 2);
    let start = EventView::Start {
        namespace: NamespaceView::Bound(mmc_ns()),
        local: Ok("MultiModel"@),
        attributes: attribute_reads(container_root_attributes(meta)),
        empty: false,
    };
    let md = metadata_trees("mmc"@, meta.metadata, false);
    let mt = models_tree(models);
    let rt = references_trees(refs);
    let children = md + seq![mt] + rt;
    assert(!(children.len() == 1 && children[0] is Text)) by {
        if md.len() > 0 {
            assert(children[0] == md[0]);
        } else {
            assert(children[0] == mt);
        }
    }
    lemma_trees_reads_append(md + seq![mt], rt, 1, "mmc"@, mmc_ns());
    lemma_trees_reads_append(md, seq![mt], 1, "mmc"@, mmc_ns());
    crate::round_trip::lemma_trees_reads_one(mt, 1, "mmc"@, mmc_ns());
    let e0 = seq![EventView::Decl, indent(0, 32, 2), start];
    let b1 = trees_reads(md, 1, "mmc"@, mmc_ns(), 32, 2);
    let b2 = tree_reads(mt, 1, "mmc"@, mmc_ns(), 32, 2);
    let b3 = trees_reads(rt, 1, "mmc"@, mmc_ns(), 32, 2);
    let close = seq![indent(0, 32, 2), EventView::End];
    let eof = seq![EventView::Eof];
    assert(mmc_ns() == vstd::utf8::encode_utf8(MMC_NAMESPACE@));
    assert(doc =~= e0 + b1 + b2 + b3 + close + eof);
    // The pieces in turn.
    let s0 = mm_initial();
    lemma_mm_run_initial(doc, limits);
    lemma_mm_run_append(s0, e0 + b1 + b2 + b3 + close, eof, limits);
    lemma_mm_run_append(s0, e0 + b1 + b2 + b3, close, limits);
    lemma_mm_run_append(s0, e0 + b1 + b2, b3, limits);
    lemma_mm_run_append(s0, e0 + b1, b2, limits);
    lemma_mm_run_append(s0, e0, b1, limits);
    // The root.
    lemma_mm_root_start(meta, limits);
    let meta0 = ContainerMetadataView { metadata: Seq::empty(), ..meta };
    let s3 = MultiModelParse {
        stack: mm_level_stack(0),
        events: 3,
        root_seen: true,
        metadata: Some(meta0),
        models: Seq::empty(),
        link_models: Seq::empty(),
        linked_text: None,
        done: false,
    };
    // Its metadata.
    lemma_mm_metadata(0, meta.metadata, s3, 1, limits);
    let s4 = with_mm_metadata(0, counted(s3, b1.len() as int), meta.metadata);
    assert(Seq::<MetadataView>::empty() + meta.metadata =~= meta.metadata);
    assert(s4.metadata == Some(meta));
    // The application models.
    lemma_collection_reads("mmc:ApplicationModels"@, "ApplicationModels"@, model_nodes(models));
    let open_a = seq![
        indent(1, 32, 2),
        EventView::Start {
            namespace: NamespaceView::Bound(mmc_ns()),
            local: Ok("ApplicationModels"@),
            attributes: attribute_reads(Seq::empty()),
            empty: false,
        },
    ];
    let inner_a = trees_reads(model_nodes(models), 2, "mmc"@, mmc_ns(), 32, 2);
    let close_1 = seq![indent(1, 32, 2), EventView::End];
    lemma_mm_run_three(s4, open_a, inner_a, close_1, limits);
    assert(plain_attributes(Seq::<(Seq<char>, Seq<char>)>::empty()));
    lemma_mm_open(s4, "ApplicationModels"@, Seq::empty(), false, 1, limits);
    let s5 = MultiModelParse { stack: seq!["MultiModel"@, "ApplicationModels"@], events: s4.events + 2, ..s4 };
    lemma_mm_plain_start(s5, limits);
    lemma_mm_models(models, s5, 2, limits);
    let s6 = counted(with_models(s5, models), inner_a.len() as int);
    assert(Seq::<ApplicationModelView>::empty() + models =~= models);
    lemma_mm_close(s6, 1, limits);
    let s7 = MultiModelParse { stack: mm_level_stack(0), events: s6.events + 2, ..s6 };
    assert(s6.stack.drop_last() =~= mm_level_stack(0));
    // The LinkModel references.
    let s8 = counted(with_refs(s7, refs), b3.len() as int);
    assert(Seq::<LinkModelReferenceView>::empty() + refs =~= refs);
    assert(mm_run_from(s7, b3, limits) == Ok::<MultiModelParse, ParseFault>(s8)) by {
        if refs.len() == 0 {
            assert(rt =~= Seq::<XmlTree>::empty());
            assert(b3 =~= Seq::<EventView>::empty());
            assert(mm_run_from(s7, Seq::<EventView>::empty(), limits) == Ok::<MultiModelParse, ParseFault>(s7));
            assert(refs =~= Seq::<LinkModelReferenceView>::empty());
            assert(s7.link_models + refs =~= s7.link_models);
        } else {
            let lt = rt[0];
            assert(rt =~= seq![lt]);
            crate::round_trip::lemma_trees_reads_one(lt, 1, "mmc"@, mmc_ns());
            lemma_collection_reads("mmc:LinkModels"@, "LinkModels"@, reference_nodes(refs));
            let open_l = seq![
                indent(1, 32, 2),
                EventView::Start {
                    namespace: NamespaceView::Bound(mmc_ns()),
                    local: Ok("LinkModels"@),
                    attributes: attribute_reads(Seq::empty()),
                    empty: false,
                },
            ];
            let inner_l = trees_reads(reference_nodes(refs), 2, "mmc"@, mmc_ns(), 32, 2);
            lemma_mm_run_three(s7, open_l, inner_l, close_1, limits);
            lemma_mm_open(s7, "LinkModels"@, Seq::empty(), false, 1, limits);
            let t5 = MultiModelParse { stack: seq!["MultiModel"@, "LinkModels"@], events: s7.events + 2, ..s7 };
            lemma_mm_plain_start(t5, limits);
            lemma_mm_references(refs, t5, 2, limits);
            let t6 = counted(with_refs(t5, refs), inner_l.len() as int);
            lemma_mm_close(t6, 1, limits);
            assert(t6.stack.drop_last() =~= mm_level_stack(0));
        }
    }
    // The end of the root and of input.
    lemma_mm_close(s8, 0, limits);
    let s9 = MultiModelParse { stack: Seq::empty(), events: s8.events + 2, ..s8 };
    assert(mm_level_stack(0).drop_last() =~= Seq::<Seq<char>>::empty());
    lemma_mm_one(s9, EventView::Eof, limits);
}


/// Parsing a written `MultiModel.xml` gives the container back, escaped
/// characters included: for bytes that read back as the written document
/// (as `serialize_multimodel` states of what it writes), within the byte
/// budget, whose events, application models and LinkModel references are
/// within their budgets; a container whose required values are present and
/// whose text is plain (`container_ok`); and a UUID whose written form
/// `uuid` parses back to it.
pub proof fn law_container_round_trip(
    meta: ContainerMetadataView,
    models: Seq<ApplicationModelView>,
    refs: Seq<LinkModelReferenceView>,
    x: Seq<u8>,
    limits: Limits,
)
    requires
        container_ok(meta, models, refs),
        uuid_parse(uuid_text(meta.uuid)) == Ok::<u128, Seq<char>>(meta.uuid),
        reads_back(x, document_reads(container_tree(meta, models, refs), "mmc"@, MMC_NAMESPACE@, 32, 2)),
        x.len() <= limits.max_xml_bytes,
        document_reads(container_tree(meta, models, refs), "mmc"@, MMC_NAMESPACE@, 32, 2).len() <= limits.max_xml_events,
        models.len() <= limits.max_models,
        refs.len() <= limits.max_link_models,
    ensures
        multimodel_parse_result(x, limits) == Ok::<MultiModelView, ParseFault>(
            MultiModelView { metadata: meta, models, link_models: refs, source: x },
        ),
{
    let doc = document_reads(container_tree(meta, models, refs), "mmc"@, MMC_NAMESPACE@, 32, 2);
    let body = tree_reads(container_tree(meta, models, refs), 0, "mmc"@, mmc_ns(), 32, 2);
    lemma_tree_reads_plain(container_tree(meta, models, refs), 0, "mmc"@, mmc_ns());
    assert(plain_reads(seq![EventView::Decl]));
    lemma_plain_reads_append(seq![EventView::Decl], body);
    assert(doc.drop_last() =~= seq![EventView::Decl] + body);
    lemma_stream(x, doc, limits.max_xml_events, 0);
    assert(doc.skip(0) =~= doc);
    assert(xml_source_fault("MultiModel.xml"@, x, limits) is None);
    lemma_container_reads(meta, models, refs, x, limits);
}

} // verus!
