//! Reading back what was written: the element trees of the documents this
//! library writes, and the proof that parsing a written LinkModel document
//! gives the model back.

use vstd::prelude::*;

use crate::documents::{
    link_block, link_model_document, links_block, meta_attributes, meta_items, metadata_block, rate_event, rate_item,
    rates_block, relata_block, relatum_attributes, relatum_block,
};
use crate::model::{LinkModelView, LinkView, MetadataView, RateView, RelatumView};
use crate::error::ParseFault;
use crate::limits::Limits;
use crate::link_xml::{
    link_model_parse_result, link_model_outcome, link_meta, link_rate, link_relatum, link_start_model, lm_initial, lm_run, lm_step, with_last_link, with_last_relatum,
    LinkModelParse,
};
use crate::text::{first_index_of, lemma_first_index_of};
use crate::multimodel_xml::xml_source_fault;
use crate::xml_rules::{attr_get, valid_link_path};
use crate::read_back::{
    reads_as, reads_back, escape_name, document_reads, local_of, qualified, readable_root, text_alone, tree_ok, trees_ok, attribute_read, attribute_reads, flatten, flatten_all, indent, letters, plain_attributes, plain_value, trees_reads,
    tree_reads, XmlTree,
};
use crate::xml_events::{xml_attribute, xml_attributes_from, xml_event_at, xml_stream_from, AttributeView, EventView, NamespaceView};
use crate::xml_rules::{all_xml_chars, attribute_map, blank, pair_keys};
use crate::xml_writer::WriteView;
use crate::LINK_MODEL_NAMESPACE;

verus! {

pub open spec fn meta_node(prefix: Seq<char>, item: MetadataView, compact: bool) -> XmlTree {
    XmlTree::Element {
        name: prefix + ":Meta"@,
        attributes: meta_attributes(item, compact),
        empty: true,
        children: Seq::empty(),
    }
}

pub open spec fn meta_nodes(prefix: Seq<char>, items: Seq<MetadataView>, compact: bool) -> Seq<XmlTree>
    decreases items.len(),
{
    if items.len() == 0 {
        Seq::empty()
    } else {
        meta_nodes(prefix, items.drop_last(), compact).push(meta_node(prefix, items.last(), compact))
    }
}

/// A `MetaData` element holding the items; nothing where there are none.
pub open spec fn metadata_trees(prefix: Seq<char>, items: Seq<MetadataView>, compact: bool) -> Seq<XmlTree> {
    if items.len() == 0 {
        Seq::empty()
    } else {
        seq![
            XmlTree::Element {
                name: prefix + ":MetaData"@,
                attributes: Seq::empty(),
                empty: false,
                children: meta_nodes(prefix, items, compact),
            },
        ]
    }
}

pub open spec fn rate_node(t: RateView) -> XmlTree {
    XmlTree::Element {
        name: "link:Rate"@,
        attributes: seq![("t"@, t.rate_type), ("v"@, t.value), ("m"@, t.target_model)],
        empty: true,
        children: Seq::empty(),
    }
}

pub open spec fn rate_nodes(s: Seq<RateView>) -> Seq<XmlTree>
    decreases s.len(),
{
    if s.len() == 0 {
        Seq::empty()
    } else {
        rate_nodes(s.drop_last()).push(rate_node(s.last()))
    }
}

pub open spec fn relatum_node(r: RelatumView) -> XmlTree {
    if r.metadata.len() == 0 && r.rates.len() == 0 {
        XmlTree::Element {
            name: "link:Relatum"@,
            attributes: relatum_attributes(r),
            empty: true,
            children: Seq::empty(),
        }
    } else {
        XmlTree::Element {
            name: "link:Relatum"@,
            attributes: relatum_attributes(r),
            empty: false,
            children: metadata_trees("link"@, r.metadata, true) + rate_nodes(r.rates),
        }
    }
}

pub open spec fn relatum_nodes(s: Seq<RelatumView>) -> Seq<XmlTree>
    decreases s.len(),
{
    if s.len() == 0 {
        Seq::empty()
    } else {
        relatum_nodes(s.drop_last()).push(relatum_node(s.last()))
    }
}

pub open spec fn link_node(l: LinkView) -> XmlTree {
    XmlTree::Element {
        name: "link:Link"@,
        attributes: Seq::empty(),
        empty: false,
        children: metadata_trees("link"@, l.metadata, true) + relatum_nodes(l.relata),
    }
}

pub open spec fn link_nodes(s: Seq<LinkView>) -> Seq<XmlTree>
    decreases s.len(),
{
    if s.len() == 0 {
        Seq::empty()
    } else {
        link_nodes(s.drop_last()).push(link_node(s.last()))
    }
}

/// The element tree of a LinkModel document.
pub open spec fn link_model_tree(m: LinkModelView) -> XmlTree {
    XmlTree::Element {
        name: "link:LinkModel"@,
        attributes: seq![("xmlns:link"@, LINK_MODEL_NAMESPACE@), ("formatVersion"@, m.format_version)],
        empty: false,
        children: metadata_trees("link"@, m.metadata, true) + link_nodes(m.links),
    }
}

pub proof fn lemma_flatten_all_append(a: Seq<XmlTree>, b: Seq<XmlTree>)
    ensures
        flatten_all(a + b) == flatten_all(a) + flatten_all(b),
    decreases b.len(),
{
    if b.len() == 0 {
        assert(a + b =~= a);
        assert(flatten_all(a) + flatten_all(b) =~= flatten_all(a));
    } else {
        lemma_flatten_all_append(a, b.drop_last());
        assert((a + b).drop_last() =~= a + b.drop_last());
        assert((a + b).last() == b.last());
        assert(flatten_all(a + b) =~= flatten_all(a) + flatten_all(b));
    }
}

pub proof fn lemma_flatten_push(a: Seq<XmlTree>, t: XmlTree)
    ensures
        flatten_all(a.push(t)) == flatten_all(a) + flatten(t),
{
    assert(a.push(t).drop_last() =~= a);
}

proof fn lemma_meta_nodes(prefix: Seq<char>, items: Seq<MetadataView>, compact: bool)
    ensures
        flatten_all(meta_nodes(prefix, items, compact)) == meta_items(prefix, items, compact),
    decreases items.len(),
{
    if items.len() > 0 {
        lemma_meta_nodes(prefix, items.drop_last(), compact);
        lemma_flatten_push(meta_nodes(prefix, items.drop_last(), compact), meta_node(prefix, items.last(), compact));
    }
}

pub proof fn lemma_metadata_trees(prefix: Seq<char>, items: Seq<MetadataView>, compact: bool)
    ensures
        flatten_all(metadata_trees(prefix, items, compact)) == metadata_block(prefix, items, compact),
{
    if items.len() > 0 {
        lemma_meta_nodes(prefix, items, compact);
        let t = metadata_trees(prefix, items, compact);
        assert(t.drop_last() =~= Seq::<XmlTree>::empty());
        assert(flatten_all(t.drop_last()) =~= Seq::<WriteView>::empty());
        assert(flatten_all(t) =~= flatten(t[0]));
    }
}

proof fn lemma_rate_nodes(s: Seq<RateView>)
    ensures
        flatten_all(rate_nodes(s)) == rates_block(s),
    decreases s.len(),
{
    if s.len() > 0 {
        lemma_rate_nodes(s.drop_last());
        lemma_flatten_push(rate_nodes(s.drop_last()), rate_node(s.last()));
        assert(flatten(rate_node(s.last())) == rate_item(s.last()));
    }
}

proof fn lemma_relatum_node(r: RelatumView)
    ensures
        flatten(relatum_node(r)) == relatum_block(r),
{
    if !(r.metadata.len() == 0 && r.rates.len() == 0) {
        lemma_metadata_trees("link"@, r.metadata, true);
        lemma_rate_nodes(r.rates);
        lemma_flatten_all_append(metadata_trees("link"@, r.metadata, true), rate_nodes(r.rates));
    }
}

proof fn lemma_relatum_nodes(s: Seq<RelatumView>)
    ensures
        flatten_all(relatum_nodes(s)) == relata_block(s),
    decreases s.len(),
{
    if s.len() > 0 {
        lemma_relatum_nodes(s.drop_last());
        lemma_flatten_push(relatum_nodes(s.drop_last()), relatum_node(s.last()));
        lemma_relatum_node(s.last());
    }
}

proof fn lemma_link_node(l: LinkView)
    ensures
        flatten(link_node(l)) == link_block(l),
{
    lemma_metadata_trees("link"@, l.metadata, true);
    lemma_relatum_nodes(l.relata);
    lemma_flatten_all_append(metadata_trees("link"@, l.metadata, true), relatum_nodes(l.relata));
}

proof fn lemma_link_nodes(s: Seq<LinkView>)
    ensures
        flatten_all(link_nodes(s)) == links_block(s),
    decreases s.len(),
{
    if s.len() > 0 {
        lemma_link_nodes(s.drop_last());
        lemma_flatten_push(link_nodes(s.drop_last()), link_node(s.last()));
        lemma_link_node(s.last());
    }
}

/// A LinkModel document is its declaration and the flattened tree.
pub proof fn lemma_link_model_tree(m: LinkModelView)
    ensures
        link_model_document(m) == seq![WriteView::Decl("1.0"@, "UTF-8"@)] + flatten(link_model_tree(m)),
{
    lemma_metadata_trees("link"@, m.metadata, true);
    lemma_link_nodes(m.links);
    lemma_flatten_all_append(metadata_trees("link"@, m.metadata, true), link_nodes(m.links));
    assert(link_model_document(m) =~= seq![WriteView::Decl("1.0"@, "UTF-8"@)] + flatten(link_model_tree(m)));
}

/// The LinkModel parser run over `events` from the state `st`.
pub open spec fn lm_run_from(st: LinkModelParse, events: Seq<EventView>, limits: Limits, path: Seq<char>) -> Result<
    LinkModelParse,
    ParseFault,
>
    decreases events.len(),
{
    if events.len() == 0 {
        Ok(st)
    } else {
        match lm_run_from(st, events.drop_last(), limits, path) {
            Err(f) => Err(f),
            Ok(s) => if s.done {
                Ok(s)
            } else {
                lm_step(s, events.last(), limits, path)
            },
        }
    }
}

proof fn lemma_lm_run_initial(events: Seq<EventView>, limits: Limits, path: Seq<char>)
    ensures
        lm_run(events, limits, path) == lm_run_from(lm_initial(), events, limits, path),
    decreases events.len(),
{
    if events.len() > 0 {
        lemma_lm_run_initial(events.drop_last(), limits, path);
    }
}

proof fn lemma_lm_run_append(st: LinkModelParse, a: Seq<EventView>, b: Seq<EventView>, limits: Limits, path: Seq<char>)
    ensures
        lm_run_from(st, a + b, limits, path) == match lm_run_from(st, a, limits, path) {
            Err(f) => Err(f),
            Ok(s) => lm_run_from(s, b, limits, path),
        },
    decreases b.len(),
{
    if b.len() == 0 {
        assert(a + b =~= a);
    } else {
        lemma_lm_run_append(st, a, b.drop_last(), limits, path);
        assert((a + b).drop_last() =~= a + b.drop_last());
        assert((a + b).last() == b.last());
    }
}

/// A parser state inside the root, with this stack, event count, model and relata count.
pub open spec fn inside(stack: Seq<Seq<char>>, events: int, m: LinkModelView, relata: int) -> LinkModelParse {
    LinkModelParse { stack, events, root_seen: true, model: Some(m), relata, done: false }
}

proof fn lemma_lm_one(st: LinkModelParse, e: EventView, limits: Limits, path: Seq<char>)
    requires
        !st.done,
    ensures
        lm_run_from(st, seq![e], limits, path) == lm_step(st, e, limits, path),
{
    assert(seq![e].drop_last() =~= Seq::<EventView>::empty());
    assert(lm_run_from(st, Seq::<EventView>::empty(), limits, path) == Ok::<LinkModelParse, ParseFault>(st));
    assert(seq![e].last() == e);
}

/// Indentation is white space the parser passes over.
proof fn lemma_lm_indent(
    stack: Seq<Seq<char>>,
    events: int,
    m: LinkModelView,
    relata: int,
    d: nat,
    limits: Limits,
    path: Seq<char>,
)
    requires
        0 <= events,
        events + 1 <= limits.max_xml_events,
    ensures
        lm_run_from(inside(stack, events, m, relata), seq![indent(d, 32, 2)], limits, path) == Ok::<
            LinkModelParse,
            ParseFault,
        >(inside(stack, events + 1, m, relata)),
{
    lemma_lm_one(inside(stack, events, m, relata), indent(d, 32, 2), limits, path);
    let t = seq!['\n'] + Seq::new((d * 2) as nat, |i: int| 32u8 as char);
    assert forall|i: int| 0 <= i < t.len() implies crate::xml_rules::is_xml_char(#[trigger] t[i]) by {
        if i > 0 {
            assert(t[i] == ' ');
        }
    }
    assert(all_xml_chars(t));
    assert forall|i: int| 0 <= i < t.len() implies crate::xml_rules::is_white_space(#[trigger] t[i]) by {
        if i > 0 {
            assert(t[i] == ' ');
        }
    }
    assert(blank(t));
}

/// Plain unprefixed attributes are admitted as written.
pub proof fn lemma_attribute_map_plain(a: Seq<(Seq<char>, Seq<char>)>)
    requires
        plain_attributes(a),
    ensures
        attribute_map(attribute_reads(a)) == Ok::<Seq<(Seq<char>, Seq<char>)>, Seq<char>>(a),
    decreases a.len(),
{
    if a.len() == 0 {
        assert(attribute_reads(a) =~= Seq::<Result<AttributeView, Seq<char>>>::empty());
        assert(a =~= Seq::<(Seq<char>, Seq<char>)>::empty());
    } else {
        let p = a.drop_last();
        assert forall|i: int| 0 <= i < p.len() implies letters(#[trigger] p[i].0) && p[i].0 != "xmlns"@ && plain_value(
            p[i].1,
        ) by {
            assert(p[i] == a[i]);
        }
        assert forall|i: int, j: int| 0 <= i < j < p.len() implies #[trigger] p[i].0 != #[trigger] p[j].0 by {
            assert(p[i] == a[i] && p[j] == a[j]);
        }
        lemma_attribute_map_plain(p);
        assert(attribute_reads(a).drop_last() =~= attribute_reads(p));
        let k = a.last().0;
        assert(letters(a[a.len() - 1].0));
        reveal_strlit("xmlns:");
        if k.len() > 6 && k.take(6) == "xmlns:"@ {
            assert(k.take(6)[5] == ':');
            assert(k.take(6)[5] == k[5]);
            assert(crate::read_back::is_letter(k[5]));
        }
        assert(attribute_reads(a).last() == attribute_read(a.last()));
        assert(!(k.len() > 6 && k.take(6) == "xmlns:"@));
        assert(attribute_read(a.last()) == Ok::<AttributeView, Seq<char>>(
            AttributeView { prefixed: false, key: Ok(k), value: Ok(a.last().1) },
        ));
        assert(plain_value(a[a.len() - 1].1));
        assert(!pair_keys(p).contains(k)) by {
            if pair_keys(p).contains(k) {
                let w = choose|w: int| 0 <= w < pair_keys(p).len() && pair_keys(p)[w] == k;
                assert(a[w].0 != a[a.len() - 1].0);
            }
        }
        assert(p.push((k, a.last().1)) =~= a);
    }
}

/// In attributes with distinct names, each name gives its value, and a
/// name not among them gives nothing.
pub proof fn lemma_attr_get(p: Seq<(Seq<char>, Seq<char>)>, name: Seq<char>)
    requires
        forall|i: int, j: int| 0 <= i < j < p.len() ==> #[trigger] p[i].0 != #[trigger] p[j].0,
    ensures
        forall|i: int| 0 <= i < p.len() && p[i].0 == name ==> attr_get(p, name) == Some(p[i].1),
        (forall|i: int| 0 <= i < p.len() ==> p[i].0 != name) ==> attr_get(p, name) is None,
{
    lemma_first_index_of(pair_keys(p), name);
    assert forall|i: int| 0 <= i < p.len() && p[i].0 == name implies attr_get(p, name) == Some(p[i].1) by {
        assert(pair_keys(p)[i] == name);
        let w = first_index_of(pair_keys(p), name)->Some_0;
        if w != i {
            assert(pair_keys(p)[w] == p[w].0);
            if w < i {
                assert(p[w].0 != p[i].0);
            } else {
                assert(p[i].0 != p[w].0);
            }
        }
    }
    if forall|i: int| 0 <= i < p.len() ==> p[i].0 != name {
        assert forall|k: int| 0 <= k < pair_keys(p).len() implies pair_keys(p)[k] != name by {
            assert(pair_keys(p)[k] == p[k].0);
        }
    }
}

/// The namespace the tags of a written LinkModel resolve to.
pub open spec fn link_ns() -> Seq<u8> {
    vstd::utf8::encode_utf8(LINK_MODEL_NAMESPACE@)
}

/// A standard start tag inside the root: the element is placed on the stack
/// (and taken off again when written empty) and its attributes are handled
/// by its position.
proof fn lemma_lm_start(
    st: LinkModelParse,
    x: Seq<char>,
    a: Seq<(Seq<char>, Seq<char>)>,
    empty: bool,
    limits: Limits,
    path: Seq<char>,
)
    requires
        st.root_seen,
        st.model is Some,
        !st.done,
        st.stack.len() > 0,
        0 <= st.events,
        st.events + 1 <= limits.max_xml_events,
        valid_link_path(st.stack.push(x)),
        plain_attributes(a),
    ensures
        lm_run_from(
            st,
            seq![EventView::Start { namespace: NamespaceView::Bound(link_ns()), local: Ok(x), attributes: attribute_reads(a), empty }],
            limits,
            path,
        ) == match link_start_model(st.stack.push(x), st.model->Some_0, st.relata, a, limits, path) {
            Err(f) => Err(f),
            Ok((m2, c)) => Ok(
                LinkModelParse {
                    stack: if empty {
                        st.stack
                    } else {
                        st.stack.push(x)
                    },
                    events: st.events + 1,
                    model: Some(m2),
                    relata: c,
                    ..st
                },
            ),
        },
{
    let e = EventView::Start { namespace: NamespaceView::Bound(link_ns()), local: Ok(x), attributes: attribute_reads(a), empty };
    lemma_lm_one(st, e, limits, path);
    lemma_attribute_map_plain(a);
    assert(st.stack.push(x).drop_last() =~= st.stack);
}

/// An end tag inside an element takes it off the stack.
proof fn lemma_lm_end(st: LinkModelParse, limits: Limits, path: Seq<char>)
    requires
        !st.done,
        st.stack.len() > 0,
        0 <= st.events,
        st.events + 1 <= limits.max_xml_events,
    ensures
        lm_run_from(st, seq![EventView::End], limits, path) == Ok::<LinkModelParse, ParseFault>(
            LinkModelParse { stack: st.stack.drop_last(), events: st.events + 1, ..st },
        ),
{
    lemma_lm_one(st, EventView::End, limits, path);
}

proof fn lemma_link_literals()
    ensures
        "link"@ + ":Meta"@ == "link:Meta"@,
        letters("link"@),
        "xmlns:"@ + "link"@ == "xmlns:link"@,
        qualified("link:LinkModel"@, "link"@),
        qualified("link:MetaData"@, "link"@),
        qualified("link:Meta"@, "link"@),
        qualified("link:Link"@, "link"@),
        qualified("link:Relatum"@, "link"@),
        qualified("link:Rate"@, "link"@),
        "link"@ + ":MetaData"@ == "link:MetaData"@,
        local_of("link:LinkModel"@, "link"@) == "LinkModel"@,
        local_of("link:MetaData"@, "link"@) == "MetaData"@,
        local_of("link:Meta"@, "link"@) == "Meta"@,
        local_of("link:Link"@, "link"@) == "Link"@,
        local_of("link:Relatum"@, "link"@) == "Relatum"@,
        local_of("link:Rate"@, "link"@) == "Rate"@,
        "LinkModel"@ != "MetaData"@,
        "LinkModel"@ != "Meta"@,
        "LinkModel"@ != "Link"@,
        "LinkModel"@ != "Relatum"@,
        "LinkModel"@ != "Rate"@,
        "MetaData"@ != "Meta"@,
        "MetaData"@ != "Link"@,
        "MetaData"@ != "Relatum"@,
        "MetaData"@ != "Rate"@,
        "Meta"@ != "Link"@,
        "Meta"@ != "Relatum"@,
        "Meta"@ != "Rate"@,
        "Link"@ != "Relatum"@,
        "Link"@ != "Rate"@,
        "Relatum"@ != "Rate"@,
        letters("k"@),
        letters("v"@),
        letters("t"@),
        letters("c"@),
        letters("m"@),
        letters("f"@),
        letters("r"@),
        letters("id"@),
        letters("formatVersion"@),
        "k"@ != "v"@ && "k"@ != "t"@ && "k"@ != "c"@ && "v"@ != "t"@ && "v"@ != "c"@ && "t"@ != "c"@,
        "id"@ != "m"@ && "id"@ != "f"@ && "id"@ != "r"@ && "m"@ != "f"@ && "m"@ != "r"@ && "f"@ != "r"@,
        "t"@ != "m"@ && "v"@ != "m"@,
        "k"@ != "xmlns"@ && "v"@ != "xmlns"@ && "t"@ != "xmlns"@ && "c"@ != "xmlns"@ && "m"@ != "xmlns"@,
        "f"@ != "xmlns"@ && "r"@ != "xmlns"@ && "id"@ != "xmlns"@ && "formatVersion"@ != "xmlns"@,
{
    reveal_strlit("link");
    reveal_strlit("xmlns:");
    reveal_strlit("xmlns:link");
    reveal_strlit(":Meta");
    reveal_strlit(":MetaData");
    reveal_strlit("link:LinkModel");
    reveal_strlit("link:MetaData");
    reveal_strlit("link:Meta");
    reveal_strlit("link:Link");
    reveal_strlit("link:Relatum");
    reveal_strlit("link:Rate");
    reveal_strlit("LinkModel");
    reveal_strlit("MetaData");
    reveal_strlit("Meta");
    reveal_strlit("Link");
    reveal_strlit("Relatum");
    reveal_strlit("Rate");
    reveal_strlit("k");
    reveal_strlit("v");
    reveal_strlit("t");
    reveal_strlit("c");
    reveal_strlit("m");
    reveal_strlit("f");
    reveal_strlit("r");
    reveal_strlit("id");
    reveal_strlit("formatVersion");
    reveal_strlit("xmlns");
    assert("link"@ + ":Meta"@ =~= "link:Meta"@);
    assert("xmlns:"@ + "link"@ =~= "xmlns:link"@);
    assert("link:LinkModel"@.take(4) =~= "link"@);
    assert("link:MetaData"@.take(4) =~= "link"@);
    assert("link:Meta"@.take(4) =~= "link"@);
    assert("link:Link"@.take(4) =~= "link"@);
    assert("link:Relatum"@.take(4) =~= "link"@);
    assert("link:Rate"@.take(4) =~= "link"@);
    assert("link"@ + ":MetaData"@ =~= "link:MetaData"@);
    assert(local_of("link:LinkModel"@, "link"@) =~= "LinkModel"@);
    assert(local_of("link:MetaData"@, "link"@) =~= "MetaData"@);
    assert(local_of("link:Meta"@, "link"@) =~= "Meta"@);
    assert(local_of("link:Link"@, "link"@) =~= "Link"@);
    assert(local_of("link:Relatum"@, "link"@) =~= "Relatum"@);
    assert(local_of("link:Rate"@, "link"@) =~= "Rate"@);
    assert("Meta"@[0] != "Link"@[0]);
    assert("Meta"@[0] != "Rate"@[0]);
    assert("Link"@[0] != "Rate"@[0]);
    assert("k"@[0] != "v"@[0]);
    assert("k"@[0] != "t"@[0]);
    assert("k"@[0] != "c"@[0]);
    assert("v"@[0] != "t"@[0]);
    assert("v"@[0] != "c"@[0]);
    assert("t"@[0] != "c"@[0]);
    assert("m"@[0] != "f"@[0]);
    assert("m"@[0] != "r"@[0]);
    assert("f"@[0] != "r"@[0]);
    assert("t"@[0] != "m"@[0]);
    assert("v"@[0] != "m"@[0]);
    assert("f"@.len() != "xmlns"@.len());
    assert("r"@.len() != "xmlns"@.len());
    assert("id"@.len() != "xmlns"@.len());
    assert("formatVersion"@.len() != "xmlns"@.len());
}

pub proof fn lemma_trees_reads_append(a: Seq<XmlTree>, b: Seq<XmlTree>, d: nat, prefix: Seq<char>, ns: Seq<u8>)
    ensures
        trees_reads(a + b, d, prefix, ns, 32, 2) == trees_reads(a, d, prefix, ns, 32, 2) + trees_reads(b, d, prefix, ns, 32, 2),
    decreases b.len(),
{
    if b.len() == 0 {
        assert(a + b =~= a);
        assert(trees_reads(a, d, prefix, ns, 32, 2) + trees_reads(b, d, prefix, ns, 32, 2) =~= trees_reads(a, d, prefix, ns, 32, 2));
    } else {
        lemma_trees_reads_append(a, b.drop_last(), d, prefix, ns);
        assert((a + b).drop_last() =~= a + b.drop_last());
        assert((a + b).last() == b.last());
        assert(trees_reads(a + b, d, prefix, ns, 32, 2) =~= trees_reads(a, d, prefix, ns, 32, 2) + trees_reads(
            b,
            d,
            prefix,
            ns,
            32,
            2,
        ));
    }
}

pub proof fn lemma_trees_reads_push(a: Seq<XmlTree>, t: XmlTree, d: nat, prefix: Seq<char>, ns: Seq<u8>)
    ensures
        trees_reads(a.push(t), d, prefix, ns, 32, 2) == trees_reads(a, d, prefix, ns, 32, 2) + tree_reads(t, d, prefix, ns, 32, 2),
{
    assert(a.push(t).drop_last() =~= a);
}

pub proof fn lemma_trees_reads_one(t: XmlTree, d: nat, prefix: Seq<char>, ns: Seq<u8>)
    ensures
        trees_reads(seq![t], d, prefix, ns, 32, 2) == tree_reads(t, d, prefix, ns, 32, 2),
{
    lemma_trees_reads_push(Seq::empty(), t, d, prefix, ns);
    assert(Seq::<XmlTree>::empty().push(t) =~= seq![t]);
    assert(trees_reads(Seq::<XmlTree>::empty(), d, prefix, ns, 32, 2) + tree_reads(t, d, prefix, ns, 32, 2) =~= tree_reads(
        t,
        d,
        prefix,
        ns,
        32,
        2,
    ));
}

/// The element stack of a LinkModel at the level metadata is placed on:
/// the model, its last link, or that link's last relatum.
pub open spec fn level_stack(level: int) -> Seq<Seq<char>> {
    if level == 0 {
        seq!["LinkModel"@]
    } else if level == 1 {
        seq!["LinkModel"@, "Link"@]
    } else {
        seq!["LinkModel"@, "Link"@, "Relatum"@]
    }
}

/// The model has the element that metadata at `level` is placed on.
pub open spec fn level_ready(level: int, m: LinkModelView) -> bool {
    level == 0 || (m.links.len() > 0 && (level == 1 || m.links.last().relata.len() > 0))
}

/// The model with `items` added to the metadata at `level`.
pub open spec fn with_metadata(level: int, m: LinkModelView, items: Seq<MetadataView>) -> LinkModelView {
    if level == 0 {
        LinkModelView { metadata: m.metadata + items, ..m }
    } else if level == 1 {
        let l = m.links.last();
        with_last_link(m, LinkView { metadata: l.metadata + items, ..l })
    } else {
        let l = m.links.last();
        let r = l.relata.last();
        with_last_link(m, with_last_relatum(l, RelatumView { metadata: r.metadata + items, ..r }))
    }
}

/// A metadata item the LinkModel parser reads back: key and value present
/// and, like type and category, plain text.
pub open spec fn meta_ok(item: MetadataView) -> bool {
    &&& item.key.len() > 0
    &&& item.value.len() > 0
    &&& plain_value(item.key)
    &&& plain_value(item.value)
    &&& (item.value_type matches Some(t) ==> plain_value(t))
    &&& (item.category matches Some(c) ==> plain_value(c))
}

proof fn lemma_meta_attributes(item: MetadataView)
    requires
        meta_ok(item),
    ensures
        plain_attributes(meta_attributes(item, true)),
        link_meta(meta_attributes(item, true)) == Ok::<MetadataView, Seq<char>>(item),
{
    lemma_link_literals();
    let a = meta_attributes(item, true);
    assert forall|i: int, j: int| 0 <= i < j < a.len() implies #[trigger] a[i].0 != #[trigger] a[j].0 by {}
    lemma_attr_get(a, "k"@);
    lemma_attr_get(a, "v"@);
    lemma_attr_get(a, "t"@);
    lemma_attr_get(a, "c"@);
    assert(a[0] == ("k"@, item.key));
    assert(a[1] == ("v"@, item.value));
    if item.value_type is Some {
        assert(a[2] == ("t"@, item.value_type->Some_0));
    }
    if item.category is Some {
        assert(a[a.len() - 1] == ("c"@, item.category->Some_0));
    }
}

proof fn lemma_level_paths(level: int)
    requires
        0 <= level <= 2,
    ensures
        valid_link_path(level_stack(level)),
        valid_link_path(level_stack(level).push("MetaData"@)),
        valid_link_path(level_stack(level).push("MetaData"@).push("Meta"@)),
        level == 2 ==> valid_link_path(level_stack(level).push("Rate"@)),
        level == 1 ==> valid_link_path(level_stack(level).push("Relatum"@)),
        level == 0 ==> valid_link_path(level_stack(level).push("Link"@)),
        level_stack(level).len() == level + 1,
        level_stack(level)[0] == "LinkModel"@,
        level >= 1 ==> level_stack(level)[1] == "Link"@,
        level == 2 ==> level_stack(level)[2] == "Relatum"@,
        level == 1 ==> level_stack(level).push("Relatum"@) == level_stack(2),
        level == 0 ==> level_stack(level).push("Link"@) == level_stack(1),
{
    lemma_link_literals();
    let s = level_stack(level);
    if level == 0 {
        assert(s =~= seq!["LinkModel"].map_values(|x: &str| x@));
        assert(s.push("MetaData"@) =~= seq!["LinkModel", "MetaData"].map_values(|x: &str| x@));
        assert(s.push("MetaData"@).push("Meta"@) =~= seq!["LinkModel", "MetaData", "Meta"].map_values(|x: &str| x@));
        assert(s.push("Link"@) =~= seq!["LinkModel", "Link"].map_values(|x: &str| x@));
        assert(s.push("Link"@) =~= level_stack(1));
    } else if level == 1 {
        assert(s =~= seq!["LinkModel", "Link"].map_values(|x: &str| x@));
        assert(s.push("MetaData"@) =~= seq!["LinkModel", "Link", "MetaData"].map_values(|x: &str| x@));
        assert(s.push("MetaData"@).push("Meta"@) =~= seq!["LinkModel", "Link", "MetaData", "Meta"].map_values(
            |x: &str| x@,
        ));
        assert(s.push("Relatum"@) =~= seq!["LinkModel", "Link", "Relatum"].map_values(|x: &str| x@));
        assert(s.push("Relatum"@) =~= level_stack(2));
    } else {
        assert(s =~= seq!["LinkModel", "Link", "Relatum"].map_values(|x: &str| x@));
        assert(s.push("MetaData"@) =~= seq!["LinkModel", "Link", "Relatum", "MetaData"].map_values(|x: &str| x@));
        assert(s.push("MetaData"@).push("Meta"@) =~= seq!["LinkModel", "Link", "Relatum", "MetaData", "Meta"].map_values(
            |x: &str| x@,
        ));
        assert(s.push("Rate"@) =~= seq!["LinkModel", "Link", "Relatum", "Rate"].map_values(|x: &str| x@));
    }
}

/// A metadata item at `level` is read back into the model.
proof fn lemma_lm_meta(
    level: int,
    item: MetadataView,
    ev: int,
    m: LinkModelView,
    relata: int,
    d: nat,
    limits: Limits,
    path: Seq<char>,
)
    requires
        0 <= level <= 2,
        level_ready(level, m),
        meta_ok(item),
        0 <= ev,
        ev + 2 <= limits.max_xml_events,
    ensures
        lm_run_from(
            inside(level_stack(level).push("MetaData"@), ev, m, relata),
            tree_reads(meta_node("link"@, item, true), d, "link"@, link_ns(), 32, 2),
            limits,
            path,
        ) == Ok::<LinkModelParse, ParseFault>(
            inside(level_stack(level).push("MetaData"@), ev + 2, with_metadata(level, m, seq![item]), relata),
        ),
{
    lemma_link_literals();
    lemma_level_paths(level);
    lemma_meta_attributes(item);
    let stack = level_stack(level).push("MetaData"@);
    let a = meta_attributes(item, true);
    let start = EventView::Start {
        namespace: NamespaceView::Bound(link_ns()),
        local: Ok("Meta"@),
        attributes: attribute_reads(a),
        empty: true,
    };
    assert(tree_reads(meta_node("link"@, item, true), d, "link"@, link_ns(), 32, 2) =~= seq![indent(d, 32, 2)] + seq![start]);
    lemma_lm_run_append(inside(stack, ev, m, relata), seq![indent(d, 32, 2)], seq![start], limits, path);
    lemma_lm_indent(stack, ev, m, relata, d, limits, path);
    lemma_lm_start(inside(stack, ev + 1, m, relata), "Meta"@, a, true, limits, path);
    let full = stack.push("Meta"@);
    assert(full[full.len() - 1] == "Meta"@);
    assert(full[full.len() - 2] == "MetaData"@);
    assert(full[full.len() - 3] == level_stack(level)[level]);
    if level == 0 {
        assert(full =~= seq!["LinkModel", "MetaData", "Meta"].map_values(|x: &str| x@));
        assert(m.metadata.push(item) =~= m.metadata + seq![item]);
    } else if level == 1 {
        let l = m.links.last();
        assert(l.metadata.push(item) =~= l.metadata + seq![item]);
    } else {
        let r = m.links.last().relata.last();
        assert(r.metadata.push(item) =~= r.metadata + seq![item]);
    }
}

proof fn lemma_with_metadata(level: int, m: LinkModelView, a: Seq<MetadataView>, b: Seq<MetadataView>)
    requires
        0 <= level <= 2,
        level_ready(level, m),
    ensures
        with_metadata(level, with_metadata(level, m, a), b) == with_metadata(level, m, a + b),
        level_ready(level, with_metadata(level, m, a)),
        with_metadata(level, m, Seq::empty()) == m,
        with_metadata(level, m, a).links.len() == m.links.len(),
{
    if level == 0 {
        assert(m.metadata + a + b =~= m.metadata + (a + b));
        assert(m.metadata + Seq::<MetadataView>::empty() =~= m.metadata);
    } else if level == 1 {
        let l = m.links.last();
        let m1 = with_metadata(level, m, a);
        assert(m1.links.last() == LinkView { metadata: l.metadata + a, ..l });
        assert(l.metadata + a + b =~= l.metadata + (a + b));
        assert(m1.links.update(m1.links.len() - 1, LinkView { metadata: l.metadata + a + b, ..l }) =~= m.links.update(
            m.links.len() - 1,
            LinkView { metadata: l.metadata + (a + b), ..l },
        ));
        assert(l.metadata + Seq::<MetadataView>::empty() =~= l.metadata);
        assert(m.links.update(m.links.len() - 1, l) =~= m.links);
    } else {
        let l = m.links.last();
        let r = l.relata.last();
        let m1 = with_metadata(level, m, a);
        let l1 = with_last_relatum(l, RelatumView { metadata: r.metadata + a, ..r });
        assert(m1.links.last() == l1);
        assert(l1.relata.last() == RelatumView { metadata: r.metadata + a, ..r });
        assert(r.metadata + a + b =~= r.metadata + (a + b));
        assert(l1.relata.update(l1.relata.len() - 1, RelatumView { metadata: r.metadata + a + b, ..r }) =~= l.relata.update(
            l.relata.len() - 1,
            RelatumView { metadata: r.metadata + (a + b), ..r },
        ));
        assert(m1.links.update(
            m1.links.len() - 1,
            with_last_relatum(l1, RelatumView { metadata: r.metadata + a + b, ..r }),
        ) =~= m.links.update(m.links.len() - 1, with_last_relatum(l, RelatumView { metadata: r.metadata + (a + b), ..r })));
        assert(r.metadata + Seq::<MetadataView>::empty() =~= r.metadata);
        assert(l.relata.update(l.relata.len() - 1, r) =~= l.relata);
        assert(m.links.update(m.links.len() - 1, l) =~= m.links);
    }
}

proof fn lemma_meta_reads_len(items: Seq<MetadataView>, d: nat)
    ensures
        trees_reads(meta_nodes("link"@, items, true), d, "link"@, link_ns(), 32, 2).len() == 2 * items.len(),
    decreases items.len(),
{
    if items.len() > 0 {
        lemma_meta_reads_len(items.drop_last(), d);
        lemma_trees_reads_push(
            meta_nodes("link"@, items.drop_last(), true),
            meta_node("link"@, items.last(), true),
            d,
            "link"@,
            link_ns(),
        );
    }
}

/// Metadata items at `level` are read back into the model, in order.
proof fn lemma_lm_metas(
    level: int,
    items: Seq<MetadataView>,
    ev: int,
    m: LinkModelView,
    relata: int,
    d: nat,
    limits: Limits,
    path: Seq<char>,
)
    requires
        0 <= level <= 2,
        level_ready(level, m),
        forall|i: int| 0 <= i < items.len() ==> meta_ok(#[trigger] items[i]),
        0 <= ev,
        ev + 2 * items.len() <= limits.max_xml_events,
    ensures
        trees_reads(meta_nodes("link"@, items, true), d, "link"@, link_ns(), 32, 2).len() == 2 * items.len(),
        lm_run_from(
            inside(level_stack(level).push("MetaData"@), ev, m, relata),
            trees_reads(meta_nodes("link"@, items, true), d, "link"@, link_ns(), 32, 2),
            limits,
            path,
        ) == Ok::<LinkModelParse, ParseFault>(
            inside(level_stack(level).push("MetaData"@), ev + 2 * items.len(), with_metadata(level, m, items), relata),
        ),
    decreases items.len(),
{
    let stack = level_stack(level).push("MetaData"@);
    lemma_with_metadata(level, m, Seq::empty(), Seq::empty());
    if items.len() == 0 {
        assert(lm_run_from(inside(stack, ev, m, relata), Seq::<EventView>::empty(), limits, path) == Ok::<
            LinkModelParse,
            ParseFault,
        >(inside(stack, ev, m, relata)));
    } else {
        let init = items.drop_last();
        let x = items.last();
        lemma_lm_metas(level, init, ev, m, relata, d, limits, path);
        let m1 = with_metadata(level, m, init);
        lemma_with_metadata(level, m, init, seq![x]);
        assert(init + seq![x] =~= items);
        lemma_trees_reads_push(meta_nodes("link"@, init, true), meta_node("link"@, x, true), d, "link"@, link_ns());
        lemma_lm_run_append(
            inside(stack, ev, m, relata),
            trees_reads(meta_nodes("link"@, init, true), d, "link"@, link_ns(), 32, 2),
            tree_reads(meta_node("link"@, x, true), d, "link"@, link_ns(), 32, 2),
            limits,
            path,
        );
        lemma_lm_meta(level, x, ev + 2 * init.len(), m1, relata, d, limits, path);
    }
}

/// Four events read in turn from a state inside the root.
proof fn lemma_lm_run_three(
    st: LinkModelParse,
    a: Seq<EventView>,
    b: Seq<EventView>,
    c: Seq<EventView>,
    limits: Limits,
    path: Seq<char>,
)
    ensures
        lm_run_from(st, a + b + c, limits, path) == match lm_run_from(st, a, limits, path) {
            Err(f) => Err(f),
            Ok(s1) => match lm_run_from(s1, b, limits, path) {
                Err(f) => Err(f),
                Ok(s2) => lm_run_from(s2, c, limits, path),
            },
        },
{
    lemma_lm_run_append(st, a + b, c, limits, path);
    lemma_lm_run_append(st, a, b, limits, path);
}

/// The start tag of an element, on a line of its own, inside the root.
proof fn lemma_lm_open(
    stack: Seq<Seq<char>>,
    ev: int,
    m: LinkModelView,
    relata: int,
    x: Seq<char>,
    a: Seq<(Seq<char>, Seq<char>)>,
    empty: bool,
    d: nat,
    limits: Limits,
    path: Seq<char>,
)
    requires
        stack.len() > 0,
        0 <= ev,
        ev + 2 <= limits.max_xml_events,
        valid_link_path(stack.push(x)),
        plain_attributes(a),
    ensures
        lm_run_from(
            inside(stack, ev, m, relata),
            seq![
                indent(d, 32, 2),
                EventView::Start {
                    namespace: NamespaceView::Bound(link_ns()),
                    local: Ok(x),
                    attributes: attribute_reads(a),
                    empty,
                },
            ],
            limits,
            path,
        ) == match link_start_model(stack.push(x), m, relata, a, limits, path) {
            Err(f) => Err(f),
            Ok((m2, c)) => Ok(
                inside(
                    if empty {
                        stack
                    } else {
                        stack.push(x)
                    },
                    ev + 2,
                    m2,
                    c,
                ),
            ),
        },
{
    let start = EventView::Start {
        namespace: NamespaceView::Bound(link_ns()),
        local: Ok(x),
        attributes: attribute_reads(a),
        empty,
    };
    assert(seq![indent(d, 32, 2), start] =~= seq![indent(d, 32, 2)] + seq![start]);
    lemma_lm_run_append(inside(stack, ev, m, relata), seq![indent(d, 32, 2)], seq![start], limits, path);
    lemma_lm_indent(stack, ev, m, relata, d, limits, path);
    lemma_lm_start(inside(stack, ev + 1, m, relata), x, a, empty, limits, path);
}

/// The end tag of an element, on a line of its own.
proof fn lemma_lm_close(stack: Seq<Seq<char>>, ev: int, m: LinkModelView, relata: int, d: nat, limits: Limits, path: Seq<char>)
    requires
        stack.len() > 0,
        0 <= ev,
        ev + 2 <= limits.max_xml_events,
    ensures
        lm_run_from(inside(stack, ev, m, relata), seq![indent(d, 32, 2), EventView::End], limits, path) == Ok::<
            LinkModelParse,
            ParseFault,
        >(inside(stack.drop_last(), ev + 2, m, relata)),
{
    assert(seq![indent(d, 32, 2), EventView::End] =~= seq![indent(d, 32, 2)] + seq![EventView::End]);
    lemma_lm_run_append(inside(stack, ev, m, relata), seq![indent(d, 32, 2)], seq![EventView::End], limits, path);
    lemma_lm_indent(stack, ev, m, relata, d, limits, path);
    lemma_lm_end(inside(stack, ev + 1, m, relata), limits, path);
}

/// A metadata collection at `level` is read back into the model.
#[verifier::rlimit(50)]
#[verifier::spinoff_prover]
proof fn lemma_lm_metadata(
    level: int,
    items: Seq<MetadataView>,
    ev: int,
    m: LinkModelView,
    relata: int,
    d: nat,
    limits: Limits,
    path: Seq<char>,
)
    requires
        0 <= level <= 2,
        level_ready(level, m),
        forall|i: int| 0 <= i < items.len() ==> meta_ok(#[trigger] items[i]),
        0 <= ev,
        ev + trees_reads(metadata_trees("link"@, items, true), d, "link"@, link_ns(), 32, 2).len() <= limits.max_xml_events,
    ensures
        trees_reads(metadata_trees("link"@, items, true), d, "link"@, link_ns(), 32, 2).len() == if items.len() == 0 {
            0
        } else {
            4 + 2 * items.len()
        },
        lm_run_from(
            inside(level_stack(level), ev, m, relata),
            trees_reads(metadata_trees("link"@, items, true), d, "link"@, link_ns(), 32, 2),
            limits,
            path,
        ) == Ok::<LinkModelParse, ParseFault>(
            inside(
                level_stack(level),
                ev + trees_reads(metadata_trees("link"@, items, true), d, "link"@, link_ns(), 32, 2).len(),
                with_metadata(level, m, items),
                relata,
            ),
        ),
{
    lemma_link_literals();
    lemma_level_paths(level);
    lemma_with_metadata(level, m, Seq::empty(), Seq::empty());
    let stack = level_stack(level);
    if items.len() == 0 {
        assert(metadata_trees("link"@, items, true) =~= Seq::<XmlTree>::empty());
        assert(lm_run_from(inside(stack, ev, m, relata), Seq::<EventView>::empty(), limits, path) == Ok::<
            LinkModelParse,
            ParseFault,
        >(inside(stack, ev, m, relata)));
    } else {
        let node = metadata_trees("link"@, items, true)[0];
        assert(metadata_trees("link"@, items, true) =~= seq![node]);
        lemma_trees_reads_one(node, d, "link"@, link_ns());
        let metas = meta_nodes("link"@, items, true);
        let a = seq![
            indent(d, 32, 2),
            EventView::Start {
                namespace: NamespaceView::Bound(link_ns()),
                local: Ok("MetaData"@),
                attributes: attribute_reads(Seq::empty()),
                empty: false,
            },
        ];
        let b = trees_reads(metas, d + 1, "link"@, link_ns(), 32, 2);
        let c = seq![indent(d, 32, 2), EventView::End];
        assert(metas.len() > 0) by {
            assert(meta_nodes("link"@, items, true) == meta_nodes("link"@, items.drop_last(), true).push(
                meta_node("link"@, items.last(), true),
            ));
        }
        assert(!(metas.len() == 1 && metas[0] is Text)) by {
            if metas.len() == 1 {
                assert(meta_nodes("link"@, items.drop_last(), true).len() == 0 || true);
                assert(metas[metas.len() - 1] == meta_node("link"@, items.last(), true));
            }
        }
        assert(tree_reads(node, d, "link"@, link_ns(), 32, 2) =~= a + b + c);
        lemma_lm_run_three(inside(stack, ev, m, relata), a, b, c, limits, path);
        assert(plain_attributes(Seq::<(Seq<char>, Seq<char>)>::empty()));
        lemma_meta_reads_len(items, d + 1);
        lemma_lm_metas(level, items, ev + 2, m, relata, d + 1, limits, path);
        lemma_lm_open(stack, ev, m, relata, "MetaData"@, Seq::empty(), false, d, limits, path);
        let full = stack.push("MetaData"@);
        assert(full[full.len() - 1] == "MetaData"@);
        assert(link_start_model(full, m, relata, Seq::empty(), limits, path) == Ok::<(LinkModelView, int), ParseFault>(
            (m, relata),
        ));
        lemma_lm_close(full, ev + 2 + 2 * items.len(), with_metadata(level, m, items), relata, d, limits, path);
        assert(full.drop_last() =~= stack);
    }
}

/// A rate the LinkModel parser reads back: type, value and target present
/// and plain.
pub open spec fn rate_ok(t: RateView) -> bool {
    &&& t.rate_type.len() > 0 && plain_value(t.rate_type)
    &&& t.value.len() > 0 && plain_value(t.value)
    &&& t.target_model.len() > 0 && plain_value(t.target_model)
}

/// The model with `rates` added to the last relatum of its last link.
pub open spec fn with_rates(m: LinkModelView, rates: Seq<RateView>) -> LinkModelView {
    let l = m.links.last();
    let r = l.relata.last();
    with_last_link(m, with_last_relatum(l, RelatumView { rates: r.rates + rates, ..r }))
}

proof fn lemma_with_rates(m: LinkModelView, a: Seq<RateView>, b: Seq<RateView>)
    requires
        level_ready(2, m),
    ensures
        with_rates(with_rates(m, a), b) == with_rates(m, a + b),
        level_ready(2, with_rates(m, a)),
        with_rates(m, Seq::empty()) == m,
        with_rates(m, a).links.len() == m.links.len(),
{
    let l = m.links.last();
    let r = l.relata.last();
    let m1 = with_rates(m, a);
    let l1 = with_last_relatum(l, RelatumView { rates: r.rates + a, ..r });
    assert(m1.links.last() == l1);
    assert(l1.relata.last() == RelatumView { rates: r.rates + a, ..r });
    assert(r.rates + a + b =~= r.rates + (a + b));
    assert(l1.relata.update(l1.relata.len() - 1, RelatumView { rates: r.rates + a + b, ..r }) =~= l.relata.update(
        l.relata.len() - 1,
        RelatumView { rates: r.rates + (a + b), ..r },
    ));
    assert(m1.links.update(m1.links.len() - 1, with_last_relatum(l1, RelatumView { rates: r.rates + a + b, ..r }))
        =~= m.links.update(m.links.len() - 1, with_last_relatum(l, RelatumView { rates: r.rates + (a + b), ..r })));
    assert(r.rates + Seq::<RateView>::empty() =~= r.rates);
    assert(l.relata.update(l.relata.len() - 1, r) =~= l.relata);
    assert(m.links.update(m.links.len() - 1, l) =~= m.links);
}

proof fn lemma_rate_reads_len(s: Seq<RateView>, d: nat)
    ensures
        trees_reads(rate_nodes(s), d, "link"@, link_ns(), 32, 2).len() == 2 * s.len(),
    decreases s.len(),
{
    if s.len() > 0 {
        lemma_rate_reads_len(s.drop_last(), d);
        lemma_trees_reads_push(rate_nodes(s.drop_last()), rate_node(s.last()), d, "link"@, link_ns());
    }
}

/// Rates are read back into the last relatum of the last link, in order.
#[verifier::rlimit(50)]
#[verifier::spinoff_prover]
proof fn lemma_lm_rates(
    rates: Seq<RateView>,
    ev: int,
    m: LinkModelView,
    relata: int,
    d: nat,
    limits: Limits,
    path: Seq<char>,
)
    requires
        level_ready(2, m),
        forall|i: int| 0 <= i < rates.len() ==> rate_ok(#[trigger] rates[i]),
        0 <= ev,
        ev + 2 * rates.len() <= limits.max_xml_events,
    ensures
        lm_run_from(inside(level_stack(2), ev, m, relata), trees_reads(rate_nodes(rates), d, "link"@, link_ns(), 32, 2), limits, path)
            == Ok::<LinkModelParse, ParseFault>(inside(level_stack(2), ev + 2 * rates.len(), with_rates(m, rates), relata)),
    decreases rates.len(),
{
    let stack = level_stack(2);
    lemma_with_rates(m, Seq::empty(), Seq::empty());
    if rates.len() == 0 {
        assert(lm_run_from(inside(stack, ev, m, relata), Seq::<EventView>::empty(), limits, path) == Ok::<
            LinkModelParse,
            ParseFault,
        >(inside(stack, ev, m, relata)));
    } else {
        let init = rates.drop_last();
        let x = rates.last();
        lemma_lm_rates(init, ev, m, relata, d, limits, path);
        let m1 = with_rates(m, init);
        lemma_with_rates(m, init, seq![x]);
        assert(init + seq![x] =~= rates);
        lemma_trees_reads_push(rate_nodes(init), rate_node(x), d, "link"@, link_ns());
        lemma_rate_reads_len(init, d);
        lemma_lm_run_append(
            inside(stack, ev, m, relata),
            trees_reads(rate_nodes(init), d, "link"@, link_ns(), 32, 2),
            tree_reads(rate_node(x), d, "link"@, link_ns(), 32, 2),
            limits,
            path,
        );
        // The rate itself.
        lemma_link_literals();
        lemma_level_paths(2);
        let a = seq![("t"@, x.rate_type), ("v"@, x.value), ("m"@, x.target_model)];
        assert forall|i: int, j: int| 0 <= i < j < a.len() implies #[trigger] a[i].0 != #[trigger] a[j].0 by {}
        assert(plain_attributes(a));
        lemma_attr_get(a, "t"@);
        lemma_attr_get(a, "v"@);
        lemma_attr_get(a, "m"@);
        assert(a[0].0 == "t"@ && a[1].0 == "v"@ && a[2].0 == "m"@);
        assert(link_rate(a) == Ok::<RateView, Seq<char>>(x));
        assert(tree_reads(rate_node(x), d, "link"@, link_ns(), 32, 2) =~= seq![
            indent(d, 32, 2),
            EventView::Start {
                namespace: NamespaceView::Bound(link_ns()),
                local: Ok("Rate"@),
                attributes: attribute_reads(a),
                empty: true,
            },
        ]);
        let ev1 = ev + 2 * init.len();
        lemma_lm_open(stack, ev1, m1, relata, "Rate"@, a, true, d, limits, path);
        let full = stack.push("Rate"@);
        assert(full[full.len() - 1] == "Rate"@ && full[full.len() - 2] == "Relatum"@);
        let l = m1.links.last();
        let r = l.relata.last();
        assert(r.rates.push(x) =~= r.rates + seq![x]);
    }
}

/// A relatum the LinkModel parser reads back: element and model present,
/// every text plain, and its metadata and rates as above.
pub open spec fn relatum_ok(r: RelatumView) -> bool {
    &&& r.element_id.len() > 0 && plain_value(r.element_id)
    &&& r.model_id.len() > 0 && plain_value(r.model_id)
    &&& (r.format_id matches Some(f) ==> plain_value(f))
    &&& (r.resource_id matches Some(x) ==> plain_value(x))
    &&& forall|i: int| 0 <= i < r.metadata.len() ==> meta_ok(#[trigger] r.metadata[i])
    &&& forall|i: int| 0 <= i < r.rates.len() ==> rate_ok(#[trigger] r.rates[i])
}

/// The model with `r` added to the relata of its last link.
pub open spec fn with_relatum(m: LinkModelView, r: RelatumView) -> LinkModelView {
    let l = m.links.last();
    with_last_link(m, LinkView { relata: l.relata.push(r), ..l })
}

proof fn lemma_rate_nodes_elements(s: Seq<RateView>)
    ensures
        rate_nodes(s).len() == s.len(),
        forall|i: int| 0 <= i < s.len() ==> (#[trigger] rate_nodes(s)[i]) is Element,
    decreases s.len(),
{
    if s.len() > 0 {
        lemma_rate_nodes_elements(s.drop_last());
        assert forall|i: int| 0 <= i < s.len() implies (#[trigger] rate_nodes(s)[i]) is Element by {
            if i < s.len() - 1 {
                assert(rate_nodes(s)[i] == rate_nodes(s.drop_last())[i]);
            }
        }
    }
}

/// The attributes of a relatum are admitted and give it back, without
/// its metadata and rates.
proof fn lemma_relatum_attributes(r: RelatumView)
    requires
        relatum_ok(r),
    ensures
        plain_attributes(relatum_attributes(r)),
        link_relatum(relatum_attributes(r)) == Ok::<RelatumView, Seq<char>>(
            RelatumView { metadata: Seq::empty(), rates: Seq::empty(), ..r },
        ),
{
    lemma_link_literals();
    let a = relatum_attributes(r);
    assert forall|i: int, j: int| 0 <= i < j < a.len() implies #[trigger] a[i].0 != #[trigger] a[j].0 by {}
    lemma_attr_get(a, "id"@);
    lemma_attr_get(a, "m"@);
    lemma_attr_get(a, "f"@);
    lemma_attr_get(a, "r"@);
    assert(a[0] == ("id"@, r.element_id));
    assert(a[1] == ("m"@, r.model_id));
    if r.format_id is Some {
        assert(a[2] == ("f"@, r.format_id->Some_0));
    }
    if r.resource_id is Some {
        assert(a[a.len() - 1] == ("r"@, r.resource_id->Some_0));
    }
}

/// A relatum is read back into the relata of the last link.
#[verifier::rlimit(50)]
#[verifier::spinoff_prover]
proof fn lemma_lm_relatum(
    r: RelatumView,
    ev: int,
    m: LinkModelView,
    relata: int,
    d: nat,
    limits: Limits,
    path: Seq<char>,
)
    requires
        level_ready(1, m),
        relatum_ok(r),
        0 <= ev,
        ev + tree_reads(relatum_node(r), d, "link"@, link_ns(), 32, 2).len() <= limits.max_xml_events,
        0 <= relata,
        relata + 1 <= limits.max_linked_elements,
    ensures
        lm_run_from(inside(level_stack(1), ev, m, relata), tree_reads(relatum_node(r), d, "link"@, link_ns(), 32, 2), limits, path)
            == Ok::<LinkModelParse, ParseFault>(
            inside(
                level_stack(1),
                ev + tree_reads(relatum_node(r), d, "link"@, link_ns(), 32, 2).len(),
                with_relatum(m, r),
                relata + 1,
            ),
        ),
{
    lemma_link_literals();
    lemma_level_paths(1);
    lemma_level_paths(2);
    lemma_relatum_attributes(r);
    let stack = level_stack(1);
    let a = relatum_attributes(r);
    let r0 = RelatumView { metadata: Seq::empty(), rates: Seq::empty(), ..r };
    let empty = r.metadata.len() == 0 && r.rates.len() == 0;
    let start = EventView::Start {
        namespace: NamespaceView::Bound(link_ns()),
        local: Ok("Relatum"@),
        attributes: attribute_reads(a),
        empty,
    };
    let open = seq![indent(d, 32, 2), start];
    let full = stack.push("Relatum"@);
    assert(full[full.len() - 1] == "Relatum"@ && full[full.len() - 2] == "Link"@);
    let m1 = with_relatum(m, r0);
    assert(link_start_model(full, m, relata, a, limits, path) == Ok::<(LinkModelView, int), ParseFault>((m1, relata + 1)));
    if empty {
        assert(tree_reads(relatum_node(r), d, "link"@, link_ns(), 32, 2) =~= open);
        lemma_lm_open(stack, ev, m, relata, "Relatum"@, a, true, d, limits, path);
        assert(r0 == r);
    } else {
        let md = metadata_trees("link"@, r.metadata, true);
        let rn = rate_nodes(r.rates);
        let children = md + rn;
        lemma_rate_nodes_elements(r.rates);
        assert(!(children.len() == 1 && children[0] is Text)) by {
            if md.len() > 0 {
                assert(children[0] == md[0]);
            } else {
                assert(children =~= rn);
            }
        }
        lemma_trees_reads_append(md, rn, d + 1, "link"@, link_ns());
        let b1 = trees_reads(md, d + 1, "link"@, link_ns(), 32, 2);
        let b2 = trees_reads(rn, d + 1, "link"@, link_ns(), 32, 2);
        let close = seq![indent(d, 32, 2), EventView::End];
        assert(tree_reads(relatum_node(r), d, "link"@, link_ns(), 32, 2) =~= open + (b1 + b2) + close);
        lemma_lm_run_three(inside(stack, ev, m, relata), open, b1 + b2, close, limits, path);
        lemma_lm_open(stack, ev, m, relata, "Relatum"@, a, false, d, limits, path);
        assert(full =~= level_stack(2));
        assert(level_ready(2, m1));
        lemma_lm_run_append(inside(level_stack(2), ev + 2, m1, relata + 1), b1, b2, limits, path);
        lemma_lm_metadata(2, r.metadata, ev + 2, m1, relata + 1, d + 1, limits, path);
        let m2 = with_metadata(2, m1, r.metadata);
        lemma_with_metadata(2, m1, r.metadata, Seq::empty());
        lemma_rate_reads_len(r.rates, d + 1);
        lemma_lm_rates(r.rates, ev + 2 + b1.len(), m2, relata + 1, d + 1, limits, path);
        let m3 = with_rates(m2, r.rates);
        lemma_lm_close(level_stack(2), ev + 2 + b1.len() + b2.len(), m3, relata + 1, d, limits, path);
        assert(level_stack(2).drop_last() =~= stack);
        // The relatum placed, then filled, is the relatum read.
        let l = m.links.last();
        assert(m1.links.last() == LinkView { relata: l.relata.push(r0), ..l });
        assert(r.metadata =~= Seq::<MetadataView>::empty() + r.metadata);
        assert(r.rates =~= Seq::<RateView>::empty() + r.rates);
        assert(m2.links.last().relata.last() == RelatumView { metadata: r.metadata, ..r0 });
        assert(m3.links.last().relata.last() == r);
        assert(m3.links.last().relata =~= l.relata.push(r));
        assert(m3.links.last() == LinkView { relata: l.relata.push(r), ..l });
        assert(m3.links =~= with_relatum(m, r).links);
    }
}

/// The model with `rs` added to the relata of its last link.
pub open spec fn with_relata(m: LinkModelView, rs: Seq<RelatumView>) -> LinkModelView {
    let l = m.links.last();
    with_last_link(m, LinkView { relata: l.relata + rs, ..l })
}

proof fn lemma_relatum_nodes_elements(s: Seq<RelatumView>)
    ensures
        relatum_nodes(s).len() == s.len(),
        forall|i: int| 0 <= i < s.len() ==> (#[trigger] relatum_nodes(s)[i]) is Element,
    decreases s.len(),
{
    if s.len() > 0 {
        lemma_relatum_nodes_elements(s.drop_last());
        assert forall|i: int| 0 <= i < s.len() implies (#[trigger] relatum_nodes(s)[i]) is Element by {
            if i < s.len() - 1 {
                assert(relatum_nodes(s)[i] == relatum_nodes(s.drop_last())[i]);
            }
        }
    }
}

/// Relata are read back into the last link, in order.
#[verifier::rlimit(50)]
#[verifier::spinoff_prover]
proof fn lemma_lm_relata(
    rs: Seq<RelatumView>,
    ev: int,
    m: LinkModelView,
    relata: int,
    d: nat,
    limits: Limits,
    path: Seq<char>,
)
    requires
        level_ready(1, m),
        forall|i: int| 0 <= i < rs.len() ==> relatum_ok(#[trigger] rs[i]),
        0 <= ev,
        ev + trees_reads(relatum_nodes(rs), d, "link"@, link_ns(), 32, 2).len() <= limits.max_xml_events,
        0 <= relata,
        relata + rs.len() <= limits.max_linked_elements,
    ensures
        lm_run_from(inside(level_stack(1), ev, m, relata), trees_reads(relatum_nodes(rs), d, "link"@, link_ns(), 32, 2), limits, path)
            == Ok::<LinkModelParse, ParseFault>(
            inside(
                level_stack(1),
                ev + trees_reads(relatum_nodes(rs), d, "link"@, link_ns(), 32, 2).len(),
                with_relata(m, rs),
                relata + rs.len(),
            ),
        ),
    decreases rs.len(),
{
    let stack = level_stack(1);
    let l = m.links.last();
    if rs.len() == 0 {
        assert(lm_run_from(inside(stack, ev, m, relata), Seq::<EventView>::empty(), limits, path) == Ok::<
            LinkModelParse,
            ParseFault,
        >(inside(stack, ev, m, relata)));
        assert(l.relata + rs =~= l.relata);
        assert(m.links.update(m.links.len() - 1, l) =~= m.links);
    } else {
        let init = rs.drop_last();
        let x = rs.last();
        lemma_trees_reads_push(relatum_nodes(init), relatum_node(x), d, "link"@, link_ns());
        let a = trees_reads(relatum_nodes(init), d, "link"@, link_ns(), 32, 2);
        let b = tree_reads(relatum_node(x), d, "link"@, link_ns(), 32, 2);
        lemma_lm_relata(init, ev, m, relata, d, limits, path);
        lemma_lm_run_append(inside(stack, ev, m, relata), a, b, limits, path);
        let m1 = with_relata(m, init);
        assert(m1.links.last() == LinkView { relata: l.relata + init, ..l });
        lemma_lm_relatum(x, ev + a.len(), m1, relata + init.len(), d, limits, path);
        assert((l.relata + init).push(x) =~= l.relata + rs);
        assert(with_relatum(m1, x).links =~= with_relata(m, rs).links);
    }
}

/// A link the LinkModel parser reads back: its metadata and relata as above.
pub open spec fn link_ok(l: LinkView) -> bool {
    &&& forall|i: int| 0 <= i < l.metadata.len() ==> meta_ok(#[trigger] l.metadata[i])
    &&& forall|i: int| 0 <= i < l.relata.len() ==> relatum_ok(#[trigger] l.relata[i])
}

/// A link is read back into the model's links.
#[verifier::rlimit(50)]
#[verifier::spinoff_prover]
proof fn lemma_lm_link(
    l: LinkView,
    ev: int,
    m: LinkModelView,
    relata: int,
    d: nat,
    limits: Limits,
    path: Seq<char>,
)
    requires
        link_ok(l),
        0 <= ev,
        ev + tree_reads(link_node(l), d, "link"@, link_ns(), 32, 2).len() <= limits.max_xml_events,
        0 <= relata,
        relata + l.relata.len() <= limits.max_linked_elements,
        m.links.len() + 1 <= limits.max_links,
    ensures
        lm_run_from(inside(level_stack(0), ev, m, relata), tree_reads(link_node(l), d, "link"@, link_ns(), 32, 2), limits, path)
            == Ok::<LinkModelParse, ParseFault>(
            inside(
                level_stack(0),
                ev + tree_reads(link_node(l), d, "link"@, link_ns(), 32, 2).len(),
                LinkModelView { links: m.links.push(l), ..m },
                relata + l.relata.len(),
            ),
        ),
{
    lemma_link_literals();
    lemma_level_paths(0);
    lemma_level_paths(1);
    let stack = level_stack(0);
    let e0 = LinkView { metadata: Seq::empty(), relata: Seq::empty() };
    let m1 = LinkModelView { links: m.links.push(e0), ..m };
    let start = EventView::Start {
        namespace: NamespaceView::Bound(link_ns()),
        local: Ok("Link"@),
        attributes: attribute_reads(Seq::empty()),
        empty: false,
    };
    let open = seq![indent(d, 32, 2), start];
    let full = stack.push("Link"@);
    assert(full[full.len() - 1] == "Link"@ && full[full.len() - 2] == "LinkModel"@);
    assert(plain_attributes(Seq::<(Seq<char>, Seq<char>)>::empty()));
    assert(link_start_model(full, m, relata, Seq::empty(), limits, path) == Ok::<(LinkModelView, int), ParseFault>(
        (m1, relata),
    ));
    let md = metadata_trees("link"@, l.metadata, true);
    let rn = relatum_nodes(l.relata);
    let children = md + rn;
    lemma_relatum_nodes_elements(l.relata);
    assert(!(children.len() == 1 && children[0] is Text)) by {
        if md.len() > 0 {
            assert(children[0] == md[0]);
        } else {
            assert(children =~= rn);
        }
    }
    lemma_trees_reads_append(md, rn, d + 1, "link"@, link_ns());
    let b1 = trees_reads(md, d + 1, "link"@, link_ns(), 32, 2);
    let b2 = trees_reads(rn, d + 1, "link"@, link_ns(), 32, 2);
    let close = seq![indent(d, 32, 2), EventView::End];
    assert(tree_reads(link_node(l), d, "link"@, link_ns(), 32, 2) =~= open + (b1 + b2) + close);
    lemma_lm_run_three(inside(stack, ev, m, relata), open, b1 + b2, close, limits, path);
    lemma_lm_open(stack, ev, m, relata, "Link"@, Seq::empty(), false, d, limits, path);
    assert(full =~= level_stack(1));
    assert(level_ready(1, m1));
    lemma_lm_run_append(inside(level_stack(1), ev + 2, m1, relata), b1, b2, limits, path);
    lemma_lm_metadata(1, l.metadata, ev + 2, m1, relata, d + 1, limits, path);
    let m2 = with_metadata(1, m1, l.metadata);
    lemma_with_metadata(1, m1, l.metadata, Seq::empty());
    lemma_lm_relata(l.relata, ev + 2 + b1.len(), m2, relata, d + 1, limits, path);
    let m3 = with_relata(m2, l.relata);
    lemma_lm_close(level_stack(1), ev + 2 + b1.len() + b2.len(), m3, relata + l.relata.len(), d, limits, path);
    assert(level_stack(1).drop_last() =~= stack);
    assert(Seq::<MetadataView>::empty() + l.metadata =~= l.metadata);
    assert(Seq::<RelatumView>::empty() + l.relata =~= l.relata);
    assert(m2.links.last() == LinkView { metadata: l.metadata, ..e0 });
    assert(m3.links.last() == l);
    assert(m3.links =~= m.links.push(l));
}

/// The number of relata of the links.
pub open spec fn total_relata(ls: Seq<LinkView>) -> int
    decreases ls.len(),
{
    if ls.len() == 0 {
        0
    } else {
        total_relata(ls.drop_last()) + ls.last().relata.len()
    }
}

/// Links are read back into the model, in order.
#[verifier::rlimit(50)]
#[verifier::spinoff_prover]
proof fn lemma_lm_links(
    ls: Seq<LinkView>,
    ev: int,
    m: LinkModelView,
    relata: int,
    d: nat,
    limits: Limits,
    path: Seq<char>,
)
    requires
        forall|i: int| 0 <= i < ls.len() ==> link_ok(#[trigger] ls[i]),
        0 <= ev,
        ev + trees_reads(link_nodes(ls), d, "link"@, link_ns(), 32, 2).len() <= limits.max_xml_events,
        0 <= relata,
        relata + total_relata(ls) <= limits.max_linked_elements,
        m.links.len() + ls.len() <= limits.max_links,
    ensures
        total_relata(ls) >= 0,
        lm_run_from(inside(level_stack(0), ev, m, relata), trees_reads(link_nodes(ls), d, "link"@, link_ns(), 32, 2), limits, path)
            == Ok::<LinkModelParse, ParseFault>(
            inside(
                level_stack(0),
                ev + trees_reads(link_nodes(ls), d, "link"@, link_ns(), 32, 2).len(),
                LinkModelView { links: m.links + ls, ..m },
                relata + total_relata(ls),
            ),
        ),
    decreases ls.len(),
{
    let stack = level_stack(0);
    if ls.len() == 0 {
        assert(lm_run_from(inside(stack, ev, m, relata), Seq::<EventView>::empty(), limits, path) == Ok::<
            LinkModelParse,
            ParseFault,
        >(inside(stack, ev, m, relata)));
        assert(m.links + ls =~= m.links);
    } else {
        let init = ls.drop_last();
        let x = ls.last();
        lemma_trees_reads_push(link_nodes(init), link_node(x), d, "link"@, link_ns());
        let a = trees_reads(link_nodes(init), d, "link"@, link_ns(), 32, 2);
        let b = tree_reads(link_node(x), d, "link"@, link_ns(), 32, 2);
        lemma_lm_links(init, ev, m, relata, d, limits, path);
        lemma_lm_run_append(inside(stack, ev, m, relata), a, b, limits, path);
        let m1 = LinkModelView { links: m.links + init, ..m };
        lemma_lm_link(x, ev + a.len(), m1, relata + total_relata(init), d, limits, path);
        assert((m.links + init).push(x) =~= m.links + ls);
    }
}

/// A LinkModel the parser reads back: a format version, and every
/// metadata item and link as above; all text plain.
pub open spec fn link_model_ok(m: LinkModelView) -> bool {
    &&& m.format_version.len() > 0
    &&& plain_value(m.format_version)
    &&& forall|i: int| 0 <= i < m.metadata.len() ==> meta_ok(#[trigger] m.metadata[i])
    &&& forall|i: int| 0 <= i < m.links.len() ==> link_ok(#[trigger] m.links[i])
}

proof fn lemma_root_attributes(fv: Seq<char>)
    requires
        plain_value(fv),
    ensures
        attribute_map(attribute_reads(seq![("xmlns:link"@, LINK_MODEL_NAMESPACE@), ("formatVersion"@, fv)])) == Ok::<
            Seq<(Seq<char>, Seq<char>)>,
            Seq<char>,
        >(seq![("formatVersion"@, fv)]),
{
    reveal_strlit("xmlns:link");
    reveal_strlit("xmlns:");
    reveal_strlit("formatVersion");
    reveal_strlit("link");
    let a = seq![("xmlns:link"@, LINK_MODEL_NAMESPACE@), ("formatVersion"@, fv)];
    let raw = attribute_reads(a);
    assert("xmlns:link"@.take(6) =~= "xmlns:"@);
    assert("xmlns:link"@.skip(6) =~= "link"@);
    assert("formatVersion"@.take(6)[0] != "xmlns:"@[0]);
    assert(raw[0] == attribute_read(a[0]));
    assert(raw[1] == attribute_read(a[1]));
    assert(raw.drop_last() =~= seq![raw[0]]);
    assert(seq![raw[0]].drop_last() =~= Seq::<Result<AttributeView, Seq<char>>>::empty());
    assert(attribute_map(Seq::<Result<AttributeView, Seq<char>>>::empty()) == Ok::<Seq<(Seq<char>, Seq<char>)>, Seq<char>>(
        Seq::empty(),
    ));
    assert("xmlns:link"@.len() > 6);
    assert(raw[0] == Ok::<AttributeView, Seq<char>>(
        AttributeView { prefixed: true, key: Ok("link"@), value: Ok(LINK_MODEL_NAMESPACE@) },
    ));
    assert(seq![raw[0]].last() == raw[0]);
    assert(attribute_map(seq![raw[0]]) == Ok::<Seq<(Seq<char>, Seq<char>)>, Seq<char>>(Seq::empty()));
    assert(Seq::<(Seq<char>, Seq<char>)>::empty().push(("formatVersion"@, fv)) =~= seq![("formatVersion"@, fv)]);
}

proof fn lemma_link_nodes_elements(s: Seq<LinkView>)
    ensures
        link_nodes(s).len() == s.len(),
        forall|i: int| 0 <= i < s.len() ==> (#[trigger] link_nodes(s)[i]) is Element,
    decreases s.len(),
{
    if s.len() > 0 {
        lemma_link_nodes_elements(s.drop_last());
        assert forall|i: int| 0 <= i < s.len() implies (#[trigger] link_nodes(s)[i]) is Element by {
            if i < s.len() - 1 {
                assert(link_nodes(s)[i] == link_nodes(s.drop_last())[i]);
            }
        }
    }
}

/// The events read from a written LinkModel document project back to the
/// model.
#[verifier::rlimit(80)]
#[verifier::spinoff_prover]
pub proof fn lemma_link_model_reads(m: LinkModelView, limits: Limits, path: Seq<char>)
    requires
        link_model_ok(m),
        document_reads(link_model_tree(m), "link"@, LINK_MODEL_NAMESPACE@, 32, 2).len() <= limits.max_xml_events,
        m.links.len() <= limits.max_links,
        total_relata(m.links) <= limits.max_linked_elements,
    ensures
        link_model_outcome(document_reads(link_model_tree(m), "link"@, LINK_MODEL_NAMESPACE@, 32, 2), limits, path)
            == Ok::<LinkModelView, ParseFault>(m),
{
    lemma_link_literals();
    lemma_level_paths(0);
    let doc = document_reads(link_model_tree(m), "link"@, LINK_MODEL_NAMESPACE@, 32, 2);
    let root_attrs = seq![("xmlns:link"@, LINK_MODEL_NAMESPACE@), ("formatVersion"@, m.format_version)];
    let start = EventView::Start {
        namespace: NamespaceView::Bound(link_ns()),
        local: Ok("LinkModel"@),
        attributes: attribute_reads(root_attrs),
        empty: false,
    };
    let md = metadata_trees("link"@, m.metadata, true);
    let ln = link_nodes(m.links);
    let children = md + ln;
    lemma_link_nodes_elements(m.links);
    assert(!(children.len() == 1 && children[0] is Text)) by {
        if md.len() > 0 {
            assert(children[0] == md[0]);
        } else {
            assert(children =~= ln);
        }
    }
    lemma_trees_reads_append(md, ln, 1, "link"@, link_ns());
    let b1 = trees_reads(md, 1, "link"@, link_ns(), 32, 2);
    let b2 = trees_reads(ln, 1, "link"@, link_ns(), 32, 2);
    let e0 = seq![EventView::Decl];
    let e1 = seq![indent(0, 32, 2)];
    let e2 = seq![start];
    let close = seq![indent(0, 32, 2), EventView::End];
    let e_end = seq![EventView::Eof];
    assert(doc =~= e0 + e1 + e2 + b1 + b2 + close + e_end);
    // Running through the pieces in turn.
    let s0 = lm_initial();
    lemma_lm_run_initial(doc, limits, path);
    lemma_lm_run_append(s0, e0 + e1 + e2 + b1 + b2 + close, e_end, limits, path);
    lemma_lm_run_append(s0, e0 + e1 + e2 + b1 + b2, close, limits, path);
    lemma_lm_run_append(s0, e0 + e1 + e2 + b1, b2, limits, path);
    lemma_lm_run_append(s0, e0 + e1 + e2, b1, limits, path);
    lemma_lm_run_append(s0, e0 + e1, e2, limits, path);
    lemma_lm_run_append(s0, e0, e1, limits, path);
    // The declaration.
    lemma_lm_one(s0, EventView::Decl, limits, path);
    let s1 = LinkModelParse { events: 1, ..s0 };
    assert(lm_run_from(s0, e0, limits, path) == Ok::<LinkModelParse, ParseFault>(s1));
    // The line end before the root.
    lemma_lm_one(s1, indent(0, 32, 2), limits, path);
    let t = seq!['\n'] + Seq::new(0nat, |i: int| 32u8 as char);
    assert(t =~= seq!['\n']);
    assert(all_xml_chars(t));
    assert(blank(t));
    let s2 = LinkModelParse { events: 2, ..s0 };
    assert(lm_run_from(s1, e1, limits, path) == Ok::<LinkModelParse, ParseFault>(s2));
    // The root.
    lemma_lm_one(s2, start, limits, path);
    lemma_root_attributes(m.format_version);
    let m0 = LinkModelView { format_version: m.format_version, metadata: Seq::empty(), links: Seq::empty() };
    let p = seq![("formatVersion"@, m.format_version)];
    lemma_attr_get(p, "formatVersion"@);
    assert(p[0].0 == "formatVersion"@);
    assert(Seq::<Seq<char>>::empty().push("LinkModel"@) =~= level_stack(0));
    assert(link_start_model(level_stack(0), m0, 0, p, limits, path) == Ok::<(LinkModelView, int), ParseFault>((m0, 0)));
    let s3 = inside(level_stack(0), 3, m0, 0);
    assert(lm_run_from(s2, e2, limits, path) == Ok::<LinkModelParse, ParseFault>(s3));
    // The children.
    assert(forall|i: int| 0 <= i < m.metadata.len() ==> meta_ok(#[trigger] m.metadata[i]));
    lemma_lm_metadata(0, m.metadata, 3, m0, 0, 1, limits, path);
    let m1 = with_metadata(0, m0, m.metadata);
    assert(Seq::<MetadataView>::empty() + m.metadata =~= m.metadata);
    lemma_lm_links(m.links, 3 + b1.len() as int, m1, 0, 1, limits, path);
    let m2 = LinkModelView { links: m1.links + m.links, ..m1 };
    assert(Seq::<LinkView>::empty() + m.links =~= m.links);
    assert(m2 == m);
    let ev3: int = (3 + b1.len() + b2.len()) as int;
    lemma_lm_close(level_stack(0), ev3, m, total_relata(m.links), 0, limits, path);
    let s4 = inside(Seq::empty(), ev3 + 2, m, total_relata(m.links));
    assert(level_stack(0).drop_last() =~= Seq::<Seq<char>>::empty());
    // The end of input.
    lemma_lm_one(s4, EventView::Eof, limits, path);
}

pub proof fn lemma_trees_ok_append(a: Seq<XmlTree>, b: Seq<XmlTree>, prefix: Seq<char>)
    requires
        trees_ok(a, prefix),
        trees_ok(b, prefix),
    ensures
        trees_ok(a + b, prefix),
    decreases b.len(),
{
    if b.len() == 0 {
        assert(a + b =~= a);
    } else {
        lemma_trees_ok_append(a, b.drop_last(), prefix);
        assert((a + b).drop_last() =~= a + b.drop_last());
        assert((a + b).last() == b.last());
    }
}

pub proof fn lemma_trees_ok_push(a: Seq<XmlTree>, t: XmlTree, prefix: Seq<char>)
    requires
        trees_ok(a, prefix),
        tree_ok(t, prefix),
    ensures
        trees_ok(a.push(t), prefix),
{
    assert(a.push(t).drop_last() =~= a);
}

pub proof fn lemma_text_alone_elements(cs: Seq<XmlTree>)
    requires
        forall|i: int| 0 <= i < cs.len() ==> (#[trigger] cs[i]) is Element,
    ensures
        text_alone(cs),
{
}

proof fn lemma_meta_nodes_ok(items: Seq<MetadataView>)
    requires
        forall|i: int| 0 <= i < items.len() ==> meta_ok(#[trigger] items[i]),
    ensures
        trees_ok(meta_nodes("link"@, items, true), "link"@),
        meta_nodes("link"@, items, true).len() == items.len(),
        forall|i: int| 0 <= i < items.len() ==> (#[trigger] meta_nodes("link"@, items, true)[i]) is Element,
    decreases items.len(),
{
    if items.len() > 0 {
        lemma_meta_nodes_ok(items.drop_last());
        lemma_link_literals();
        lemma_meta_attributes(items.last());
        let t = meta_node("link"@, items.last(), true);
        assert(trees_ok(Seq::<XmlTree>::empty(), "link"@));
        assert(tree_ok(t, "link"@));
        lemma_trees_ok_push(meta_nodes("link"@, items.drop_last(), true), t, "link"@);
        assert forall|i: int| 0 <= i < items.len() implies (#[trigger] meta_nodes("link"@, items, true)[i]) is Element by {
            if i < items.len() - 1 {
                assert(meta_nodes("link"@, items, true)[i] == meta_nodes("link"@, items.drop_last(), true)[i]);
            }
        }
    }
}

proof fn lemma_metadata_trees_ok(items: Seq<MetadataView>)
    requires
        forall|i: int| 0 <= i < items.len() ==> meta_ok(#[trigger] items[i]),
    ensures
        trees_ok(metadata_trees("link"@, items, true), "link"@),
        forall|i: int| 0 <= i < metadata_trees("link"@, items, true).len() ==> (#[trigger] metadata_trees(
            "link"@,
            items,
            true,
        )[i]) is Element,
{
    if items.len() > 0 {
        lemma_link_literals();
        lemma_meta_nodes_ok(items);
        lemma_text_alone_elements(meta_nodes("link"@, items, true));
        let t = metadata_trees("link"@, items, true)[0];
        assert(plain_attributes(Seq::<(Seq<char>, Seq<char>)>::empty()));
        assert(tree_ok(t, "link"@));
        lemma_trees_ok_push(Seq::empty(), t, "link"@);
        assert(Seq::<XmlTree>::empty().push(t) =~= metadata_trees("link"@, items, true));
    }
}

proof fn lemma_rate_nodes_ok(s: Seq<RateView>)
    requires
        forall|i: int| 0 <= i < s.len() ==> rate_ok(#[trigger] s[i]),
    ensures
        trees_ok(rate_nodes(s), "link"@),
    decreases s.len(),
{
    if s.len() > 0 {
        lemma_rate_nodes_ok(s.drop_last());
        lemma_link_literals();
        let x = s.last();
        let a = seq![("t"@, x.rate_type), ("v"@, x.value), ("m"@, x.target_model)];
        assert forall|i: int, j: int| 0 <= i < j < a.len() implies #[trigger] a[i].0 != #[trigger] a[j].0 by {}
        assert(plain_attributes(a));
        assert(trees_ok(Seq::<XmlTree>::empty(), "link"@));
        assert(tree_ok(rate_node(x), "link"@));
        lemma_trees_ok_push(rate_nodes(s.drop_last()), rate_node(x), "link"@);
    }
}

proof fn lemma_relatum_nodes_ok(s: Seq<RelatumView>)
    requires
        forall|i: int| 0 <= i < s.len() ==> relatum_ok(#[trigger] s[i]),
    ensures
        trees_ok(relatum_nodes(s), "link"@),
    decreases s.len(),
{
    if s.len() > 0 {
        lemma_relatum_nodes_ok(s.drop_last());
        lemma_link_literals();
        let r = s.last();
        lemma_relatum_attributes(r);
        lemma_metadata_trees_ok(r.metadata);
        lemma_rate_nodes_ok(r.rates);
        lemma_rate_nodes_elements(r.rates);
        let cs = metadata_trees("link"@, r.metadata, true) + rate_nodes(r.rates);
        lemma_trees_ok_append(metadata_trees("link"@, r.metadata, true), rate_nodes(r.rates), "link"@);
        assert forall|i: int| 0 <= i < cs.len() implies (#[trigger] cs[i]) is Element by {
            if i < metadata_trees("link"@, r.metadata, true).len() {
                assert(cs[i] == metadata_trees("link"@, r.metadata, true)[i]);
            } else {
                assert(cs[i] == rate_nodes(r.rates)[i - metadata_trees("link"@, r.metadata, true).len()]);
            }
        }
        lemma_text_alone_elements(cs);
        assert(trees_ok(Seq::<XmlTree>::empty(), "link"@));
        assert(tree_ok(relatum_node(r), "link"@));
        lemma_trees_ok_push(relatum_nodes(s.drop_last()), relatum_node(r), "link"@);
    }
}

proof fn lemma_link_nodes_ok(s: Seq<LinkView>)
    requires
        forall|i: int| 0 <= i < s.len() ==> link_ok(#[trigger] s[i]),
    ensures
        trees_ok(link_nodes(s), "link"@),
    decreases s.len(),
{
    if s.len() > 0 {
        lemma_link_nodes_ok(s.drop_last());
        lemma_link_literals();
        let l = s.last();
        lemma_metadata_trees_ok(l.metadata);
        lemma_relatum_nodes_ok(l.relata);
        lemma_relatum_nodes_elements(l.relata);
        let cs = metadata_trees("link"@, l.metadata, true) + relatum_nodes(l.relata);
        lemma_trees_ok_append(metadata_trees("link"@, l.metadata, true), relatum_nodes(l.relata), "link"@);
        assert forall|i: int| 0 <= i < cs.len() implies (#[trigger] cs[i]) is Element by {
            if i < metadata_trees("link"@, l.metadata, true).len() {
                assert(cs[i] == metadata_trees("link"@, l.metadata, true)[i]);
            } else {
                assert(cs[i] == relatum_nodes(l.relata)[i - metadata_trees("link"@, l.metadata, true).len()]);
            }
        }
        lemma_text_alone_elements(cs);
        assert(plain_attributes(Seq::<(Seq<char>, Seq<char>)>::empty()));
        assert(trees_ok(Seq::<XmlTree>::empty(), "link"@));
        assert(tree_ok(link_node(l), "link"@));
        lemma_trees_ok_push(link_nodes(s.drop_last()), link_node(l), "link"@);
    }
}

/// The namespace of LinkModel documents is plain text that needs no escaping.
proof fn lemma_link_namespace_plain()
    ensures
        LINK_MODEL_NAMESPACE@.len() > 0,
        plain_value(LINK_MODEL_NAMESPACE@),
        forall|i: int| 0 <= i < LINK_MODEL_NAMESPACE@.len() ==> escape_name(#[trigger] LINK_MODEL_NAMESPACE@[i]) is None,
{
    reveal_strlit("http://www.buildingsmart.org/multi-model/LinkModel/2.0.0");
    assert(LINK_MODEL_NAMESPACE@ == "http://www.buildingsmart.org/multi-model/LinkModel/2.0.0"@);
}

/// The tree of a LinkModel the parser reads back is one the writer's
/// output can be read back from.
pub proof fn lemma_link_model_readable(m: LinkModelView)
    requires
        link_model_ok(m),
    ensures
        readable_root(link_model_tree(m), "link"@, LINK_MODEL_NAMESPACE@),
{
    lemma_link_literals();
    lemma_link_namespace_plain();
    lemma_metadata_trees_ok(m.metadata);
    lemma_link_nodes_ok(m.links);
    lemma_link_nodes_elements(m.links);
    let md = metadata_trees("link"@, m.metadata, true);
    let ln = link_nodes(m.links);
    let cs = md + ln;
    lemma_trees_ok_append(md, ln, "link"@);
    assert forall|i: int| 0 <= i < cs.len() implies (#[trigger] cs[i]) is Element by {
        if i < md.len() {
            assert(cs[i] == md[i]);
        } else {
            assert(cs[i] == ln[i - md.len()]);
        }
    }
    lemma_text_alone_elements(cs);
    let attrs = seq![("xmlns:link"@, LINK_MODEL_NAMESPACE@), ("formatVersion"@, m.format_version)];
    assert(attrs.skip(1) =~= seq![("formatVersion"@, m.format_version)]);
    assert(plain_attributes(attrs.skip(1)));
}

/// Events that neither end the input nor fail, and start tags whose
/// attributes were all read.
pub open spec fn plain_reads(s: Seq<EventView>) -> bool {
    forall|i: int|
        0 <= i < s.len() ==> !(#[trigger] s[i] is Eof) && !(s[i] is ReadError) && (s[i] matches EventView::Start {
            attributes,
            ..
        } ==> forall|j: int| 0 <= j < attributes.len() ==> attributes[j] is Ok)
}

pub proof fn lemma_plain_reads_append(a: Seq<EventView>, b: Seq<EventView>)
    requires
        plain_reads(a),
        plain_reads(b),
    ensures
        plain_reads(a + b),
{
    assert forall|i: int| 0 <= i < (a + b).len() implies !(#[trigger] (a + b)[i] is Eof) && !((a + b)[i] is ReadError) && (
    (a + b)[i] matches EventView::Start { attributes, .. } ==> forall|j: int|
        0 <= j < attributes.len() ==> attributes[j] is Ok) by {
        if i < a.len() {
            assert((a + b)[i] == a[i]);
        } else {
            assert((a + b)[i] == b[i - a.len()]);
        }
    }
}

proof fn lemma_text_reads_plain(s: Seq<char>, run: Seq<char>)
    ensures
        plain_reads(crate::read_back::text_reads_from(s, run)),
    decreases s.len(),
{
    if s.len() > 0 {
        lemma_text_reads_plain(s.drop_first(), Seq::empty());
        lemma_text_reads_plain(s.drop_first(), run.push(s[0]));
        let pending = if run.len() == 0 {
            Seq::<EventView>::empty()
        } else {
            seq![EventView::Text(Ok(run))]
        };
        assert(plain_reads(pending));
        if let Some(n) = escape_name(s[0]) {
            let r = seq![EventView::Reference { character: Ok(None), name: Ok(n) }];
            assert(plain_reads(r));
            lemma_plain_reads_append(pending, r);
            lemma_plain_reads_append(pending + r, crate::read_back::text_reads_from(s.drop_first(), Seq::empty()));
        }
    } else {
        let pending = if run.len() == 0 {
            Seq::<EventView>::empty()
        } else {
            seq![EventView::Text(Ok(run))]
        };
        assert(plain_reads(pending));
    }
}

pub proof fn lemma_tree_reads_plain(t: XmlTree, d: nat, prefix: Seq<char>, ns: Seq<u8>)
    ensures
        plain_reads(tree_reads(t, d, prefix, ns, 32, 2)),
    decreases t,
{
    match t {
        XmlTree::Text(s) => {
            lemma_text_reads_plain(s, Seq::empty());
        },
        XmlTree::Element { name, attributes, empty, children } => {
            let open = seq![
                indent(d, 32, 2),
                EventView::Start {
                    namespace: NamespaceView::Bound(ns),
                    local: Ok(local_of(name, prefix)),
                    attributes: attribute_reads(attributes),
                    empty,
                },
            ];
            assert(plain_reads(open)) by {
                assert forall|j: int| 0 <= j < attribute_reads(attributes).len() implies attribute_reads(attributes)[j] is Ok by {
                    assert(attribute_reads(attributes)[j] == attribute_read(attributes[j]));
                }
            }
            if !empty {
                lemma_trees_reads_plain(children, d + 1, prefix, ns);
                let close = if children.len() == 1 && children[0] is Text {
                    seq![EventView::End]
                } else {
                    seq![indent(d, 32, 2), EventView::End]
                };
                assert(plain_reads(close));
                lemma_plain_reads_append(trees_reads(children, d + 1, prefix, ns, 32, 2), close);
                lemma_plain_reads_append(open, trees_reads(children, d + 1, prefix, ns, 32, 2) + close);
                assert(tree_reads(t, d, prefix, ns, 32, 2) =~= open + (trees_reads(children, d + 1, prefix, ns, 32, 2) + close));
            } else {
                assert(tree_reads(t, d, prefix, ns, 32, 2) =~= open);
            }
        },
    }
}

proof fn lemma_trees_reads_plain(ts: Seq<XmlTree>, d: nat, prefix: Seq<char>, ns: Seq<u8>)
    ensures
        plain_reads(trees_reads(ts, d, prefix, ns, 32, 2)),
    decreases ts,
{
    if ts.len() > 0 {
        lemma_trees_reads_plain(ts.drop_last(), d, prefix, ns);
        lemma_tree_reads_plain(ts.last(), d, prefix, ns);
        lemma_plain_reads_append(trees_reads(ts.drop_last(), d, prefix, ns, 32, 2), tree_reads(ts.last(), d, prefix, ns, 32, 2));
    }
}

proof fn lemma_attributes_from(x: Seq<u8>, k: nat, attributes: Seq<Result<AttributeView, Seq<char>>>, j: nat)
    requires
        j <= attributes.len(),
        attributes.len() < x.len(),
        forall|i: int| 0 <= i < attributes.len() ==> #[trigger] xml_attribute(x, k, i as nat) == Some(attributes[i]),
        xml_attribute(x, k, attributes.len()) is None,
        forall|i: int| 0 <= i < attributes.len() ==> attributes[i] is Ok,
    ensures
        xml_attributes_from(x, k, j) == attributes.skip(j as int),
    decreases attributes.len() - j,
{
    if j == attributes.len() {
        assert(attributes.skip(j as int) =~= Seq::<Result<AttributeView, Seq<char>>>::empty());
    } else {
        lemma_attributes_from(x, k, attributes, j + 1);
        let ji: int = j as int;
        assert(xml_attribute(x, k, ji as nat) == Some(attributes[ji]));
        assert(ji as nat == j);
        assert(attributes.skip(j as int) =~= seq![attributes[j as int]] + attributes.skip(j + 1int));
    }
}

/// An event that reads as `e` is `e`.
proof fn lemma_event_at(x: Seq<u8>, k: nat, e: EventView)
    requires
        reads_as(x, k, e),
        e matches EventView::Start { attributes, .. } ==> forall|j: int| 0 <= j < attributes.len() ==> attributes[j] is Ok,
    ensures
        xml_event_at(x, k) == e,
{
    if let EventView::Start { attributes, .. } = e {
        lemma_attributes_from(x, k, attributes, 0);
        assert(attributes.skip(0) =~= attributes);
    }
}

/// A source whose events read as `doc`, which ends its input at its last
/// event, within the event budget, streams as `doc`.
pub proof fn lemma_stream(x: Seq<u8>, doc: Seq<EventView>, max: usize, i: nat)
    requires
        reads_back(x, doc),
        1 <= doc.len() <= max + 1,
        i < doc.len(),
        doc.last() is Eof,
        plain_reads(doc.drop_last()),
    ensures
        xml_stream_from(x, i, max) == doc.skip(i as int),
    decreases doc.len() - i,
{
    assert(reads_as(x, i, doc[i as int]));
    if i == doc.len() - 1 {
        lemma_event_at(x, i, doc[i as int]);
        assert(doc.skip(i as int) =~= seq![doc[i as int]]);
    } else {
        assert(doc.drop_last()[i as int] == doc[i as int]);
        lemma_event_at(x, i, doc[i as int]);
        lemma_stream(x, doc, max, i + 1);
        assert(doc.skip(i as int) =~= seq![doc[i as int]] + doc.skip(i + 1int));
    }
}

/// Parsing a written LinkModel document gives the model back, escaped
/// characters included: for bytes that read back as the written document
/// (as `serialize_link_model` states of what it writes), within the byte
/// budget, whose events, links and relata are within their budgets, and a
/// model whose required values are present and whose text is plain.
pub proof fn law_link_model_round_trip(m: LinkModelView, x: Seq<u8>, path: Seq<char>, limits: Limits)
    requires
        link_model_ok(m),
        reads_back(x, document_reads(link_model_tree(m), "link"@, LINK_MODEL_NAMESPACE@, 32, 2)),
        x.len() <= limits.max_xml_bytes,
        document_reads(link_model_tree(m), "link"@, LINK_MODEL_NAMESPACE@, 32, 2).len() <= limits.max_xml_events,
        m.links.len() <= limits.max_links,
        total_relata(m.links) <= limits.max_linked_elements,
    ensures
        link_model_parse_result(path, x, limits) == Ok::<LinkModelView, ParseFault>(m),
{
    let doc = document_reads(link_model_tree(m), "link"@, LINK_MODEL_NAMESPACE@, 32, 2);
    let body = tree_reads(link_model_tree(m), 0, "link"@, link_ns(), 32, 2);
    lemma_tree_reads_plain(link_model_tree(m), 0, "link"@, link_ns());
    assert(plain_reads(seq![EventView::Decl]));
    lemma_plain_reads_append(seq![EventView::Decl], body);
    assert(doc.drop_last() =~= seq![EventView::Decl] + body);
    lemma_stream(x, doc, limits.max_xml_events, 0);
    assert(doc.skip(0) =~= doc);
    assert(xml_source_fault(path, x, limits) is None);
    lemma_link_model_reads(m, limits, path);
}

} // verus!
