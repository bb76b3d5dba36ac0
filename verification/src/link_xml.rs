//! The LinkModel XML parser: a state machine over the document's event
//! stream that builds the typed link projection.

use vstd::prelude::*;

use crate::error::{is_fault, limit_failure, xml_failure, MmcError, ParseFault};
use crate::limits::Limits;
use crate::model::{
    link_views, metadata_views, rate_views, relatum_views, Link, LinkModel, LinkModelView, LinkView, MetadataEntry,
    MetadataView, Rate, RateView, Relatum, RelatumView,
};
use crate::multimodel_xml::{check_xml_source, namespace_standard, resolve_standard, wrong_root, wrong_root_message, xml_source_fault};
use crate::text::same_text;
use crate::xml_events::{
    attribute_views, event_views, first_start, is_start_named, read_xml_events, text_result, xml_stream, AttributeView, EventView,
    NamespaceView, XmlAttribute, XmlEvent, XmlNamespace,
};
use crate::xml_rules::{
    all_xml_chars, attr_get, attribute_map, blank, is_blank, is_stack, link_path_ok, make_stack_name,
    name_below_top, only_xml_chars, optional_attr, pairs_view, path_ends, read_attribute_map, reference_value,
    required_attr, required_value, resolve_reference, stack_ends, stack_is, stack_name, stack_name_below_top,
    texts_of, valid_link_path,
};
use crate::LINK_MODEL_NAMESPACE;

verus! {

/// The LinkModel projection while the document's events are being read.
pub struct LinkModelParse {
    pub stack: Seq<Seq<char>>,
    pub events: int,
    pub root_seen: bool,
    pub model: Option<LinkModelView>,
    /// Relata seen so far, over all links.
    pub relata: int,
    pub done: bool,
}

/// A metadata item of a LinkModel document: `k` and `v` are required,
/// `t` and `c` optional.
pub open spec fn link_meta(p: Seq<(Seq<char>, Seq<char>)>) -> Result<MetadataView, Seq<char>> {
    match required_attr(p, "k"@, "Meta"@) {
        Err(m) => Err(m),
        Ok(k) => match required_attr(p, "v"@, "Meta"@) {
            Err(m) => Err(m),
            Ok(v) => Ok(MetadataView { key: k, value: v, value_type: attr_get(p, "t"@), category: attr_get(p, "c"@) }),
        },
    }
}

/// A relatum read from its attributes: `id` and `m` are required, `f` and
/// `r` optional.
pub open spec fn link_relatum(p: Seq<(Seq<char>, Seq<char>)>) -> Result<RelatumView, Seq<char>> {
    match required_attr(p, "id"@, "Relatum"@) {
        Err(m) => Err(m),
        Ok(id) => match required_attr(p, "m"@, "Relatum"@) {
            Err(m) => Err(m),
            Ok(mid) => Ok(
                RelatumView {
                    element_id: id,
                    model_id: mid,
                    format_id: attr_get(p, "f"@),
                    resource_id: attr_get(p, "r"@),
                    metadata: Seq::empty(),
                    rates: Seq::empty(),
                },
            ),
        },
    }
}

/// A rate read from its attributes: `t`, `v` and `m` are required.
pub open spec fn link_rate(p: Seq<(Seq<char>, Seq<char>)>) -> Result<RateView, Seq<char>> {
    match required_attr(p, "t"@, "Rate"@) {
        Err(m) => Err(m),
        Ok(t) => match required_attr(p, "v"@, "Rate"@) {
            Err(m) => Err(m),
            Ok(v) => match required_attr(p, "m"@, "Rate"@) {
                Err(m) => Err(m),
                Ok(target) => Ok(RateView { rate_type: t, value: v, target_model: target }),
            },
        },
    }
}

/// The model with `f` applied to its last link.
pub open spec fn with_last_link(m: LinkModelView, l: LinkView) -> LinkModelView {
    LinkModelView { links: m.links.update(m.links.len() - 1, l), ..m }
}

/// The link with `r` in place of its last relatum.
pub open spec fn with_last_relatum(l: LinkView, r: RelatumView) -> LinkView {
    LinkView { relata: l.relata.update(l.relata.len() - 1, r), ..l }
}

/// What a standard element at the position `stack` adds to the model, and
/// the new relata count.
pub open spec fn link_start_model(
    stack: Seq<Seq<char>>,
    m: LinkModelView,
    relata: int,
    p: Seq<(Seq<char>, Seq<char>)>,
    limits: Limits,
    path: Seq<char>,
) -> Result<(LinkModelView, int), ParseFault> {
    if path_ends(stack, "LinkModel"@, "Link"@) {
        let links = m.links.push(LinkView { metadata: Seq::empty(), relata: Seq::empty() });
        if links.len() > limits.max_links {
            Err(ParseFault::Limit("links"@, links.len() as u64, limits.max_links as u64))
        } else {
            Ok((LinkModelView { links, ..m }, relata))
        }
    } else if path_ends(stack, "Link"@, "Relatum"@) {
        if m.links.len() == 0 {
            Err(ParseFault::Xml(path, "Relatum outside Link"@))
        } else {
            match link_relatum(p) {
                Err(msg) => Err(ParseFault::Xml(path, msg)),
                Ok(r) => {
                    let l = m.links.last();
                    let count = if relata < usize::MAX { relata + 1 } else { relata };
                    if count > limits.max_linked_elements {
                        Err(ParseFault::Limit("relata"@, count as u64, limits.max_linked_elements as u64))
                    } else {
                        Ok((with_last_link(m, LinkView { relata: l.relata.push(r), ..l }), count))
                    }
                },
            }
        }
    } else if path_ends(stack, "Relatum"@, "Rate"@) {
        if m.links.len() == 0 || m.links.last().relata.len() == 0 {
            Err(ParseFault::Xml(path, "Rate outside Relatum"@))
        } else {
            match link_rate(p) {
                Err(msg) => Err(ParseFault::Xml(path, msg)),
                Ok(rate) => {
                    let l = m.links.last();
                    let r = l.relata.last();
                    Ok((with_last_link(m, with_last_relatum(l, RelatumView { rates: r.rates.push(rate), ..r })), relata))
                },
            }
        }
    } else if stack.len() > 0 && stack.last() == "Meta"@ {
        match link_meta(p) {
            Err(msg) => Err(ParseFault::Xml(path, msg)),
            Ok(item) => if name_below_top(stack, 2, "Relatum"@) {
                if m.links.len() == 0 || m.links.last().relata.len() == 0 {
                    Err(ParseFault::Xml(path, "Meta outside Relatum"@))
                } else {
                    let l = m.links.last();
                    let r = l.relata.last();
                    Ok(
                        (
                            with_last_link(m, with_last_relatum(l, RelatumView { metadata: r.metadata.push(item), ..r })),
                            relata,
                        ),
                    )
                }
            } else if name_below_top(stack, 2, "Link"@) {
                if m.links.len() == 0 {
                    Err(ParseFault::Xml(path, "Meta outside Link"@))
                } else {
                    let l = m.links.last();
                    Ok((with_last_link(m, LinkView { metadata: l.metadata.push(item), ..l }), relata))
                }
            } else if is_stack(stack, seq!["LinkModel", "MetaData", "Meta"]) {
                Ok((LinkModelView { metadata: m.metadata.push(item), ..m }, relata))
            } else {
                Ok((m, relata))
            },
        }
    } else {
        Ok((m, relata))
    }
}

/// What a standard element adds to the projection, by its position.
pub open spec fn lm_handle_start(
    st: LinkModelParse,
    p: Seq<(Seq<char>, Seq<char>)>,
    limits: Limits,
    path: Seq<char>,
) -> Result<LinkModelParse, ParseFault> {
    match st.model {
        None => Err(ParseFault::Xml(path, "content outside LinkModel"@)),
        Some(m) => match link_start_model(st.stack, m, st.relata, p, limits, path) {
            Err(f) => Err(f),
            Ok((m2, count)) => Ok(LinkModelParse { model: Some(m2), relata: count, ..st }),
        },
    }
}

/// A start tag (or an empty-element tag) in a LinkModel document.
pub open spec fn lm_start(
    st: LinkModelParse,
    namespace: NamespaceView,
    local: Result<Seq<char>, Seq<char>>,
    raw: Seq<Result<AttributeView, Seq<char>>>,
    empty: bool,
    limits: Limits,
    path: Seq<char>,
) -> Result<LinkModelParse, ParseFault> {
    match local {
        Err(m) => Err(ParseFault::Xml("XML"@, m)),
        Ok(l) => match namespace_standard(namespace, LINK_MODEL_NAMESPACE) {
            Err(f) => Err(f),
            Ok(standard) => {
                let rooted: Result<LinkModelParse, ParseFault> = if st.stack.len() == 0 {
                    if l != "LinkModel"@ || !standard {
                        Err(ParseFault::Xml(path, wrong_root_message(LINK_MODEL_NAMESPACE, "LinkModel")))
                    } else if st.root_seen {
                        Err(ParseFault::Xml(path, "multiple root elements"@))
                    } else {
                        match attribute_map(raw) {
                            Err(m) => Err(ParseFault::Xml(path, m)),
                            Ok(p) => match required_attr(p, "formatVersion"@, "LinkModel"@) {
                                Err(m) => Err(ParseFault::Xml(path, m)),
                                Ok(fv) => Ok(
                                    LinkModelParse {
                                        root_seen: true,
                                        model: Some(
                                            LinkModelView { format_version: fv, metadata: Seq::empty(), links: Seq::empty() },
                                        ),
                                        ..st
                                    },
                                ),
                            },
                        }
                    }
                } else {
                    Ok(st)
                };
                match rooted {
                    Err(f) => Err(f),
                    Ok(s1) => {
                        let s2 = LinkModelParse { stack: s1.stack.push(stack_name(l, standard)), ..s1 };
                        let handled: Result<LinkModelParse, ParseFault> = if standard {
                            if !valid_link_path(s2.stack) {
                                Err(ParseFault::Xml(path, "unexpected LinkModel element position"@))
                            } else {
                                match attribute_map(raw) {
                                    Err(m) => Err(ParseFault::Xml(path, m)),
                                    Ok(p) => lm_handle_start(s2, p, limits, path),
                                }
                            }
                        } else {
                            Ok(s2)
                        };
                        match handled {
                            Err(f) => Err(f),
                            Ok(s3) => Ok(
                                if empty {
                                    LinkModelParse { stack: s3.stack.drop_last(), ..s3 }
                                } else {
                                    s3
                                },
                            ),
                        }
                    },
                }
            },
        },
    }
}

/// One event of a LinkModel document (after it has been counted).
pub open spec fn lm_dispatch(st: LinkModelParse, ev: EventView, limits: Limits, path: Seq<char>) -> Result<LinkModelParse, ParseFault> {
    match ev {
        EventView::Start { namespace, local, attributes, empty } => lm_start(
            st,
            namespace,
            local,
            attributes,
            empty,
            limits,
            path,
        ),
        EventView::Text(content) => match content {
            Err(m) => Err(ParseFault::Xml(path, m)),
            Ok(t) => if !all_xml_chars(t) {
                Err(ParseFault::Xml(path, "text resolves to a character forbidden by XML 1.0"@))
            } else if st.stack.len() == 0 && !blank(t) {
                Err(ParseFault::Xml(path, "character content outside the document root"@))
            } else {
                Ok(st)
            },
        },
        EventView::CData(_) => if st.stack.len() == 0 {
            Err(ParseFault::Xml(path, "CDATA outside the document root"@))
        } else {
            Ok(st)
        },
        EventView::End => Ok(
            LinkModelParse { stack: if st.stack.len() > 0 { st.stack.drop_last() } else { st.stack }, ..st },
        ),
        EventView::Decl => if st.events != 1 {
            Err(ParseFault::Xml(path, "XML declaration is only allowed at document start"@))
        } else {
            Ok(st)
        },
        EventView::DocType => Err(ParseFault::Xml(path, "DOCTYPE is prohibited"@)),
        EventView::Reference { character, name } => if st.stack.len() == 0 {
            Err(ParseFault::Xml(path, "entity reference outside the document root"@))
        } else {
            match reference_value(character, name) {
                Err(m) => Err(ParseFault::Xml(path, m)),
                Ok(_) => Ok(st),
            }
        },
        EventView::Eof => if st.stack.len() > 0 {
            Err(ParseFault::Xml(path, "truncated XML document"@))
        } else {
            Ok(LinkModelParse { done: true, ..st })
        },
        EventView::ReadError(m) => Err(ParseFault::Xml(path, m)),
        _ => Ok(st),
    }
}

/// One event: a read failure fails; otherwise the event is counted against
/// the event budget and then applied.
pub open spec fn lm_step(st: LinkModelParse, ev: EventView, limits: Limits, path: Seq<char>) -> Result<LinkModelParse, ParseFault> {
    if ev is ReadError {
        lm_dispatch(st, ev, limits, path)
    } else {
        let counted = LinkModelParse { events: if st.events < usize::MAX { st.events + 1 } else { st.events }, ..st };
        if counted.events > limits.max_xml_events {
            Err(ParseFault::Limit("XML events"@, counted.events as u64, limits.max_xml_events as u64))
        } else {
            lm_dispatch(counted, ev, limits, path)
        }
    }
}

pub open spec fn lm_initial() -> LinkModelParse {
    LinkModelParse { stack: Seq::empty(), events: 0, root_seen: false, model: None, relata: 0, done: false }
}

/// The state after the events, up to the end of the document.
pub open spec fn lm_run(events: Seq<EventView>, limits: Limits, path: Seq<char>) -> Result<LinkModelParse, ParseFault>
    decreases events.len(),
{
    if events.len() == 0 {
        Ok(lm_initial())
    } else {
        match lm_run(events.drop_last(), limits, path) {
            Err(f) => Err(f),
            Ok(st) => if st.done {
                Ok(st)
            } else {
                lm_step(st, events.last(), limits, path)
            },
        }
    }
}

/// Before the root is seen (and while the document is open) nothing is
/// open and no start tag has come; once it is seen, the first start tag of
/// the events is the `LinkModel` root.
pub open spec fn lm_root_invariant(events: Seq<EventView>, st: LinkModelParse) -> bool {
    &&& (!st.root_seen && !st.done) ==> st.stack.len() == 0 && forall|j: int|
        0 <= j < events.len() ==> !(#[trigger] events[j] is Start)
    &&& st.root_seen ==> exists|i: int| first_start(events, i) && is_start_named(events[i], "LinkModel"@)
}

proof fn lemma_lm_dispatch_root(st: LinkModelParse, e: EventView, limits: Limits, path: Seq<char>)
    requires
        lm_dispatch(st, e, limits, path) is Ok,
    ensures
        st.root_seen ==> lm_dispatch(st, e, limits, path)->Ok_0.root_seen,
        (!st.root_seen && st.stack.len() == 0 && !(e is Start)) ==> !lm_dispatch(st, e, limits, path)->Ok_0.root_seen
            && lm_dispatch(st, e, limits, path)->Ok_0.stack.len() == 0,
        (!st.root_seen && st.stack.len() == 0 && e is Start) ==> is_start_named(e, "LinkModel"@) && lm_dispatch(
            st,
            e,
            limits,
            path,
        )->Ok_0.root_seen,
{
}

/// The first start tag of a document whose projection saw its root is the
/// `LinkModel` root.
pub proof fn lemma_lm_run_root(events: Seq<EventView>, limits: Limits, path: Seq<char>)
    ensures
        lm_run(events, limits, path) matches Ok(st) ==> lm_root_invariant(events, st),
    decreases events.len(),
{
    if events.len() > 0 {
        let prev = events.drop_last();
        lemma_lm_run_root(prev, limits, path);
        assert forall|j: int| 0 <= j < prev.len() implies prev[j] == events[j] by {}
        match lm_run(prev, limits, path) {
            Err(_) => {},
            Ok(st) => {
                let e = events.last();
                if st.root_seen {
                    let i = choose|i: int| first_start(prev, i) && is_start_named(prev[i], "LinkModel"@);
                    assert(first_start(events, i));
                }
                if !st.done && lm_step(st, e, limits, path) is Ok {
                    let counted = if e is ReadError {
                        st
                    } else {
                        LinkModelParse { events: if st.events < usize::MAX { st.events + 1 } else { st.events }, ..st }
                    };
                    assert(lm_step(st, e, limits, path) == lm_dispatch(counted, e, limits, path));
                    lemma_lm_dispatch_root(counted, e, limits, path);
                    if !st.root_seen && e is Start {
                        assert(first_start(events, events.len() - 1));
                    }
                }
            },
        }
    }
}

/// The LinkModel projection of an event stream, or its first failure.
pub open spec fn link_model_outcome(events: Seq<EventView>, limits: Limits, path: Seq<char>) -> Result<LinkModelView, ParseFault> {
    match lm_run(events, limits, path) {
        Err(f) => Err(f),
        Ok(st) => if !st.root_seen {
            Err(ParseFault::Xml(path, "missing LinkModel root"@))
        } else {
            match st.model {
                None => Err(ParseFault::Xml(path, "missing LinkModel"@)),
                Some(m) => Ok(m),
            }
        },
    }
}

/// The state of the LinkModel parser.
pub struct LinkModelReader {
    pub stack: Vec<String>,
    pub events: usize,
    pub root_seen: bool,
    pub model: Option<LinkModel>,
    pub relata: usize,
    pub done: bool,
}

impl View for LinkModelReader {
    type V = LinkModelParse;

    open spec fn view(&self) -> LinkModelParse {
        LinkModelParse {
            stack: texts_of(self.stack@),
            events: self.events as int,
            root_seen: self.root_seen,
            model: match self.model {
                Some(m) => Some(m@),
                None => None,
            },
            relata: self.relata as int,
            done: self.done,
        }
    }
}

/// The exec outcome `r` of a step is the spec outcome `spec`, ending in `new`.
pub open spec fn lm_outcome(r: Result<(), MmcError>, spec: Result<LinkModelParse, ParseFault>, new: LinkModelParse) -> bool {
    match spec {
        Ok(s) => r is Ok && new == s,
        Err(f) => r matches Err(e) && is_fault(e, f),
    }
}

fn read_link_meta(pairs: &Vec<(String, String)>) -> (r: Result<MetadataEntry, String>)
    ensures
        match r {
            Ok(m) => link_meta(pairs_view(pairs@)) == Ok::<MetadataView, Seq<char>>(m@),
            Err(msg) => link_meta(pairs_view(pairs@)) == Err::<MetadataView, Seq<char>>(msg@),
        },
{
    let key = required_value(pairs, "k", "Meta")?;
    let value = required_value(pairs, "v", "Meta")?;
    let value_type = optional_attr(pairs, "t");
    let category = optional_attr(pairs, "c");
    Ok(MetadataEntry { key, value, value_type, category })
}

fn read_relatum(pairs: &Vec<(String, String)>) -> (r: Result<Relatum, String>)
    ensures
        match r {
            Ok(v) => link_relatum(pairs_view(pairs@)) == Ok::<RelatumView, Seq<char>>(v@),
            Err(msg) => link_relatum(pairs_view(pairs@)) == Err::<RelatumView, Seq<char>>(msg@),
        },
{
    let element_id = required_value(pairs, "id", "Relatum")?;
    let model_id = required_value(pairs, "m", "Relatum")?;
    let format_id = optional_attr(pairs, "f");
    let resource_id = optional_attr(pairs, "r");
    let r = Relatum { element_id, model_id, format_id, resource_id, metadata: Vec::new(), rates: Vec::new() };
    assert(metadata_views(r.metadata@) =~= Seq::<MetadataView>::empty());
    assert(rate_views(r.rates@) =~= Seq::<RateView>::empty());
    Ok(r)
}

fn read_rate(pairs: &Vec<(String, String)>) -> (r: Result<Rate, String>)
    ensures
        match r {
            Ok(v) => link_rate(pairs_view(pairs@)) == Ok::<RateView, Seq<char>>(v@),
            Err(msg) => link_rate(pairs_view(pairs@)) == Err::<RateView, Seq<char>>(msg@),
        },
{
    let rate_type = required_value(pairs, "t", "Rate")?;
    let value = required_value(pairs, "v", "Rate")?;
    let target_model = required_value(pairs, "m", "Rate")?;
    Ok(Rate { rate_type, value, target_model })
}

/// Applies a standard element to the model (see `link_start_model`).
fn start_in_model(
    stack: &Vec<String>,
    model: &mut LinkModel,
    relata: &mut usize,
    pairs: &Vec<(String, String)>,
    limits: Limits,
    path: &str,
) -> (r: Result<(), MmcError>)
    ensures
        match link_start_model(texts_of(stack@), old(model)@, *old(relata) as int, pairs_view(pairs@), limits, path@) {
            Ok((m2, count)) => r is Ok && final(model)@ == m2 && *final(relata) == count,
            Err(f) => r matches Err(e) && is_fault(e, f),
        },
{
    let ghost m0 = model@;
    if stack_ends(stack, "LinkModel", "Link") {
        let link = Link { metadata: Vec::new(), relata: Vec::new() };
        assert(metadata_views(link.metadata@) =~= Seq::<MetadataView>::empty());
        assert(relatum_views(link.relata@) =~= Seq::<RelatumView>::empty());
        let ghost before = model.links@;
        model.links.push(link);
        assert(link_views(model.links@) =~= link_views(before).push(link@));
        if model.links.len() > limits.max_links {
            return Err(limit_failure("links", model.links.len() as u64, limits.max_links as u64));
        }
        Ok(())
    } else if stack_ends(stack, "Link", "Relatum") {
        if model.links.len() == 0 {
            return Err(xml_failure(path, String::from_str("Relatum outside Link")));
        }
        let relatum = match read_relatum(pairs) {
            Ok(r) => r,
            Err(m) => {
                return Err(xml_failure(path, m));
            },
        };
        let ghost before = model.links@;
        let mut l = model.links.pop().unwrap();
        let ghost old_l = l@;
        l.relata.push(relatum);
        assert(relatum_views(l.relata@) =~= old_l.relata.push(relatum@));
        model.links.push(l);
        assert(link_views(model.links@) =~= link_views(before).update(before.len() - 1, l@));
        *relata = relata.saturating_add(1);
        if *relata > limits.max_linked_elements {
            return Err(limit_failure("relata", *relata as u64, limits.max_linked_elements as u64));
        }
        Ok(())
    } else if stack_ends(stack, "Relatum", "Rate") {
        if model.links.len() == 0 || model.links[model.links.len() - 1].relata.len() == 0 {
            return Err(xml_failure(path, String::from_str("Rate outside Relatum")));
        }
        let rate = match read_rate(pairs) {
            Ok(r) => r,
            Err(m) => {
                return Err(xml_failure(path, m));
            },
        };
        let ghost before = model.links@;
        let mut l = model.links.pop().unwrap();
        let ghost l_rel = l.relata@;
        let mut r = l.relata.pop().unwrap();
        let ghost old_r = r@;
        r.rates.push(rate);
        assert(rate_views(r.rates@) =~= old_r.rates.push(rate@));
        l.relata.push(r);
        assert(relatum_views(l.relata@) =~= relatum_views(l_rel).update(l_rel.len() - 1, r@));
        model.links.push(l);
        assert(link_views(model.links@) =~= link_views(before).update(before.len() - 1, l@));
        Ok(())
    } else if stack.len() > 0 && same_text(stack[stack.len() - 1].as_str(), "Meta") {
        assert(texts_of(stack@).last() == stack@[stack@.len() - 1]@);
        let item = match read_link_meta(pairs) {
            Ok(i) => i,
            Err(m) => {
                return Err(xml_failure(path, m));
            },
        };
        if stack_name_below_top(stack, 2, "Relatum") {
            if model.links.len() == 0 || model.links[model.links.len() - 1].relata.len() == 0 {
                return Err(xml_failure(path, String::from_str("Meta outside Relatum")));
            }
            let ghost before = model.links@;
            let mut l = model.links.pop().unwrap();
            let ghost l_rel = l.relata@;
            let mut r = l.relata.pop().unwrap();
            let ghost old_r = r@;
            r.metadata.push(item);
            assert(metadata_views(r.metadata@) =~= old_r.metadata.push(item@));
            l.relata.push(r);
            assert(relatum_views(l.relata@) =~= relatum_views(l_rel).update(l_rel.len() - 1, r@));
            model.links.push(l);
            assert(link_views(model.links@) =~= link_views(before).update(before.len() - 1, l@));
            Ok(())
        } else if stack_name_below_top(stack, 2, "Link") {
            if model.links.len() == 0 {
                return Err(xml_failure(path, String::from_str("Meta outside Link")));
            }
            let ghost before = model.links@;
            let mut l = model.links.pop().unwrap();
            let ghost old_l = l@;
            l.metadata.push(item);
            assert(metadata_views(l.metadata@) =~= old_l.metadata.push(item@));
            model.links.push(l);
            assert(link_views(model.links@) =~= link_views(before).update(before.len() - 1, l@));
            Ok(())
        } else if stack_is(stack, &["LinkModel", "MetaData", "Meta"]) {
            let ghost before = model.metadata@;
            model.metadata.push(item);
            assert(metadata_views(model.metadata@) =~= metadata_views(before).push(item@));
            Ok(())
        } else {
            Ok(())
        }
    } else {
        proof {
            if stack@.len() > 0 {
                assert(texts_of(stack@).last() == stack@[stack@.len() - 1]@);
            }
        }
        Ok(())
    }
}

impl LinkModelReader {
    fn new() -> (r: Self)
        ensures
            r@ == lm_initial(),
    {
        let r = LinkModelReader { stack: Vec::new(), events: 0, root_seen: false, model: None, relata: 0, done: false };
        assert(r@.stack =~= Seq::<Seq<char>>::empty());
        r
    }

    fn handle_start(&mut self, pairs: &Vec<(String, String)>, limits: Limits, path: &str) -> (r: Result<(), MmcError>)
        ensures
            lm_outcome(r, lm_handle_start(old(self)@, pairs_view(pairs@), limits, path@), final(self)@),
    {
        let mut model = match self.model.take() {
            None => {
                return Err(xml_failure(path, String::from_str("content outside LinkModel")));
            },
            Some(m) => m,
        };
        let mut relata = self.relata;
        let r = start_in_model(&self.stack, &mut model, &mut relata, pairs, limits, path);
        self.model = Some(model);
        self.relata = relata;
        r
    }

    fn start(
        &mut self,
        namespace: &XmlNamespace,
        local: &Result<String, String>,
        raw: &Vec<Result<XmlAttribute, String>>,
        empty: bool,
        limits: Limits,
        path: &str,
    ) -> (r: Result<(), MmcError>)
        ensures
            lm_outcome(r, lm_start(old(self)@, namespace@, text_result(*local), attribute_views(raw@), empty, limits, path@), final(self)@),
    {
        let l = match local {
            Err(m) => {
                return Err(xml_failure("XML", m.clone()));
            },
            Ok(l) => l,
        };
        let standard = resolve_standard(namespace, LINK_MODEL_NAMESPACE)?;
        if self.stack.len() == 0 {
            if !same_text(l.as_str(), "LinkModel") || !standard {
                return Err(wrong_root(path, LINK_MODEL_NAMESPACE, "LinkModel"));
            }
            if self.root_seen {
                return Err(xml_failure(path, String::from_str("multiple root elements")));
            }
            let pairs = match read_attribute_map(raw) {
                Ok(p) => p,
                Err(m) => {
                    return Err(xml_failure(path, m));
                },
            };
            let format_version = match required_value(&pairs, "formatVersion", "LinkModel") {
                Ok(v) => v,
                Err(m) => {
                    return Err(xml_failure(path, m));
                },
            };
            let model = LinkModel { format_version, metadata: Vec::new(), links: Vec::new() };
            assert(metadata_views(model.metadata@) =~= Seq::<MetadataView>::empty());
            assert(link_views(model.links@) =~= Seq::<LinkView>::empty());
            self.root_seen = true;
            self.model = Some(model);
        }
        let ghost s1 = self@;
        let name = make_stack_name(l.clone(), standard);
        self.stack.push(name);
        assert(texts_of(self.stack@) =~= s1.stack.push(stack_name(l@, standard)));
        if standard {
            if !link_path_ok(&self.stack) {
                return Err(xml_failure(path, String::from_str("unexpected LinkModel element position")));
            }
            let pairs = match read_attribute_map(raw) {
                Ok(p) => p,
                Err(m) => {
                    return Err(xml_failure(path, m));
                },
            };
            self.handle_start(&pairs, limits, path)?;
        }
        if empty {
            let ghost s3 = self@;
            self.stack.pop();
            assert(texts_of(self.stack@) =~= s3.stack.drop_last());
        }
        Ok(())
    }

    fn dispatch(&mut self, ev: &XmlEvent, limits: Limits, path: &str) -> (r: Result<(), MmcError>)
        ensures
            lm_outcome(r, lm_dispatch(old(self)@, ev@, limits, path@), final(self)@),
    {
        match ev {
            XmlEvent::Start { namespace, local, attributes, empty } => {
                self.start(namespace, local, attributes, *empty, limits, path)
            },
            XmlEvent::Text(content) => {
                let t = match content {
                    Err(m) => {
                        return Err(xml_failure(path, m.clone()));
                    },
                    Ok(t) => t,
                };
                if !only_xml_chars(t.as_str()) {
                    return Err(xml_failure(path, String::from_str("text resolves to a character forbidden by XML 1.0")));
                }
                if self.stack.len() == 0 && !is_blank(t.as_str()) {
                    return Err(xml_failure(path, String::from_str("character content outside the document root")));
                }
                Ok(())
            },
            XmlEvent::CData(_) => {
                if self.stack.len() == 0 {
                    return Err(xml_failure(path, String::from_str("CDATA outside the document root")));
                }
                Ok(())
            },
            XmlEvent::End => {
                let ghost s0 = self@;
                if self.stack.len() > 0 {
                    self.stack.pop();
                    assert(texts_of(self.stack@) =~= s0.stack.drop_last());
                }
                Ok(())
            },
            XmlEvent::Decl => {
                if self.events != 1 {
                    return Err(xml_failure(path, String::from_str("XML declaration is only allowed at document start")));
                }
                Ok(())
            },
            XmlEvent::DocType => Err(xml_failure(path, String::from_str("DOCTYPE is prohibited"))),
            XmlEvent::Reference { character, name } => {
                if self.stack.len() == 0 {
                    return Err(xml_failure(path, String::from_str("entity reference outside the document root")));
                }
                match resolve_reference(character, name) {
                    Ok(_) => Ok(()),
                    Err(m) => Err(xml_failure(path, m)),
                }
            },
            XmlEvent::Eof => {
                if self.stack.len() > 0 {
                    return Err(xml_failure(path, String::from_str("truncated XML document")));
                }
                self.done = true;
                Ok(())
            },
            XmlEvent::ReadError(m) => Err(xml_failure(path, m.clone())),
            XmlEvent::Comment => Ok(()),
            XmlEvent::ProcessingInstruction => Ok(()),
        }
    }

    fn step(&mut self, ev: &XmlEvent, limits: Limits, path: &str) -> (r: Result<(), MmcError>)
        ensures
            lm_outcome(r, lm_step(old(self)@, ev@, limits, path@), final(self)@),
    {
        if matches!(ev, XmlEvent::ReadError(_)) {
            return self.dispatch(ev, limits, path);
        }
        self.events = self.events.saturating_add(1);
        if self.events > limits.max_xml_events {
            return Err(limit_failure("XML events", self.events as u64, limits.max_xml_events as u64));
        }
        self.dispatch(ev, limits, path)
    }
}

/// A failure in a prefix of the events is the failure of the whole stream.
proof fn lemma_lm_run_err_prefix(events: Seq<EventView>, n: int, limits: Limits, path: Seq<char>)
    requires
        0 <= n <= events.len(),
        lm_run(events.take(n), limits, path) is Err,
    ensures
        lm_run(events, limits, path) == lm_run(events.take(n), limits, path),
    decreases events.len() - n,
{
    if n < events.len() {
        assert(events.take(n + 1).drop_last() =~= events.take(n));
        lemma_lm_run_err_prefix(events, n + 1, limits, path);
    } else {
        assert(events.take(n) =~= events);
    }
}

/// Once the end of the document is reached, later events change nothing.
proof fn lemma_lm_run_done_prefix(events: Seq<EventView>, n: int, limits: Limits, path: Seq<char>)
    requires
        0 <= n <= events.len(),
        lm_run(events.take(n), limits, path) matches Ok(st) && st.done,
    ensures
        lm_run(events, limits, path) == lm_run(events.take(n), limits, path),
    decreases events.len() - n,
{
    if n < events.len() {
        assert(events.take(n + 1).drop_last() =~= events.take(n));
        lemma_lm_run_done_prefix(events, n + 1, limits, path);
    } else {
        assert(events.take(n) =~= events);
    }
}

/// Builds the LinkModel projection of the entry at `path` from its event
/// stream: exactly `link_model_outcome`.
pub fn link_model_from_events(path: &str, events: &Vec<XmlEvent>, limits: Limits) -> (r: Result<LinkModel, MmcError>)
    ensures
        match link_model_outcome(event_views(events@), limits, path@) {
            Ok(v) => r matches Ok(m) && m@ == v,
            Err(f) => r matches Err(e) && is_fault(e, f),
        },
{
    let mut reader = LinkModelReader::new();
    let mut i: usize = 0;
    let ghost views = event_views(events@);
    assert(views.take(0) =~= Seq::<EventView>::empty());
    loop
        invariant_except_break
            i <= events@.len(),
            views == event_views(events@),
            lm_run(views.take(i as int), limits, path@) == Ok::<LinkModelParse, ParseFault>(reader@),
            !reader.done,
        ensures
            lm_run(views, limits, path@) == Ok::<LinkModelParse, ParseFault>(reader@),
        decreases events@.len() - i,
    {
        if i >= events.len() {
            assert(views.take(i as int) =~= views);
            break;
        }
        assert(views.take(i + 1).drop_last() =~= views.take(i as int));
        assert(views.take(i + 1).last() == events@[i as int]@);
        match reader.step(&events[i], limits, path) {
            Err(e) => {
                proof { lemma_lm_run_err_prefix(views, i + 1, limits, path@); }
                return Err(e);
            },
            Ok(()) => {},
        }
        i = i + 1;
        if reader.done {
            proof { lemma_lm_run_done_prefix(views, i as int, limits, path@); }
            break;
        }
    }
    if !reader.root_seen {
        return Err(xml_failure(path, String::from_str("missing LinkModel root")));
    }
    match reader.model {
        None => Err(xml_failure(path, String::from_str("missing LinkModel"))),
        Some(m) => Ok(m),
    }
}

/// The LinkModel projection of the entry `path` with bytes `source`: its
/// source failure, or the projection of the events `quick_xml` reads from it.
pub open spec fn link_model_parse_result(path: Seq<char>, source: Seq<u8>, limits: Limits) -> Result<LinkModelView, ParseFault> {
    match xml_source_fault(path, source, limits) {
        Some(f) => Err(f),
        None => link_model_outcome(xml_stream(source, limits.max_xml_events), limits, path),
    }
}

/// Parses the LinkModel entry at `path`: the source checks of
/// `xml_source_fault`, then the projection of the document's event stream
/// (`link_model_from_events`) as `quick_xml` reads it; exactly
/// `link_model_parse_result`.
pub fn parse_link_model(path: &str, source: &[u8], limits: Limits) -> (r: Result<LinkModel, MmcError>)
    ensures
        match link_model_parse_result(path@, source@, limits) {
            Ok(v) => r matches Ok(m) && m@ == v,
            Err(f) => r matches Err(e) && is_fault(e, f),
        },
{
    check_xml_source(path, source, limits)?;
    let events = read_xml_events(source, limits.max_xml_events);
    link_model_from_events(path, &events, limits)
}

} // verus!
