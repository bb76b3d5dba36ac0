//! The `MultiModel.xml` parser: a state machine over the document's event
//! stream that builds the typed container projection.

use vstd::prelude::*;

use crate::error::{is_fault, limit_failure, xml_failure, MmcError, ParseFault};
use crate::limits::Limits;
use crate::model::{
    app_model_views, metadata_views, opt_view, reference_views, representation_views, resource_views,
    text_views, ApplicationModel, ApplicationModelView, ContainerMetadata, ContainerMetadataView, DataResource,
    DataResourceView, LinkModelReference, LinkModelReferenceView, MetadataEntry, MetadataView, ModelData,
    ModelDataView, MultiModel, MultiModelView,
};
use crate::text::{same_bytes, same_text, utf8_chars};
use crate::xml_events::{
    attribute_views, event_views, first_start, is_start_named, read_xml_events, text_result, xml_stream, AttributeView, EventView,
    NamespaceView, XmlAttribute, XmlEvent, XmlNamespace,
};
use crate::xml_rules::{
    pairs_view, is_xml_char,
    all_xml_chars, attr_get, attribute_map, blank, classify, classify_location, is_blank, is_stack,
    make_stack_name, multimodel_path_ok, name_below_top, only_xml_chars, optional_attr, path_ends,
    read_attribute_map, required_attr, required_value, resolve_reference, reference_value, stack_ends,
    stack_is, stack_name, stack_name_below_top, texts_of, valid_multimodel_path, extension_ancestor, inside_extension,
};
use crate::MMC_NAMESPACE;
use vstd::string::StringSliceAdditionalSpecFns;

verus! {

/// Whether an element is in the namespace `expected`; an unbound prefix fails.
pub open spec fn namespace_standard(ns: NamespaceView, expected: &str) -> Result<bool, ParseFault> {
    match ns {
        NamespaceView::Bound(b) => Ok(b == expected.spec_bytes()),
        NamespaceView::Unbound => Err(ParseFault::Xml("XML"@, "unbound namespace prefix"@)),
        NamespaceView::Unknown => Ok(false),
    }
}

pub fn resolve_standard(ns: &XmlNamespace, expected: &str) -> (r: Result<bool, MmcError>)
    ensures
        match namespace_standard(ns@, expected) {
            Ok(b) => r == Ok::<bool, MmcError>(b),
            Err(f) => r matches Err(e) && is_fault(e, f),
        },
{
    match ns {
        XmlNamespace::Bound(b) => Ok(same_bytes(b.as_slice(), expected.as_bytes())),
        XmlNamespace::Unbound => Err(xml_failure("XML", String::from_str("unbound namespace prefix"))),
        XmlNamespace::Unknown => Ok(false),
    }
}

/// The message for a root element other than `{namespace}expected`.
pub open spec fn wrong_root_message(namespace: &str, expected: &str) -> Seq<char> {
    "expected {"@ + namespace@ + "}"@ + expected@ + " root"@
}

pub fn wrong_root(path: &str, namespace: &str, expected: &str) -> (e: MmcError)
    ensures
        is_fault(e, ParseFault::Xml(path@, wrong_root_message(namespace, expected))),
{
    let mut m = String::from_str("expected {");
    m.append(namespace);
    m.append("}");
    m.append(expected);
    m.append(" root");
    xml_failure(path, m)
}

/// The `MultiModel.xml` projection while its events are being read.
pub struct MultiModelParse {
    pub stack: Seq<Seq<char>>,
    pub events: int,
    pub root_seen: bool,
    pub metadata: Option<ContainerMetadataView>,
    pub models: Seq<ApplicationModelView>,
    pub link_models: Seq<LinkModelReferenceView>,
    pub linked_text: Option<Seq<char>>,
    pub done: bool,
}

/// The uuid that `uuid::Uuid::parse_str` reads from `s`, or its error message.
pub uninterp spec fn uuid_parse(s: Seq<char>) -> Result<u128, Seq<char>>;

/// `Uuid::parse_str` from `uuid` (then `Uuid::as_u128`): the 128-bit value of
/// a textual UUID, or the error's message. The result is the named parse of the input.
#[verifier::external_body]
fn parse_uuid(s: &str) -> (r: Result<u128, String>)
    ensures
        match r {
            Ok(v) => uuid_parse(s@) == Ok::<u128, Seq<char>>(v),
            Err(m) => uuid_parse(s@) == Err::<u128, Seq<char>>(m@),
        },
{
    uuid::Uuid::parse_str(s).map(|u| u.as_u128()).map_err(|e| e.to_string())
}

/// The root element's attributes: `uuid` and `formatVersion` are required,
/// `mmDomain` is optional.
pub open spec fn container_attributes(raw: Seq<Result<AttributeView, Seq<char>>>) -> Result<ContainerMetadataView, Seq<char>> {
    match attribute_map(raw) {
        Err(m) => Err(m),
        Ok(p) => match required_attr(p, "uuid"@, "MultiModel"@) {
            Err(m) => Err(m),
            Ok(u) => match uuid_parse(u) {
                Err(e) => Err("invalid uuid: "@ + e),
                Ok(v) => match required_attr(p, "formatVersion"@, "MultiModel"@) {
                    Err(m) => Err(m),
                    Ok(fv) => Ok(
                        ContainerMetadataView {
                            uuid: v,
                            format_version: fv,
                            mm_domain: attr_get(p, "mmDomain"@),
                            metadata: Seq::empty(),
                        },
                    ),
                },
            },
        },
    }
}

/// A metadata item of `MultiModel.xml`: `key` and `value` are required.
pub open spec fn mmc_meta(p: Seq<(Seq<char>, Seq<char>)>) -> Result<MetadataView, Seq<char>> {
    match required_attr(p, "key"@, "Meta"@) {
        Err(m) => Err(m),
        Ok(k) => match required_attr(p, "value"@, "Meta"@) {
            Err(m) => Err(m),
            Ok(v) => Ok(MetadataView { key: k, value: v, value_type: attr_get(p, "type"@), category: attr_get(p, "category"@) }),
        },
    }
}

pub open spec fn mm_xml(message: Seq<char>) -> ParseFault {
    ParseFault::Xml("MultiModel.xml"@, message)
}

/// Appends `item` to the metadata of the element whose `Meta` child is open.
pub open spec fn mm_place_meta(st: MultiModelParse, item: MetadataView) -> Result<MultiModelParse, ParseFault> {
    let stack = st.stack;
    if name_below_top(stack, 2, "ApplicationModel"@) {
        if st.models.len() == 0 {
            Err(mm_xml("Meta outside ApplicationModel"@))
        } else {
            let m = st.models.last();
            Ok(
                MultiModelParse {
                    models: st.models.update(
                        st.models.len() - 1,
                        ApplicationModelView { metadata: m.metadata.push(item), ..m },
                    ),
                    ..st
                },
            )
        }
    } else if name_below_top(stack, 2, "ModelData"@) {
        if st.models.len() == 0 || st.models.last().representations.len() == 0 {
            Err(mm_xml("Meta outside ModelData"@))
        } else {
            let m = st.models.last();
            let d = m.representations.last();
            Ok(
                MultiModelParse {
                    models: st.models.update(
                        st.models.len() - 1,
                        ApplicationModelView {
                            representations: m.representations.update(
                                m.representations.len() - 1,
                                ModelDataView { metadata: d.metadata.push(item), ..d },
                            ),
                            ..m
                        },
                    ),
                    ..st
                },
            )
        }
    } else if name_below_top(stack, 2, "DataRessource"@) {
        if st.models.len() == 0 || st.models.last().representations.len() == 0
            || st.models.last().representations.last().resources.len() == 0 {
            Err(mm_xml("Meta outside DataRessource"@))
        } else {
            let m = st.models.last();
            let d = m.representations.last();
            let r = d.resources.last();
            Ok(
                MultiModelParse {
                    models: st.models.update(
                        st.models.len() - 1,
                        ApplicationModelView {
                            representations: m.representations.update(
                                m.representations.len() - 1,
                                ModelDataView {
                                    resources: d.resources.update(
                                        d.resources.len() - 1,
                                        DataResourceView { metadata: r.metadata.push(item), ..r },
                                    ),
                                    ..d
                                },
                            ),
                            ..m
                        },
                    ),
                    ..st
                },
            )
        }
    } else if name_below_top(stack, 2, "LinkModel"@) {
        if st.link_models.len() == 0 {
            Err(mm_xml("Meta outside LinkModel"@))
        } else {
            let l = st.link_models.last();
            Ok(
                MultiModelParse {
                    link_models: st.link_models.update(
                        st.link_models.len() - 1,
                        LinkModelReferenceView { metadata: l.metadata.push(item), ..l },
                    ),
                    ..st
                },
            )
        }
    } else if is_stack(stack, seq!["MultiModel", "MetaData", "Meta"]) {
        match st.metadata {
            None => Err(mm_xml("Meta outside MultiModel"@)),
            Some(c) => Ok(
                MultiModelParse { metadata: Some(ContainerMetadataView { metadata: c.metadata.push(item), ..c }), ..st },
            ),
        }
    } else {
        Ok(st)
    }
}

/// What a standard element adds to the projection, by its position.
pub open spec fn mm_handle_start(st: MultiModelParse, raw: Seq<Result<AttributeView, Seq<char>>>, limits: Limits) -> Result<MultiModelParse, ParseFault> {
    match attribute_map(raw) {
        Err(m) => Err(mm_xml(m)),
        Ok(p) => if path_ends(st.stack, "ApplicationModels"@, "ApplicationModel"@) {
            match required_attr(p, "id"@, "ApplicationModel"@) {
                Err(m) => Err(mm_xml(m)),
                Ok(id) => match required_attr(p, "modelType"@, "ApplicationModel"@) {
                    Err(m) => Err(mm_xml(m)),
                    Ok(mt) => {
                        let models = st.models.push(
                            ApplicationModelView {
                                id,
                                model_type: mt,
                                metadata: Seq::empty(),
                                representations: Seq::empty(),
                            },
                        );
                        if models.len() > limits.max_models {
                            Err(ParseFault::Limit("application models"@, models.len() as u64, limits.max_models as u64))
                        } else {
                            Ok(MultiModelParse { models, ..st })
                        }
                    },
                },
            }
        } else if path_ends(st.stack, "ApplicationModel"@, "ModelData"@) {
            if st.models.len() == 0 {
                Err(mm_xml("ModelData outside ApplicationModel"@))
            } else {
                match required_attr(p, "id"@, "ModelData"@) {
                    Err(m) => Err(mm_xml(m)),
                    Ok(id) => match required_attr(p, "formatType"@, "ModelData"@) {
                        Err(m) => Err(mm_xml(m)),
                        Ok(ft) => {
                            let m = st.models.last();
                            let d = ModelDataView {
                                id,
                                format_type: ft,
                                format_version: attr_get(p, "formatVersion"@),
                                metadata: Seq::empty(),
                                resources: Seq::empty(),
                            };
                            Ok(
                                MultiModelParse {
                                    models: st.models.update(
                                        st.models.len() - 1,
                                        ApplicationModelView { representations: m.representations.push(d), ..m },
                                    ),
                                    ..st
                                },
                            )
                        },
                    },
                }
            }
        } else if path_ends(st.stack, "ModelData"@, "DataRessource"@) {
            if st.models.len() == 0 {
                Err(mm_xml("DataRessource outside model"@))
            } else if st.models.last().representations.len() == 0 {
                Err(mm_xml("DataRessource outside ModelData"@))
            } else {
                match required_attr(p, "id"@, "DataRessource"@) {
                    Err(m) => Err(mm_xml(m)),
                    Ok(id) => match required_attr(p, "location"@, "DataRessource"@) {
                        Err(m) => Err(mm_xml(m)),
                        Ok(loc) => {
                            let m = st.models.last();
                            let d = m.representations.last();
                            let r = DataResourceView { id, location: classify_location(loc), metadata: Seq::empty() };
                            Ok(
                                MultiModelParse {
                                    models: st.models.update(
                                        st.models.len() - 1,
                                        ApplicationModelView {
                                            representations: m.representations.update(
                                                m.representations.len() - 1,
                                                ModelDataView { resources: d.resources.push(r), ..d },
                                            ),
                                            ..m
                                        },
                                    ),
                                    ..st
                                },
                            )
                        },
                    },
                }
            }
        } else if path_ends(st.stack, "LinkModels"@, "LinkModel"@) {
            match required_attr(p, "location"@, "LinkModel"@) {
                Err(m) => Err(mm_xml(m)),
                Ok(loc) => {
                    let refs = st.link_models.push(
                        LinkModelReferenceView {
                            location: classify_location(loc),
                            linked_models: Seq::empty(),
                            metadata: Seq::empty(),
                        },
                    );
                    if refs.len() > limits.max_link_models {
                        Err(ParseFault::Limit("link models"@, refs.len() as u64, limits.max_link_models as u64))
                    } else {
                        Ok(MultiModelParse { link_models: refs, ..st })
                    }
                },
            }
        } else if st.stack.len() > 0 && st.stack.last() == "Meta"@ {
            match mmc_meta(p) {
                Err(m) => Err(mm_xml(m)),
                Ok(item) => mm_place_meta(st, item),
            }
        } else {
            Ok(st)
        },
    }
}

/// A start tag (or an empty-element tag) in `MultiModel.xml`.
pub open spec fn mm_start(
    st: MultiModelParse,
    namespace: NamespaceView,
    local: Result<Seq<char>, Seq<char>>,
    raw: Seq<Result<AttributeView, Seq<char>>>,
    empty: bool,
    limits: Limits,
) -> Result<MultiModelParse, ParseFault> {
    match local {
        Err(m) => Err(ParseFault::Xml("XML"@, m)),
        Ok(l) => match namespace_standard(namespace, MMC_NAMESPACE) {
            Err(f) => Err(f),
            Ok(standard) => {
                let rooted: Result<MultiModelParse, ParseFault> = if st.stack.len() == 0 {
                    if l != "MultiModel"@ || !standard {
                        Err(mm_xml(wrong_root_message(MMC_NAMESPACE, "MultiModel")))
                    } else if st.root_seen {
                        Err(mm_xml("multiple root elements"@))
                    } else {
                        match container_attributes(raw) {
                            Err(m) => Err(mm_xml(m)),
                            Ok(meta) => Ok(MultiModelParse { root_seen: true, metadata: Some(meta), ..st }),
                        }
                    }
                } else {
                    Ok(st)
                };
                match rooted {
                    Err(f) => Err(f),
                    Ok(s1) => {
                        let s2 = MultiModelParse { stack: s1.stack.push(stack_name(l, standard)), ..s1 };
                        let handled: Result<MultiModelParse, ParseFault> = if standard && !extension_ancestor(s2.stack) {
                            if !valid_multimodel_path(s2.stack) {
                                Err(mm_xml("unexpected MMC element position"@))
                            } else {
                                match mm_handle_start(s2, raw, limits) {
                                    Err(f) => Err(f),
                                    Ok(s3) => Ok(
                                        if !empty && path_ends(s3.stack, "LinkModel"@, "LinkedModel"@) {
                                            MultiModelParse { linked_text: Some(Seq::empty()), ..s3 }
                                        } else {
                                            s3
                                        },
                                    ),
                                }
                            }
                        } else {
                            Ok(s2)
                        };
                        match handled {
                            Err(f) => Err(f),
                            Ok(s4) => Ok(
                                if empty {
                                    MultiModelParse { stack: s4.stack.drop_last(), ..s4 }
                                } else {
                                    s4
                                },
                            ),
                        }
                    },
                }
            },
        },
    }
}

/// One event of `MultiModel.xml` (after it has been counted).
pub open spec fn mm_dispatch(st: MultiModelParse, ev: EventView, limits: Limits) -> Result<MultiModelParse, ParseFault> {
    match ev {
        EventView::Start { namespace, local, attributes, empty } => mm_start(st, namespace, local, attributes, empty, limits),
        EventView::Text(content) => match content {
            Err(m) => Err(mm_xml(m)),
            Ok(t) => if !all_xml_chars(t) {
                Err(mm_xml("text resolves to a character forbidden by XML 1.0"@))
            } else if st.stack.len() == 0 && !blank(t) {
                Err(mm_xml("character content outside the document root"@))
            } else {
                Ok(
                    match st.linked_text {
                        Some(v) => MultiModelParse { linked_text: Some(v + t), ..st },
                        None => st,
                    },
                )
            },
        },
        EventView::CData(content) => if st.stack.len() == 0 {
            Err(mm_xml("CDATA outside the document root"@))
        } else {
            match st.linked_text {
                Some(v) => match content {
                    Err(m) => Err(mm_xml(m)),
                    Ok(t) => Ok(MultiModelParse { linked_text: Some(v + t), ..st }),
                },
                None => Ok(st),
            }
        },
        EventView::End => {
            let s1 = if path_ends(st.stack, "LinkModel"@, "LinkedModel"@) && !extension_ancestor(st.stack) {
                let value = match st.linked_text {
                    Some(v) => v,
                    None => Seq::empty(),
                };
                let refs = if st.link_models.len() > 0 {
                    let r = st.link_models.last();
                    st.link_models.update(
                        st.link_models.len() - 1,
                        LinkModelReferenceView { linked_models: r.linked_models.push(value), ..r },
                    )
                } else {
                    st.link_models
                };
                MultiModelParse { linked_text: None, link_models: refs, ..st }
            } else {
                st
            };
            Ok(MultiModelParse { stack: if s1.stack.len() > 0 { s1.stack.drop_last() } else { s1.stack }, ..s1 })
        },
        EventView::Decl => if st.events != 1 {
            Err(mm_xml("XML declaration is only allowed at document start"@))
        } else {
            Ok(st)
        },
        EventView::DocType => Err(mm_xml("DOCTYPE is prohibited"@)),
        EventView::Reference { character, name } => if st.stack.len() == 0 {
            Err(mm_xml("entity reference outside the document root"@))
        } else {
            match reference_value(character, name) {
                Err(m) => Err(mm_xml(m)),
                Ok(c) => Ok(
                    match st.linked_text {
                        Some(v) => MultiModelParse { linked_text: Some(v.push(c)), ..st },
                        None => st,
                    },
                ),
            }
        },
        EventView::Eof => if st.stack.len() > 0 {
            Err(mm_xml("truncated XML document"@))
        } else {
            Ok(MultiModelParse { done: true, ..st })
        },
        EventView::ReadError(m) => Err(mm_xml(m)),
        _ => Ok(st),
    }
}

/// One event: a read failure fails; otherwise the event is counted against
/// the event budget and then applied.
pub open spec fn mm_step(st: MultiModelParse, ev: EventView, limits: Limits) -> Result<MultiModelParse, ParseFault> {
    if ev is ReadError {
        mm_dispatch(st, ev, limits)
    } else {
        let counted = MultiModelParse { events: if st.events < usize::MAX { st.events + 1 } else { st.events }, ..st };
        if counted.events > limits.max_xml_events {
            Err(ParseFault::Limit("XML events"@, counted.events as u64, limits.max_xml_events as u64))
        } else {
            mm_dispatch(counted, ev, limits)
        }
    }
}

pub open spec fn mm_initial() -> MultiModelParse {
    MultiModelParse {
        stack: Seq::empty(),
        events: 0,
        root_seen: false,
        metadata: None,
        models: Seq::empty(),
        link_models: Seq::empty(),
        linked_text: None,
        done: false,
    }
}

/// The state after the events, up to the end of the document.
pub open spec fn mm_run(events: Seq<EventView>, limits: Limits) -> Result<MultiModelParse, ParseFault>
    decreases events.len(),
{
    if events.len() == 0 {
        Ok(mm_initial())
    } else {
        match mm_run(events.drop_last(), limits) {
            Err(f) => Err(f),
            Ok(st) => if st.done {
                Ok(st)
            } else {
                mm_step(st, events.last(), limits)
            },
        }
    }
}

/// Before the root is seen (and while the document is open) nothing is
/// open and no start tag has come; once it is seen, the first start tag of
/// the events is the `MultiModel` root.
pub open spec fn mm_root_invariant(events: Seq<EventView>, st: MultiModelParse) -> bool {
    &&& (!st.root_seen && !st.done) ==> st.stack.len() == 0 && forall|j: int|
        0 <= j < events.len() ==> !(#[trigger] events[j] is Start)
    &&& st.root_seen ==> exists|i: int| first_start(events, i) && is_start_named(events[i], "MultiModel"@)
}

proof fn lemma_mm_dispatch_root(st: MultiModelParse, e: EventView, limits: Limits)
    requires
        mm_dispatch(st, e, limits) is Ok,
    ensures
        st.root_seen ==> mm_dispatch(st, e, limits)->Ok_0.root_seen,
        (!st.root_seen && st.stack.len() == 0 && !(e is Start)) ==> !mm_dispatch(st, e, limits)->Ok_0.root_seen
            && mm_dispatch(st, e, limits)->Ok_0.stack.len() == 0,
        (!st.root_seen && st.stack.len() == 0 && e is Start) ==> is_start_named(e, "MultiModel"@) && mm_dispatch(
            st,
            e,
            limits,
        )->Ok_0.root_seen,
{
}

/// The first start tag of a document whose projection saw its root is the
/// `MultiModel` root.
pub proof fn lemma_mm_run_root(events: Seq<EventView>, limits: Limits)
    ensures
        mm_run(events, limits) matches Ok(st) ==> mm_root_invariant(events, st),
    decreases events.len(),
{
    if events.len() > 0 {
        let prev = events.drop_last();
        lemma_mm_run_root(prev, limits);
        assert forall|j: int| 0 <= j < prev.len() implies prev[j] == events[j] by {}
        match mm_run(prev, limits) {
            Err(_) => {},
            Ok(st) => {
                let e = events.last();
                if st.root_seen {
                    let i = choose|i: int| first_start(prev, i) && is_start_named(prev[i], "MultiModel"@);
                    assert(first_start(events, i));
                }
                if !st.done && mm_step(st, e, limits) is Ok {
                    let counted = if e is ReadError {
                        st
                    } else {
                        MultiModelParse { events: if st.events < usize::MAX { st.events + 1 } else { st.events }, ..st }
                    };
                    assert(mm_step(st, e, limits) == mm_dispatch(counted, e, limits));
                    lemma_mm_dispatch_root(counted, e, limits);
                    if !st.root_seen && e is Start {
                        assert(first_start(events, events.len() - 1));
                    }
                }
            },
        }
    }
}

/// The `MultiModel.xml` projection of an event stream, or its first failure.
pub open spec fn multimodel_outcome(events: Seq<EventView>, source: Seq<u8>, limits: Limits) -> Result<MultiModelView, ParseFault> {
    match mm_run(events, limits) {
        Err(f) => Err(f),
        Ok(st) => if !st.root_seen {
            Err(mm_xml("missing MultiModel root"@))
        } else {
            match st.metadata {
                None => Err(mm_xml("missing root metadata"@)),
                Some(meta) => Ok(
                    MultiModelView { metadata: meta, models: st.models, link_models: st.link_models, source },
                ),
            }
        },
    }
}


/// The state of the `MultiModel.xml` parser.
pub struct MultiModelReader {
    pub stack: Vec<String>,
    pub events: usize,
    pub root_seen: bool,
    pub metadata: Option<ContainerMetadata>,
    pub models: Vec<ApplicationModel>,
    pub link_models: Vec<LinkModelReference>,
    pub linked_text: Option<String>,
    pub done: bool,
}

impl View for MultiModelReader {
    type V = MultiModelParse;

    open spec fn view(&self) -> MultiModelParse {
        MultiModelParse {
            stack: texts_of(self.stack@),
            events: self.events as int,
            root_seen: self.root_seen,
            metadata: match self.metadata {
                Some(m) => Some(m@),
                None => None,
            },
            models: app_model_views(self.models@),
            link_models: reference_views(self.link_models@),
            linked_text: opt_view(self.linked_text),
            done: self.done,
        }
    }
}

/// The exec outcome `r` of a step is the spec outcome `spec` from `old` to `new`.
pub open spec fn mm_outcome(r: Result<(), MmcError>, spec: Result<MultiModelParse, ParseFault>, new: MultiModelParse) -> bool {
    match spec {
        Ok(s) => r is Ok && new == s,
        Err(f) => r matches Err(e) && is_fault(e, f),
    }
}

fn mm_error(message: &str) -> (e: MmcError)
    ensures
        is_fault(e, mm_xml(message@)),
{
    xml_failure("MultiModel.xml", String::from_str(message))
}

fn mm_error_owned(message: String) -> (e: MmcError)
    ensures
        is_fault(e, mm_xml(message@)),
{
    xml_failure("MultiModel.xml", message)
}

/// Reads a `MultiModel.xml` metadata item (see `mmc_meta`).
fn read_mmc_meta(pairs: &Vec<(String, String)>) -> (r: Result<MetadataEntry, String>)
    ensures
        match r {
            Ok(m) => mmc_meta(pairs_view_of(pairs)) == Ok::<MetadataView, Seq<char>>(m@),
            Err(msg) => mmc_meta(pairs_view_of(pairs)) == Err::<MetadataView, Seq<char>>(msg@),
        },
{
    let key = required_value(pairs, "key", "Meta")?;
    let value = required_value(pairs, "value", "Meta")?;
    let value_type = optional_attr(pairs, "type");
    let category = optional_attr(pairs, "category");
    Ok(MetadataEntry { key, value, value_type, category })
}

pub open spec fn pairs_view_of(pairs: &Vec<(String, String)>) -> Seq<(Seq<char>, Seq<char>)> {
    crate::xml_rules::pairs_view(pairs@)
}

/// Reads the root element's attributes (see `container_attributes`).
fn read_container_attributes(raw: &Vec<Result<XmlAttribute, String>>) -> (r: Result<ContainerMetadata, String>)
    ensures
        match r {
            Ok(m) => container_attributes(attribute_views(raw@)) == Ok::<ContainerMetadataView, Seq<char>>(m@),
            Err(msg) => container_attributes(attribute_views(raw@)) == Err::<ContainerMetadataView, Seq<char>>(msg@),
        },
{
    let pairs = read_attribute_map(raw)?;
    let raw_uuid = required_value(&pairs, "uuid", "MultiModel")?;
    let uuid = match parse_uuid(raw_uuid.as_str()) {
        Ok(v) => v,
        Err(e) => {
            return Err(crate::text::concat("invalid uuid: ", e.as_str()));
        },
    };
    let format_version = required_value(&pairs, "formatVersion", "MultiModel")?;
    let mm_domain = optional_attr(&pairs, "mmDomain");
    let r = ContainerMetadata { uuid, format_version, mm_domain, metadata: Vec::new() };
    assert(metadata_views(r.metadata@) =~= Seq::<MetadataView>::empty());
    Ok(r)
}

impl MultiModelReader {
    fn new() -> (r: Self)
        ensures
            r@ == mm_initial(),
    {
        let r = MultiModelReader {
            stack: Vec::new(),
            events: 0,
            root_seen: false,
            metadata: None,
            models: Vec::new(),
            link_models: Vec::new(),
            linked_text: None,
            done: false,
        };
        assert(r@.stack =~= Seq::<Seq<char>>::empty());
        assert(r@.models =~= Seq::<ApplicationModelView>::empty());
        assert(r@.link_models =~= Seq::<LinkModelReferenceView>::empty());
        r
    }

    fn place_meta(&mut self, item: MetadataEntry) -> (r: Result<(), MmcError>)
        ensures
            mm_outcome(r, mm_place_meta(old(self)@, item@), final(self)@),
    {
        let ghost st = self@;
        if stack_name_below_top(&self.stack, 2, "ApplicationModel") {
            if self.models.len() == 0 {
                return Err(mm_error("Meta outside ApplicationModel"));
            }
            let ghost before = self.models@;
            let mut m = self.models.pop().unwrap();
            let ghost old_m = m@;
            m.metadata.push(item);
            assert(metadata_views(m.metadata@) =~= old_m.metadata.push(item@));
            self.models.push(m);
            assert(app_model_views(self.models@) =~= app_model_views(before).update(before.len() - 1, m@));
            assert(self@ == mm_place_meta(st, item@)->Ok_0);
            Ok(())
        } else if stack_name_below_top(&self.stack, 2, "ModelData") {
            if self.models.len() == 0 || self.models[self.models.len() - 1].representations.len() == 0 {
                return Err(mm_error("Meta outside ModelData"));
            }
            let ghost before = self.models@;
            let mut m = self.models.pop().unwrap();
            let ghost m_reps = m.representations@;
            let mut d = m.representations.pop().unwrap();
            let ghost old_d = d@;
            d.metadata.push(item);
            assert(metadata_views(d.metadata@) =~= old_d.metadata.push(item@));
            m.representations.push(d);
            assert(representation_views(m.representations@) =~= representation_views(m_reps).update(
                m_reps.len() - 1,
                d@,
            ));
            self.models.push(m);
            assert(app_model_views(self.models@) =~= app_model_views(before).update(before.len() - 1, m@));
            assert(self@ == mm_place_meta(st, item@)->Ok_0);
            Ok(())
        } else if stack_name_below_top(&self.stack, 2, "DataRessource") {
            if self.models.len() == 0 || self.models[self.models.len() - 1].representations.len() == 0
                || self.models[self.models.len() - 1].representations[self.models[self.models.len()
                - 1].representations.len() - 1].resources.len() == 0 {
                return Err(mm_error("Meta outside DataRessource"));
            }
            let ghost before = self.models@;
            let mut m = self.models.pop().unwrap();
            let ghost m_reps = m.representations@;
            let mut d = m.representations.pop().unwrap();
            let ghost d_res = d.resources@;
            let mut res = d.resources.pop().unwrap();
            let ghost old_res = res@;
            res.metadata.push(item);
            assert(metadata_views(res.metadata@) =~= old_res.metadata.push(item@));
            d.resources.push(res);
            assert(resource_views(d.resources@) =~= resource_views(d_res).update(d_res.len() - 1, res@));
            m.representations.push(d);
            assert(representation_views(m.representations@) =~= representation_views(m_reps).update(
                m_reps.len() - 1,
                d@,
            ));
            self.models.push(m);
            assert(app_model_views(self.models@) =~= app_model_views(before).update(before.len() - 1, m@));
            assert(self@ == mm_place_meta(st, item@)->Ok_0);
            Ok(())
        } else if stack_name_below_top(&self.stack, 2, "LinkModel") {
            if self.link_models.len() == 0 {
                return Err(mm_error("Meta outside LinkModel"));
            }
            let ghost before = self.link_models@;
            let mut l = self.link_models.pop().unwrap();
            let ghost old_l = l@;
            l.metadata.push(item);
            assert(metadata_views(l.metadata@) =~= old_l.metadata.push(item@));
            self.link_models.push(l);
            assert(reference_views(self.link_models@) =~= reference_views(before).update(before.len() - 1, l@));
            assert(self@ == mm_place_meta(st, item@)->Ok_0);
            Ok(())
        } else if stack_is(&self.stack, &["MultiModel", "MetaData", "Meta"]) {
            match self.metadata.take() {
                None => Err(mm_error("Meta outside MultiModel")),
                Some(mut c) => {
                    let ghost old_c = c@;
                    c.metadata.push(item);
                    assert(metadata_views(c.metadata@) =~= old_c.metadata.push(item@));
                    self.metadata = Some(c);
                    assert(self@ == mm_place_meta(st, item@)->Ok_0);
                    Ok(())
                },
            }
        } else {
            Ok(())
        }
    }
}


impl MultiModelReader {
    fn handle_start(&mut self, raw: &Vec<Result<XmlAttribute, String>>, limits: Limits) -> (r: Result<(), MmcError>)
        ensures
            mm_outcome(r, mm_handle_start(old(self)@, attribute_views(raw@), limits), final(self)@),
    {
        let ghost st = self@;
        let pairs = match read_attribute_map(raw) {
            Ok(p) => p,
            Err(m) => {
                return Err(mm_error_owned(m));
            },
        };
        if stack_ends(&self.stack, "ApplicationModels", "ApplicationModel") {
            let id = match required_value(&pairs, "id", "ApplicationModel") {
                Ok(v) => v,
                Err(m) => {
                    return Err(mm_error_owned(m));
                },
            };
            let model_type = match required_value(&pairs, "modelType", "ApplicationModel") {
                Ok(v) => v,
                Err(m) => {
                    return Err(mm_error_owned(m));
                },
            };
            let model = ApplicationModel { id, model_type, metadata: Vec::new(), representations: Vec::new() };
            assert(metadata_views(model.metadata@) =~= Seq::<MetadataView>::empty());
            assert(representation_views(model.representations@) =~= Seq::<ModelDataView>::empty());
            let ghost before = self.models@;
            self.models.push(model);
            assert(app_model_views(self.models@) =~= app_model_views(before).push(model@));
            if self.models.len() > limits.max_models {
                return Err(limit_failure("application models", self.models.len() as u64, limits.max_models as u64));
            }
            Ok(())
        } else if stack_ends(&self.stack, "ApplicationModel", "ModelData") {
            if self.models.len() == 0 {
                return Err(mm_error("ModelData outside ApplicationModel"));
            }
            let id = match required_value(&pairs, "id", "ModelData") {
                Ok(v) => v,
                Err(m) => {
                    return Err(mm_error_owned(m));
                },
            };
            let format_type = match required_value(&pairs, "formatType", "ModelData") {
                Ok(v) => v,
                Err(m) => {
                    return Err(mm_error_owned(m));
                },
            };
            let format_version = optional_attr(&pairs, "formatVersion");
            let data = ModelData { id, format_type, format_version, metadata: Vec::new(), resources: Vec::new() };
            assert(metadata_views(data.metadata@) =~= Seq::<MetadataView>::empty());
            assert(resource_views(data.resources@) =~= Seq::<DataResourceView>::empty());
            let ghost before = self.models@;
            let mut m = self.models.pop().unwrap();
            let ghost old_m = m@;
            m.representations.push(data);
            assert(representation_views(m.representations@) =~= old_m.representations.push(data@));
            self.models.push(m);
            assert(app_model_views(self.models@) =~= app_model_views(before).update(before.len() - 1, m@));
            assert(self@ == mm_handle_start(st, attribute_views(raw@), limits)->Ok_0);
            Ok(())
        } else if stack_ends(&self.stack, "ModelData", "DataRessource") {
            if self.models.len() == 0 {
                return Err(mm_error("DataRessource outside model"));
            }
            if self.models[self.models.len() - 1].representations.len() == 0 {
                return Err(mm_error("DataRessource outside ModelData"));
            }
            let id = match required_value(&pairs, "id", "DataRessource") {
                Ok(v) => v,
                Err(m) => {
                    return Err(mm_error_owned(m));
                },
            };
            let location = match required_value(&pairs, "location", "DataRessource") {
                Ok(v) => v,
                Err(m) => {
                    return Err(mm_error_owned(m));
                },
            };
            let resource = DataResource { id, location: classify(location), metadata: Vec::new() };
            assert(metadata_views(resource.metadata@) =~= Seq::<MetadataView>::empty());
            let ghost before = self.models@;
            let mut m = self.models.pop().unwrap();
            let ghost m_reps = m.representations@;
            let mut d = m.representations.pop().unwrap();
            let ghost old_d = d@;
            d.resources.push(resource);
            assert(resource_views(d.resources@) =~= old_d.resources.push(resource@));
            m.representations.push(d);
            assert(representation_views(m.representations@) =~= representation_views(m_reps).update(
                m_reps.len() - 1,
                d@,
            ));
            self.models.push(m);
            assert(app_model_views(self.models@) =~= app_model_views(before).update(before.len() - 1, m@));
            assert(self@ == mm_handle_start(st, attribute_views(raw@), limits)->Ok_0);
            Ok(())
        } else if stack_ends(&self.stack, "LinkModels", "LinkModel") {
            let location = match required_value(&pairs, "location", "LinkModel") {
                Ok(v) => v,
                Err(m) => {
                    return Err(mm_error_owned(m));
                },
            };
            let reference = LinkModelReference {
                location: classify(location),
                linked_models: Vec::new(),
                metadata: Vec::new(),
            };
            assert(metadata_views(reference.metadata@) =~= Seq::<MetadataView>::empty());
            assert(text_views(reference.linked_models@) =~= Seq::<Seq<char>>::empty());
            let ghost before = self.link_models@;
            self.link_models.push(reference);
            assert(reference_views(self.link_models@) =~= reference_views(before).push(reference@));
            if self.link_models.len() > limits.max_link_models {
                return Err(limit_failure("link models", self.link_models.len() as u64, limits.max_link_models as u64));
            }
            Ok(())
        } else if self.stack.len() > 0 && same_text(self.stack[self.stack.len() - 1].as_str(), "Meta") {
            assert(texts_of(self.stack@).last() == self.stack@[self.stack@.len() - 1]@);
            let item = match read_mmc_meta(&pairs) {
                Ok(i) => i,
                Err(m) => {
                    return Err(mm_error_owned(m));
                },
            };
            self.place_meta(item)
        } else {
            proof {
                if self.stack@.len() > 0 {
                    assert(texts_of(self.stack@).last() == self.stack@[self.stack@.len() - 1]@);
                }
            }
            Ok(())
        }
    }
}


impl MultiModelReader {
    fn start(
        &mut self,
        namespace: &XmlNamespace,
        local: &Result<String, String>,
        raw: &Vec<Result<XmlAttribute, String>>,
        empty: bool,
        limits: Limits,
    ) -> (r: Result<(), MmcError>)
        ensures
            mm_outcome(r, mm_start(old(self)@, namespace@, text_result(*local), attribute_views(raw@), empty, limits), final(self)@),
    {
        let ghost st = self@;
        let l = match local {
            Err(m) => {
                return Err(xml_failure("XML", m.clone()));
            },
            Ok(l) => l,
        };
        let standard = resolve_standard(namespace, MMC_NAMESPACE)?;
        if self.stack.len() == 0 {
            if !same_text(l.as_str(), "MultiModel") || !standard {
                return Err(wrong_root("MultiModel.xml", MMC_NAMESPACE, "MultiModel"));
            }
            if self.root_seen {
                return Err(mm_error("multiple root elements"));
            }
            let meta = match read_container_attributes(raw) {
                Ok(m) => m,
                Err(m) => {
                    return Err(mm_error_owned(m));
                },
            };
            self.root_seen = true;
            self.metadata = Some(meta);
        }
        let ghost s1 = self@;
        let name = make_stack_name(l.clone(), standard);
        self.stack.push(name);
        assert(texts_of(self.stack@) =~= s1.stack.push(stack_name(l@, standard)));
        if standard && !inside_extension(&self.stack) {
            if !multimodel_path_ok(&self.stack) {
                return Err(mm_error("unexpected MMC element position"));
            }
            self.handle_start(raw, limits)?;
            if !empty && stack_ends(&self.stack, "LinkModel", "LinkedModel") {
                self.linked_text = Some(String::new());
            }
        }
        if empty {
            let ghost s4 = self@;
            self.stack.pop();
            assert(texts_of(self.stack@) =~= s4.stack.drop_last());
        }
        Ok(())
    }

    fn end_element(&mut self, limits: Limits)
        ensures
            mm_dispatch(old(self)@, EventView::End, limits) == Ok::<MultiModelParse, ParseFault>(final(self)@),
    {
        let ghost st = self@;
        if stack_ends(&self.stack, "LinkModel", "LinkedModel") && !inside_extension(&self.stack) {
            let value = match self.linked_text.take() {
                Some(v) => v,
                None => String::new(),
            };
            if self.link_models.len() > 0 {
                let ghost before = self.link_models@;
                let mut r = self.link_models.pop().unwrap();
                let ghost old_r = r@;
                r.linked_models.push(value);
                assert(text_views(r.linked_models@) =~= old_r.linked_models.push(value@));
                self.link_models.push(r);
                assert(reference_views(self.link_models@) =~= reference_views(before).update(before.len() - 1, r@));
            }
        }
        let ghost s1 = self@;
        if self.stack.len() > 0 {
            self.stack.pop();
            assert(texts_of(self.stack@) =~= s1.stack.drop_last());
        }
    }
}


impl MultiModelReader {
    fn dispatch(&mut self, ev: &XmlEvent, limits: Limits) -> (r: Result<(), MmcError>)
        ensures
            mm_outcome(r, mm_dispatch(old(self)@, ev@, limits), final(self)@),
    {
        match ev {
            XmlEvent::Start { namespace, local, attributes, empty } => {
                self.start(namespace, local, attributes, *empty, limits)
            },
            XmlEvent::Text(content) => {
                let t = match content {
                    Err(m) => {
                        return Err(mm_error_owned(m.clone()));
                    },
                    Ok(t) => t,
                };
                if !only_xml_chars(t.as_str()) {
                    return Err(mm_error("text resolves to a character forbidden by XML 1.0"));
                }
                if self.stack.len() == 0 && !is_blank(t.as_str()) {
                    return Err(mm_error("character content outside the document root"));
                }
                match self.linked_text.take() {
                    Some(mut v) => {
                        v.append(t.as_str());
                        self.linked_text = Some(v);
                    },
                    None => {},
                }
                Ok(())
            },
            XmlEvent::CData(content) => {
                if self.stack.len() == 0 {
                    return Err(mm_error("CDATA outside the document root"));
                }
                match self.linked_text.take() {
                    Some(mut v) => {
                        match content {
                            Err(m) => {
                                return Err(mm_error_owned(m.clone()));
                            },
                            Ok(t) => {
                                v.append(t.as_str());
                            },
                        }
                        self.linked_text = Some(v);
                    },
                    None => {},
                }
                Ok(())
            },
            XmlEvent::End => {
                self.end_element(limits);
                Ok(())
            },
            XmlEvent::Decl => {
                if self.events != 1 {
                    return Err(mm_error("XML declaration is only allowed at document start"));
                }
                Ok(())
            },
            XmlEvent::DocType => Err(mm_error("DOCTYPE is prohibited")),
            XmlEvent::Reference { character, name } => {
                if self.stack.len() == 0 {
                    return Err(mm_error("entity reference outside the document root"));
                }
                let c = match resolve_reference(character, name) {
                    Ok(c) => c,
                    Err(m) => {
                        return Err(mm_error_owned(m));
                    },
                };
                match self.linked_text.take() {
                    Some(v) => {
                        let ghost before = v@;
                        let mut cs = crate::text::chars_of(v.as_str());
                        cs.push(c);
                        self.linked_text = Some(crate::text::string_from_chars(cs.as_slice()));
                    },
                    None => {},
                }
                Ok(())
            },
            XmlEvent::Eof => {
                if self.stack.len() > 0 {
                    return Err(mm_error("truncated XML document"));
                }
                self.done = true;
                Ok(())
            },
            XmlEvent::ReadError(m) => Err(mm_error_owned(m.clone())),
            XmlEvent::Comment => Ok(()),
            XmlEvent::ProcessingInstruction => Ok(()),
        }
    }

    fn step(&mut self, ev: &XmlEvent, limits: Limits) -> (r: Result<(), MmcError>)
        ensures
            mm_outcome(r, mm_step(old(self)@, ev@, limits), final(self)@),
    {
        if matches!(ev, XmlEvent::ReadError(_)) {
            return self.dispatch(ev, limits);
        }
        self.events = self.events.saturating_add(1);
        if self.events > limits.max_xml_events {
            return Err(limit_failure("XML events", self.events as u64, limits.max_xml_events as u64));
        }
        self.dispatch(ev, limits)
    }
}

/// A failure in a prefix of the events is the failure of the whole stream.
proof fn lemma_mm_run_err_prefix(events: Seq<EventView>, n: int, limits: Limits)
    requires
        0 <= n <= events.len(),
        mm_run(events.take(n), limits) is Err,
    ensures
        mm_run(events, limits) == mm_run(events.take(n), limits),
    decreases events.len() - n,
{
    if n < events.len() {
        assert(events.take(n + 1).drop_last() =~= events.take(n));
        lemma_mm_run_err_prefix(events, n + 1, limits);
    } else {
        assert(events.take(n) =~= events);
    }
}

/// Once the end of the document is reached, later events change nothing.
proof fn lemma_mm_run_done_prefix(events: Seq<EventView>, n: int, limits: Limits)
    requires
        0 <= n <= events.len(),
        mm_run(events.take(n), limits) matches Ok(st) && st.done,
    ensures
        mm_run(events, limits) == mm_run(events.take(n), limits),
    decreases events.len() - n,
{
    if n < events.len() {
        assert(events.take(n + 1).drop_last() =~= events.take(n));
        lemma_mm_run_done_prefix(events, n + 1, limits);
    } else {
        assert(events.take(n) =~= events);
    }
}

/// Builds the `MultiModel.xml` projection from its event stream: exactly
/// `multimodel_outcome`.
pub fn multimodel_from_events(events: &Vec<XmlEvent>, source: &[u8], limits: Limits) -> (r: Result<MultiModel, MmcError>)
    ensures
        match multimodel_outcome(event_views(events@), source@, limits) {
            Ok(v) => r matches Ok(m) && m@ == v,
            Err(f) => r matches Err(e) && is_fault(e, f),
        },
{
    let ghost views = event_views(events@);
    let mut reader = MultiModelReader::new();
    let mut i: usize = 0;
    assert(views.take(0) =~= Seq::<EventView>::empty());
    loop
        invariant_except_break
            i <= events@.len(),
            views == event_views(events@),
            mm_run(views.take(i as int), limits) == Ok::<MultiModelParse, ParseFault>(reader@),
            !reader.done,
        ensures
            mm_run(views, limits) == Ok::<MultiModelParse, ParseFault>(reader@),
        decreases events@.len() - i,
    {
        if i >= events.len() {
            assert(views.take(i as int) =~= views);
            break;
        }
        assert(views.take(i + 1).drop_last() =~= views.take(i as int));
        assert(views.take(i + 1).last() == events@[i as int]@);
        match reader.step(&events[i], limits) {
            Err(e) => {
                proof { lemma_mm_run_err_prefix(views, i + 1, limits); }
                return Err(e);
            },
            Ok(()) => {},
        }
        i = i + 1;
        if reader.done {
            proof { lemma_mm_run_done_prefix(views, i as int, limits); }
            break;
        }
    }
    if !reader.root_seen {
        return Err(mm_error("missing MultiModel root"));
    }
    let metadata = match reader.metadata {
        None => {
            return Err(mm_error("missing root metadata"));
        },
        Some(m) => m,
    };
    let mut bytes: Vec<u8> = Vec::new();
    bytes.extend_from_slice(source);
    assert(bytes@ =~= source@);
    Ok(MultiModel::assemble(metadata, reader.models, reader.link_models, bytes))
}

/// The budget and character checks applied to an XML entry before it is read.
pub open spec fn xml_source_fault(path: Seq<char>, source: Seq<u8>, limits: Limits) -> Option<ParseFault> {
    if source.len() > limits.max_xml_bytes {
        Some(ParseFault::Limit("XML bytes"@, source.len() as u64, limits.max_xml_bytes as u64))
    } else if !vstd::utf8::valid_utf8(source) {
        Some(ParseFault::Xml(path, "XML is not UTF-8"@))
    } else if !all_xml_chars(vstd::utf8::decode_utf8(source)) {
        Some(ParseFault::Xml(path, "XML contains a character forbidden by XML 1.0"@))
    } else {
        None
    }
}

pub fn check_xml_source(path: &str, source: &[u8], limits: Limits) -> (r: Result<(), MmcError>)
    ensures
        match xml_source_fault(path@, source@, limits) {
            None => r is Ok,
            Some(f) => r matches Err(e) && is_fault(e, f),
        },
{
    if source.len() > limits.max_xml_bytes {
        return Err(limit_failure("XML bytes", source.len() as u64, limits.max_xml_bytes as u64));
    }
    let text = match utf8_chars(source) {
        None => {
            return Err(xml_failure(path, String::from_str("XML is not UTF-8")));
        },
        Some(t) => t,
    };
    let mut i: usize = 0;
    while i < text.len()
        invariant
            i <= text@.len(),
            vstd::utf8::valid_utf8(source@),
            text@ == vstd::utf8::decode_utf8(source@),
            source@.len() <= limits.max_xml_bytes,
            forall|j: int| 0 <= j < i ==> is_xml_char(#[trigger] text@[j]),
        decreases text@.len() - i,
    {
        if !crate::xml_rules::xml_char(text[i]) {
            assert(!is_xml_char(text@[i as int]));
            assert(!all_xml_chars(vstd::utf8::decode_utf8(source@)));
            return Err(xml_failure(path, String::from_str("XML contains a character forbidden by XML 1.0")));
        }
        i = i + 1;
    }
    Ok(())
}

/// The `MultiModel.xml` projection of `source`: its source failure, or the
/// projection of the events `quick_xml` reads from it.
pub open spec fn multimodel_parse_result(source: Seq<u8>, limits: Limits) -> Result<MultiModelView, ParseFault> {
    match xml_source_fault("MultiModel.xml"@, source, limits) {
        Some(f) => Err(f),
        None => multimodel_outcome(xml_stream(source, limits.max_xml_events), source, limits),
    }
}

/// Parses `MultiModel.xml`: the source checks of `xml_source_fault`, then the
/// projection of the document's event stream (`multimodel_from_events`);
/// exactly `multimodel_parse_result`.
pub fn parse_multimodel(source: &[u8], limits: Limits) -> (r: Result<MultiModel, MmcError>)
    ensures
        match multimodel_parse_result(source@, limits) {
            Ok(v) => r matches Ok(m) && m@ == v,
            Err(f) => r matches Err(e) && is_fault(e, f),
        },
{
    check_xml_source("MultiModel.xml", source, limits)?;
    let events = read_xml_events(source, limits.max_xml_events);
    multimodel_from_events(&events, source, limits)
}

} // verus!
