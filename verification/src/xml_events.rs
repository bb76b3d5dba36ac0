//! The event stream of an XML document, read with `quick_xml` and held as
//! plain values for the document parsers.

use vstd::prelude::*;

use quick_xml::events::Event;
use quick_xml::name::ResolveResult;
use quick_xml::NsReader;

verus! {

#[verifier::external_type_specification]
#[verifier::external_body]
#[verifier::reject_recursive_types(R)]
pub struct ExNsReader<R>(NsReader<R>);

#[verifier::external_type_specification]
#[verifier::external_body]
pub struct ExEvent<'a>(Event<'a>);

/// How the name of an element resolved against the namespace declarations in scope.
#[derive(Debug, Clone, PartialEq, Eq)]
pub enum XmlNamespace {
    /// Bound to the namespace with these bytes.
    Bound(Vec<u8>),
    /// No prefix and no default namespace.
    Unbound,
    /// A prefix that no declaration in scope defines.
    Unknown,
}

/// One attribute of an element, as read: whether its name has a prefix, its
/// local name, and its unescaped value (each with the failure that reading it gave).
#[derive(Debug, PartialEq, Eq)]
pub struct XmlAttribute {
    pub prefixed: bool,
    pub key: Result<String, String>,
    pub value: Result<String, String>,
}

/// One XML event, as read. Failures that reading a part gave are held as
/// messages where the part would be.
#[derive(Debug, PartialEq, Eq)]
pub enum XmlEvent {
    /// A start tag (`empty` for `<tag/>`): its namespace, local name, and
    /// attributes up to and including the first that could not be read.
    Start {
        namespace: XmlNamespace,
        local: Result<String, String>,
        attributes: Vec<Result<XmlAttribute, String>>,
        empty: bool,
    },
    End,
    /// Character data between tags, decoded and with line ends normalized.
    Text(Result<String, String>),
    /// The content of a CDATA section.
    CData(Result<String, String>),
    Decl,
    DocType,
    /// A general reference: its character-reference resolution and its name.
    Reference { character: Result<Option<char>, String>, name: Result<String, String> },
    Comment,
    ProcessingInstruction,
    Eof,
    /// The reader failed; no further events follow.
    ReadError(String),
}

/// The kinds of event `quick_xml` reads.
#[derive(PartialEq, Eq, Structural)]
pub enum EventKind {
    Start,
    Empty,
    End,
    Text,
    CData,
    Comment,
    Decl,
    ProcessingInstruction,
    DocType,
    Reference,
    Eof,
}

/// The mathematical value of a namespace resolution.
pub enum NamespaceView {
    Bound(Seq<u8>),
    Unbound,
    Unknown,
}

/// The mathematical value of an attribute as read.
pub struct AttributeView {
    pub prefixed: bool,
    pub key: Result<Seq<char>, Seq<char>>,
    pub value: Result<Seq<char>, Seq<char>>,
}

/// The mathematical value of an event as read.
pub enum EventView {
    Start {
        namespace: NamespaceView,
        local: Result<Seq<char>, Seq<char>>,
        attributes: Seq<Result<AttributeView, Seq<char>>>,
        empty: bool,
    },
    End,
    Text(Result<Seq<char>, Seq<char>>),
    CData(Result<Seq<char>, Seq<char>>),
    Decl,
    DocType,
    Reference { character: Result<Option<char>, Seq<char>>, name: Result<Seq<char>, Seq<char>> },
    Comment,
    ProcessingInstruction,
    Eof,
    ReadError(Seq<char>),
}

/// The characters of a text, or of the message in its place.
pub open spec fn text_result(r: Result<String, String>) -> Result<Seq<char>, Seq<char>> {
    match r {
        Ok(t) => Ok(t@),
        Err(m) => Err(m@),
    }
}

/// A character reference's resolution, or the message in its place.
pub open spec fn char_result(r: Result<Option<char>, String>) -> Result<Option<char>, Seq<char>> {
    match r {
        Ok(c) => Ok(c),
        Err(m) => Err(m@),
    }
}

impl View for XmlNamespace {
    type V = NamespaceView;

    open spec fn view(&self) -> NamespaceView {
        match self {
            XmlNamespace::Bound(b) => NamespaceView::Bound(b@),
            XmlNamespace::Unbound => NamespaceView::Unbound,
            XmlNamespace::Unknown => NamespaceView::Unknown,
        }
    }
}

impl View for XmlAttribute {
    type V = AttributeView;

    open spec fn view(&self) -> AttributeView {
        AttributeView { prefixed: self.prefixed, key: text_result(self.key), value: text_result(self.value) }
    }
}

/// The values of attributes as read, each or the message in its place.
pub open spec fn attribute_views(s: Seq<Result<XmlAttribute, String>>) -> Seq<Result<AttributeView, Seq<char>>> {
    s.map_values(
        |a: Result<XmlAttribute, String>|
            match a {
                Ok(x) => Ok(x@),
                Err(m) => Err(m@),
            },
    )
}

impl View for XmlEvent {
    type V = EventView;

    open spec fn view(&self) -> EventView {
        match self {
            XmlEvent::Start { namespace, local, attributes, empty } => EventView::Start {
                namespace: namespace@,
                local: text_result(*local),
                attributes: attribute_views(attributes@),
                empty: *empty,
            },
            XmlEvent::End => EventView::End,
            XmlEvent::Text(t) => EventView::Text(text_result(*t)),
            XmlEvent::CData(t) => EventView::CData(text_result(*t)),
            XmlEvent::Decl => EventView::Decl,
            XmlEvent::DocType => EventView::DocType,
            XmlEvent::Reference { character, name } => EventView::Reference {
                character: char_result(*character),
                name: text_result(*name),
            },
            XmlEvent::Comment => EventView::Comment,
            XmlEvent::ProcessingInstruction => EventView::ProcessingInstruction,
            XmlEvent::Eof => EventView::Eof,
            XmlEvent::ReadError(m) => EventView::ReadError(m@),
        }
    }
}

/// What `NsReader::read_resolved_event` gives as event `k` of `source`: the
/// resolution of the event's name, or the reader's error message.
pub uninterp spec fn xml_resolution(source: Seq<u8>, k: nat) -> Result<NamespaceView, Seq<char>>;

/// The kind of event `k` of `source`.
pub uninterp spec fn xml_kind(source: Seq<u8>, k: nat) -> EventKind;

/// `BytesStart::local_name` of event `k` of `source`, as UTF-8 text.
pub uninterp spec fn xml_local_name(source: Seq<u8>, k: nat) -> Result<Seq<char>, Seq<char>>;

/// Item `j` of the attribute iterator of event `k` of `source` (duplicate
/// checks on): whether its name has a prefix, its local name as UTF-8 text,
/// and its unescaped value; `None` past the last item.
pub uninterp spec fn xml_attribute(source: Seq<u8>, k: nat, j: nat) -> Option<Result<AttributeView, Seq<char>>>;

/// `BytesText::xml_content` of event `k` of `source`.
pub uninterp spec fn xml_text(source: Seq<u8>, k: nat) -> Result<Seq<char>, Seq<char>>;

/// The raw bytes of the CDATA section that is event `k` of `source`, as UTF-8 text.
pub uninterp spec fn xml_cdata(source: Seq<u8>, k: nat) -> Result<Seq<char>, Seq<char>>;

/// `BytesRef::resolve_char_ref` of event `k` of `source`.
pub uninterp spec fn xml_char_reference(source: Seq<u8>, k: nat) -> Result<Option<char>, Seq<char>>;

/// `BytesRef::decode` of event `k` of `source`.
pub uninterp spec fn xml_reference_name(source: Seq<u8>, k: nat) -> Result<Seq<char>, Seq<char>>;

/// A `quick_xml` namespace-resolving reader over `source`, with the event it
/// read last and the number of events it has read.
pub struct XmlCursor<'a> {
    source: &'a [u8],
    reader: NsReader<&'a [u8]>,
    event: Event<'static>,
    read: Ghost<nat>,
}

impl<'a> XmlCursor<'a> {
    pub closed spec fn spec_source(&self) -> Seq<u8> {
        self.source@
    }

    /// How many events have been read.
    pub closed spec fn spec_read(&self) -> nat {
        self.read@
    }

    /// The position of the last event read.
    pub open spec fn spec_last(&self) -> nat {
        (self.spec_read() - 1) as nat
    }

    /// An event has been read, and reading it succeeded.
    pub open spec fn holds_event(&self) -> bool {
        &&& self.spec_read() > 0
        &&& xml_resolution(self.spec_source(), self.spec_last()) is Ok
    }

    /// The last event read is of kind `kind`.
    pub open spec fn holds_kind(&self, kind: EventKind) -> bool {
        self.holds_event() && xml_kind(self.spec_source(), self.spec_last()) == kind
    }

    /// The last event read is a start tag or an empty-element tag.
    pub open spec fn holds_element(&self) -> bool {
        self.holds_kind(EventKind::Start) || self.holds_kind(EventKind::Empty)
    }
}

/// `NsReader::from_reader` from `quick_xml`: a namespace-resolving reader over
/// `source` with the default configuration (text is not trimmed), before its
/// first event.
#[verifier::external_body]
fn open_xml<'a>(source: &'a [u8]) -> (r: XmlCursor<'a>)
    ensures
        r.spec_source() == source@,
        r.spec_read() == 0,
{
    XmlCursor { source, reader: NsReader::from_reader(source), event: Event::Eof, read: Ghost(0) }
}

/// `NsReader::read_resolved_event` from `quick_xml`: reads the next event,
/// which the cursor keeps (made owned), and gives the resolution of its name.
/// Claims: the result is the named resolution of that event of the source
/// (the reader's error, as its message, in its place).
#[verifier::external_body]
fn advance(cursor: &mut XmlCursor) -> (r: Result<XmlNamespace, String>)
    ensures
        final(cursor).spec_source() == old(cursor).spec_source(),
        final(cursor).spec_read() == old(cursor).spec_read() + 1,
        match r {
            Ok(ns) => xml_resolution(old(cursor).spec_source(), old(cursor).spec_read()) == Ok::<NamespaceView, Seq<char>>(ns@),
            Err(m) => xml_resolution(old(cursor).spec_source(), old(cursor).spec_read()) == Err::<NamespaceView, Seq<char>>(m@),
        },
{
    let r = match cursor.reader.read_resolved_event() {
        Ok((namespace, event)) => {
            let namespace = match namespace {
                ResolveResult::Bound(ns) => XmlNamespace::Bound(ns.as_ref().to_vec()),
                ResolveResult::Unbound => XmlNamespace::Unbound,
                ResolveResult::Unknown(_) => XmlNamespace::Unknown,
            };
            cursor.event = event.into_owned();
            Ok(namespace)
        },
        Err(error) => Err(error.to_string()),
    };
    cursor.read = Ghost((cursor.read@ + 1) as nat);
    r
}

/// Tells the variants of `quick_xml`'s `Event` apart for the event the cursor
/// read last. Claims: the result is the named kind of that event.
#[verifier::external_body]
fn event_kind(cursor: &XmlCursor) -> (r: EventKind)
    requires
        cursor.holds_event(),
    ensures
        r == xml_kind(cursor.spec_source(), cursor.spec_last()),
{
    match &cursor.event {
        Event::Start(_) => EventKind::Start,
        Event::Empty(_) => EventKind::Empty,
        Event::End(_) => EventKind::End,
        Event::Text(_) => EventKind::Text,
        Event::CData(_) => EventKind::CData,
        Event::Comment(_) => EventKind::Comment,
        Event::Decl(_) => EventKind::Decl,
        Event::PI(_) => EventKind::ProcessingInstruction,
        Event::DocType(_) => EventKind::DocType,
        Event::GeneralRef(_) => EventKind::Reference,
        Event::Eof => EventKind::Eof,
    }
}

/// `BytesStart::local_name` from `quick_xml`, as UTF-8 text, for the element
/// the cursor read last. Claims: the result is the named local name.
#[verifier::external_body]
fn element_local_name(cursor: &XmlCursor) -> (r: Result<String, String>)
    requires
        cursor.holds_element(),
    ensures
        text_result(r) == xml_local_name(cursor.spec_source(), cursor.spec_last()),
{
    match &cursor.event {
        Event::Start(e) | Event::Empty(e) => std::str::from_utf8(e.local_name().as_ref()).map(str::to_owned).map_err(
            |e| e.to_string(),
        ),
        _ => Err(String::new()),
    }
}

/// Item `j` of `BytesStart::attributes` from `quick_xml` (with duplicate
/// checks on) for the element the cursor read last: `QName::prefix`,
/// `QName::local_name` as UTF-8 text and `Attribute::unescape_value`, or the
/// item's error as its message. Claims: the result is the named item.
#[verifier::external_body]
fn attribute_item(cursor: &XmlCursor, j: usize) -> (r: Option<Result<XmlAttribute, String>>)
    requires
        cursor.holds_element(),
    ensures
        match r {
            None => xml_attribute(cursor.spec_source(), cursor.spec_last(), j as nat) is None,
            Some(Ok(a)) => xml_attribute(cursor.spec_source(), cursor.spec_last(), j as nat) == Some(
                Ok::<AttributeView, Seq<char>>(a@),
            ),
            Some(Err(m)) => xml_attribute(cursor.spec_source(), cursor.spec_last(), j as nat) == Some(
                Err::<AttributeView, Seq<char>>(m@),
            ),
        },
{
    let element = match &cursor.event {
        Event::Start(e) | Event::Empty(e) => e,
        _ => return None,
    };
    let mut items = element.attributes();
    items.with_checks(true);
    Some(match items.nth(j)? {
        Ok(a) => Ok(XmlAttribute {
            prefixed: a.key.prefix().is_some(),
            key: std::str::from_utf8(a.key.local_name().as_ref()).map(str::to_owned).map_err(|e| e.to_string()),
            value: a.unescape_value().map(|v| v.into_owned()).map_err(|e| e.to_string()),
        }),
        Err(error) => Err(error.to_string()),
    })
}

/// `BytesText::xml_content` from `quick_xml` for the text the cursor read
/// last: decoded, with XML line ends normalized. Claims: the result is the named text.
#[verifier::external_body]
fn text_content(cursor: &XmlCursor) -> (r: Result<String, String>)
    requires
        cursor.holds_kind(EventKind::Text),
    ensures
        text_result(r) == xml_text(cursor.spec_source(), cursor.spec_last()),
{
    match &cursor.event {
        Event::Text(t) => t.xml_content().map(|v| v.into_owned()).map_err(|e| e.to_string()),
        _ => Err(String::new()),
    }
}

/// The raw bytes of the CDATA section the cursor read last, as UTF-8 text.
/// Claims: the result is the named text.
#[verifier::external_body]
fn cdata_text(cursor: &XmlCursor) -> (r: Result<String, String>)
    requires
        cursor.holds_kind(EventKind::CData),
    ensures
        text_result(r) == xml_cdata(cursor.spec_source(), cursor.spec_last()),
{
    match &cursor.event {
        Event::CData(c) => std::str::from_utf8(c.as_ref()).map(str::to_owned).map_err(|e| e.to_string()),
        _ => Err(String::new()),
    }
}

/// `BytesRef::resolve_char_ref` from `quick_xml` for the reference the cursor
/// read last: its character, `None` for a named entity. Claims: the result is
/// the named resolution.
#[verifier::external_body]
fn reference_char(cursor: &XmlCursor) -> (r: Result<Option<char>, String>)
    requires
        cursor.holds_kind(EventKind::Reference),
    ensures
        match r {
            Ok(c) => xml_char_reference(cursor.spec_source(), cursor.spec_last()) == Ok::<Option<char>, Seq<char>>(c),
            Err(m) => xml_char_reference(cursor.spec_source(), cursor.spec_last()) == Err::<Option<char>, Seq<char>>(m@),
        },
{
    match &cursor.event {
        Event::GeneralRef(reference) => reference.resolve_char_ref().map_err(|e| e.to_string()),
        _ => Ok(None),
    }
}

/// `BytesRef::decode` from `quick_xml` for the reference the cursor read
/// last: its name. Claims: the result is the named name.
#[verifier::external_body]
fn reference_name(cursor: &XmlCursor) -> (r: Result<String, String>)
    requires
        cursor.holds_kind(EventKind::Reference),
    ensures
        text_result(r) == xml_reference_name(cursor.spec_source(), cursor.spec_last()),
{
    match &cursor.event {
        Event::GeneralRef(reference) => reference.decode().map(|v| v.into_owned()).map_err(|e| e.to_string()),
        _ => Err(String::new()),
    }
}

/// The attribute items of event `k` of `source` from item `j` on, up to and
/// including the first that could not be read. An element inside `source`
/// has fewer attributes than `source` has bytes, so none is sought past that.
pub open spec fn xml_attributes_from(source: Seq<u8>, k: nat, j: nat) -> Seq<Result<AttributeView, Seq<char>>>
    decreases source.len() - j,
{
    if j >= source.len() {
        Seq::empty()
    } else {
        match xml_attribute(source, k, j) {
            None => Seq::empty(),
            Some(Err(m)) => seq![Err(m)],
            Some(Ok(a)) => seq![Ok::<AttributeView, Seq<char>>(a)] + xml_attributes_from(source, k, j + 1),
        }
    }
}

/// Event `k` of `source`, as `quick_xml` reads it.
pub open spec fn xml_event_at(source: Seq<u8>, k: nat) -> EventView {
    match xml_resolution(source, k) {
        Err(m) => EventView::ReadError(m),
        Ok(namespace) => match xml_kind(source, k) {
            EventKind::Start => EventView::Start {
                namespace,
                local: xml_local_name(source, k),
                attributes: xml_attributes_from(source, k, 0),
                empty: false,
            },
            EventKind::Empty => EventView::Start {
                namespace,
                local: xml_local_name(source, k),
                attributes: xml_attributes_from(source, k, 0),
                empty: true,
            },
            EventKind::End => EventView::End,
            EventKind::Text => EventView::Text(xml_text(source, k)),
            EventKind::CData => EventView::CData(xml_cdata(source, k)),
            EventKind::Comment => EventView::Comment,
            EventKind::Decl => EventView::Decl,
            EventKind::ProcessingInstruction => EventView::ProcessingInstruction,
            EventKind::DocType => EventView::DocType,
            EventKind::Reference => EventView::Reference {
                character: xml_char_reference(source, k),
                name: xml_reference_name(source, k),
            },
            EventKind::Eof => EventView::Eof,
        },
    }
}

/// The attributes of the element the cursor read last (see `xml_attributes_from`).
fn read_attributes(cursor: &XmlCursor) -> (r: Vec<Result<XmlAttribute, String>>)
    requires
        cursor.holds_element(),
    ensures
        attribute_views(r@) == xml_attributes_from(cursor.spec_source(), cursor.spec_last(), 0),
{
    let ghost source = cursor.spec_source();
    let ghost k = cursor.spec_last();
    let mut out: Vec<Result<XmlAttribute, String>> = Vec::new();
    let mut j: usize = 0;
    assert(attribute_views(out@) =~= Seq::<Result<AttributeView, Seq<char>>>::empty());
    while j < cursor.source.len()
        invariant
            source == cursor.spec_source(),
            k == cursor.spec_last(),
            cursor.holds_element(),
            j <= source.len(),
            attribute_views(out@) + xml_attributes_from(source, k, j as nat) == xml_attributes_from(source, k, 0),
        decreases source.len() - j,
    {
        let ghost before = out@;
        match attribute_item(cursor, j) {
            None => {
                assert(xml_attributes_from(source, k, j as nat) =~= Seq::<Result<AttributeView, Seq<char>>>::empty());
                assert(attribute_views(out@) =~= attribute_views(out@) + Seq::<Result<AttributeView, Seq<char>>>::empty());
                return out;
            },
            Some(Err(m)) => {
                let ghost mv = m@;
                out.push(Err(m));
                assert(attribute_views(out@) =~= attribute_views(before).push(Err::<AttributeView, Seq<char>>(mv)));
                assert(attribute_views(out@) =~= attribute_views(before) + xml_attributes_from(source, k, j as nat));
                return out;
            },
            Some(Ok(a)) => {
                let ghost av = a@;
                out.push(Ok(a));
                assert(attribute_views(out@) =~= attribute_views(before).push(Ok::<AttributeView, Seq<char>>(av)));
                assert(xml_attributes_from(source, k, j as nat) =~= seq![Ok::<AttributeView, Seq<char>>(av)]
                    + xml_attributes_from(source, k, (j + 1) as nat));
                assert(attribute_views(out@) + xml_attributes_from(source, k, (j + 1) as nat) =~= attribute_views(before)
                    + xml_attributes_from(source, k, j as nat));
            },
        }
        j = j + 1;
    }
    assert(xml_attributes_from(source, k, j as nat) =~= Seq::<Result<AttributeView, Seq<char>>>::empty());
    assert(attribute_views(out@) =~= attribute_views(out@) + Seq::<Result<AttributeView, Seq<char>>>::empty());
    out
}

/// Reads the next event of the cursor: event `spec_read()` of its source, as
/// plain values (`ReadError` where reading fails).
fn next_event(cursor: &mut XmlCursor) -> (e: XmlEvent)
    ensures
        final(cursor).spec_source() == old(cursor).spec_source(),
        final(cursor).spec_read() == old(cursor).spec_read() + 1,
        e@ == xml_event_at(old(cursor).spec_source(), old(cursor).spec_read()),
{
    let namespace = match advance(cursor) {
        Err(message) => {
            return XmlEvent::ReadError(message);
        },
        Ok(ns) => ns,
    };
    match event_kind(cursor) {
        EventKind::Start => XmlEvent::Start {
            namespace,
            local: element_local_name(cursor),
            attributes: read_attributes(cursor),
            empty: false,
        },
        EventKind::Empty => XmlEvent::Start {
            namespace,
            local: element_local_name(cursor),
            attributes: read_attributes(cursor),
            empty: true,
        },
        EventKind::End => XmlEvent::End,
        EventKind::Text => XmlEvent::Text(text_content(cursor)),
        EventKind::CData => XmlEvent::CData(cdata_text(cursor)),
        EventKind::Comment => XmlEvent::Comment,
        EventKind::Decl => XmlEvent::Decl,
        EventKind::ProcessingInstruction => XmlEvent::ProcessingInstruction,
        EventKind::DocType => XmlEvent::DocType,
        EventKind::Reference => XmlEvent::Reference { character: reference_char(cursor), name: reference_name(cursor) },
        EventKind::Eof => XmlEvent::Eof,
    }
}

/// The event stream ends at its first `Eof` or `ReadError`, or after
/// `max_events + 1` events, whichever comes first.
pub open spec fn well_formed_stream(events: Seq<XmlEvent>, max_events: usize) -> bool {
    &&& 1 <= events.len() <= max_events + 1
    &&& forall|i: int| 0 <= i < events.len() - 1 ==> !(events[i] is Eof) && !(events[i] is ReadError)
    &&& (events.last() is Eof || events.last() is ReadError || events.len() == max_events + 1)
}

/// `e` is a start tag (or an empty-element tag) with the local name `name`.
pub open spec fn is_start_named(e: EventView, name: Seq<char>) -> bool {
    match e {
        EventView::Start { local, .. } => local == Ok::<Seq<char>, Seq<char>>(name),
        _ => false,
    }
}

/// Event `i` is the first start tag among `events`.
pub open spec fn first_start(events: Seq<EventView>, i: int) -> bool {
    &&& 0 <= i < events.len()
    &&& events[i] is Start
    &&& forall|j: int| 0 <= j < i ==> !(#[trigger] events[j] is Start)
}

/// Two events that are each the first start tag are the same event.
pub proof fn lemma_first_start_unique(events: Seq<EventView>, i: int, j: int)
    requires
        first_start(events, i),
        first_start(events, j),
    ensures
        i == j,
{
}

/// The values of events.
pub open spec fn event_views(s: Seq<XmlEvent>) -> Seq<EventView> {
    s.map_values(|e: XmlEvent| e@)
}

/// The events of `source` from event `i` on, as `quick_xml` reads them: up
/// to and including the first `Eof` or read failure, and none past event
/// `max_events` (so no more than `max_events + 1` in all).
pub open spec fn xml_stream_from(source: Seq<u8>, i: nat, max_events: usize) -> Seq<EventView>
    decreases max_events + 1 - i,
{
    if i > max_events {
        Seq::empty()
    } else {
        let e = xml_event_at(source, i);
        if e is Eof || e is ReadError || i == max_events {
            seq![e]
        } else {
            seq![e] + xml_stream_from(source, i + 1, max_events)
        }
    }
}

/// The events of `source` as `quick_xml` reads them (see `xml_stream_from`).
pub open spec fn xml_stream(source: Seq<u8>, max_events: usize) -> Seq<EventView> {
    xml_stream_from(source, 0, max_events)
}

/// Reads the events of `source` (see `xml_stream`).
pub fn read_xml_events(source: &[u8], max_events: usize) -> (events: Vec<XmlEvent>)
    ensures
        event_views(events@) == xml_stream(source@, max_events),
        well_formed_stream(events@, max_events),
{
    let mut cursor = open_xml(source);
    let mut events: Vec<XmlEvent> = Vec::new();
    assert(event_views(events@) =~= Seq::<EventView>::empty());
    loop
        invariant
            cursor.spec_source() == source@,
            cursor.spec_read() == events@.len(),
            events@.len() <= max_events,
            forall|i: int| 0 <= i < events@.len() ==> !(events@[i] is Eof) && !(events@[i] is ReadError),
            event_views(events@) + xml_stream_from(source@, events@.len() as nat, max_events) == xml_stream(source@, max_events),
        decreases max_events - events@.len(),
    {
        let ghost n = events@.len() as nat;
        let ghost before = events@;
        let event = next_event(&mut cursor);
        let ghost ev = event@;
        let finished = matches!(event, XmlEvent::Eof) || matches!(event, XmlEvent::ReadError(_));
        events.push(event);
        assert(event_views(events@) =~= event_views(before).push(ev));
        if finished || events.len() > max_events {
            assert(xml_stream_from(source@, n, max_events) =~= seq![ev]);
            assert(event_views(events@) =~= event_views(before) + xml_stream_from(source@, n, max_events));
            return events;
        }
        assert(xml_stream_from(source@, n, max_events) =~= seq![ev] + xml_stream_from(source@, n + 1, max_events));
        assert(event_views(events@) + xml_stream_from(source@, n + 1, max_events) =~= event_views(before) + xml_stream_from(
            source@,
            n,
            max_events,
        ));
    }
}

} // verus!
