//! XML documents as sequences of write events, rendered with `quick_xml`.

use vstd::prelude::*;

use quick_xml::events::{BytesDecl, BytesEnd, BytesStart, BytesText, Event};
use quick_xml::Writer;

use crate::read_back::{document_reads, flatten, reads_back, readable_root, XmlTree};

verus! {

/// One event written to an XML document.
#[derive(Debug, Clone, PartialEq, Eq)]
pub enum XmlWrite {
    /// The XML declaration with this version and encoding.
    Decl { version: String, encoding: String },
    /// A start tag (`empty`: an empty-element tag) with its attributes, in order.
    Element { name: String, attributes: Vec<(String, String)>, empty: bool },
    /// An end tag.
    End(String),
    /// Character data, escaped when rendered.
    Text(String),
}

/// The mathematical value of a write event.
pub enum WriteView {
    Decl(Seq<char>, Seq<char>),
    Element(Seq<char>, Seq<(Seq<char>, Seq<char>)>, bool),
    End(Seq<char>),
    Text(Seq<char>),
}

pub open spec fn attribute_views(a: Seq<(String, String)>) -> Seq<(Seq<char>, Seq<char>)> {
    a.map_values(|p: (String, String)| (p.0@, p.1@))
}

impl View for XmlWrite {
    type V = WriteView;

    open spec fn view(&self) -> WriteView {
        match self {
            XmlWrite::Decl { version, encoding } => WriteView::Decl(version@, encoding@),
            XmlWrite::Element { name, attributes, empty } => WriteView::Element(name@, attribute_views(attributes@), *empty),
            XmlWrite::End(name) => WriteView::End(name@),
            XmlWrite::Text(text) => WriteView::Text(text@),
        }
    }
}

pub open spec fn writes_view(s: Seq<XmlWrite>) -> Seq<WriteView> {
    s.map_values(|w: XmlWrite| w@)
}

/// The bytes `quick_xml`'s indenting writer produces for `events`.
pub uninterp spec fn xml_rendering(events: Seq<WriteView>, indent_char: u8, indent_size: usize) -> Seq<u8>;

/// `Writer::new_with_indent` from `quick_xml` over a `Vec<u8>`, then
/// `Writer::write_event` for each event in order (a declaration, a start or
/// empty tag with its attributes pushed in order, an end tag, or escaped
/// text), then `Writer::into_inner`. Claims: writing succeeds (the writer
/// fails only where its inner writer does, and appending to a `Vec<u8>` does
/// not fail) and the bytes are the named rendering of the events with this
/// indentation. Claims too what `quick_xml`'s reader reads back from the
/// bytes where the events are an XML declaration and a tree of elements
/// with names, attributes and text as `readable_root` asks, indented with
/// spaces: the events of `document_reads`. Tags are written with a line end
/// and indentation before them unless they follow text; attribute values and
/// text are escaped (`&`, `<`, `>`, `'`, `"`), and the reader gives escaped
/// text back as runs of text and entity references and attribute values
/// unescaped.
#[verifier::external_body]
pub(crate) fn render_document(events: &Vec<XmlWrite>, indent_char: u8, indent_size: usize) -> (r: Result<Vec<u8>, std::io::Error>)
    ensures
        r is Ok,
        r matches Ok(bytes) ==> bytes@ == xml_rendering(writes_view(events@), indent_char, indent_size),
        r matches Ok(bytes) ==> forall|t: XmlTree, prefix: Seq<char>, ns: Seq<char>|
            #![trigger readable_root(t, prefix, ns), flatten(t)]
            readable_root(t, prefix, ns) && indent_char == 32 && writes_view(events@) == seq![
                WriteView::Decl("1.0"@, "UTF-8"@),
            ] + flatten(t) ==> reads_back(bytes@, document_reads(t, prefix, ns, indent_char, indent_size)),
{
    let mut writer = Writer::new_with_indent(Vec::new(), indent_char, indent_size);
    for event in events {
        writer.write_event(match event {
            XmlWrite::Decl { version, encoding } => Event::Decl(BytesDecl::new(version, Some(encoding), None)),
            XmlWrite::Element { name, attributes, empty } => {
                let start = BytesStart::new(name).with_attributes(attributes.iter().map(|(k, v)| (k.as_str(), v.as_str())));
                if *empty { Event::Empty(start) } else { Event::Start(start) }
            },
            XmlWrite::End(name) => Event::End(BytesEnd::new(name)),
            XmlWrite::Text(text) => Event::Text(BytesText::new(text)),
        })?;
    }
    Ok(writer.into_inner())
}

} // verus!
