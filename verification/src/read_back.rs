//! What `quick_xml`'s reader reads from a document that its indenting writer
//! wrote: the element tree a document is written from, and the events read
//! back from the rendering of such a tree.

use vstd::prelude::*;

use crate::xml_events::{
    xml_attribute, xml_char_reference, xml_kind, xml_local_name, xml_reference_name, xml_resolution, xml_text,
    AttributeView, EventKind, EventView, NamespaceView,
};
use crate::xml_rules::all_xml_chars;
use crate::xml_writer::WriteView;

verus! {

/// An element tree: an element with its attributes, in order, and its
/// children (`empty` for `<name/>`, which has none), or character data.
pub enum XmlTree {
    Element { name: Seq<char>, attributes: Seq<(Seq<char>, Seq<char>)>, empty: bool, children: Seq<XmlTree> },
    Text(Seq<char>),
}

/// The write events of a tree: a start tag, the children, the end tag; or
/// one empty-element tag; or the text.
pub open spec fn flatten(t: XmlTree) -> Seq<WriteView>
    decreases t,
{
    match t {
        XmlTree::Text(s) => seq![WriteView::Text(s)],
        XmlTree::Element { name, attributes, empty, children } => if empty {
            seq![WriteView::Element(name, attributes, true)]
        } else {
            seq![WriteView::Element(name, attributes, false)] + flatten_all(children) + seq![WriteView::End(name)]
        },
    }
}

/// The write events of trees, one after another.
pub open spec fn flatten_all(ts: Seq<XmlTree>) -> Seq<WriteView>
    decreases ts,
{
    if ts.len() == 0 {
        Seq::empty()
    } else {
        flatten_all(ts.drop_last()) + flatten(ts.last())
    }
}

/// An ASCII letter.
pub open spec fn is_letter(c: char) -> bool {
    ('a' <= c && c <= 'z') || ('A' <= c && c <= 'Z')
}

/// A non-empty run of ASCII letters.
pub open spec fn letters(s: Seq<char>) -> bool {
    s.len() > 0 && forall|i: int| 0 <= i < s.len() ==> is_letter(#[trigger] s[i])
}

/// Text made of characters XML 1.0 allows, without tabs or line ends.
pub open spec fn plain_value(s: Seq<char>) -> bool {
    &&& all_xml_chars(s)
    &&& forall|i: int| 0 <= i < s.len() ==> (#[trigger] s[i]) != '\t' && s[i] != '\n' && s[i] != '\r'
}

/// The entity `quick_xml` escapes a character to, if it escapes it.
pub open spec fn escape_name(c: char) -> Option<Seq<char>> {
    if c == '<' {
        Some("lt"@)
    } else if c == '>' {
        Some("gt"@)
    } else if c == '&' {
        Some("amp"@)
    } else if c == '\'' {
        Some("apos"@)
    } else if c == '"' {
        Some("quot"@)
    } else {
        None
    }
}

/// The local name of `name` written as `prefix:local`.
pub open spec fn local_of(name: Seq<char>, prefix: Seq<char>) -> Seq<char> {
    name.skip(prefix.len() + 1int)
}

/// `name` is `prefix:local` with a local name of letters.
pub open spec fn qualified(name: Seq<char>, prefix: Seq<char>) -> bool {
    &&& name.len() > prefix.len() + 1
    &&& name.take(prefix.len() as int) == prefix
    &&& name[prefix.len() as int] == ':'
    &&& letters(local_of(name, prefix))
}

/// Unprefixed attributes with distinct names of letters (none of them
/// `xmlns`) and plain values.
pub open spec fn plain_attributes(a: Seq<(Seq<char>, Seq<char>)>) -> bool {
    &&& forall|i: int| 0 <= i < a.len() ==> letters(#[trigger] a[i].0) && a[i].0 != "xmlns"@ && plain_value(a[i].1)
    &&& forall|i: int, j: int| 0 <= i < j < a.len() ==> #[trigger] a[i].0 != #[trigger] a[j].0
}

/// Character data, where present, is the only child of its element.
pub open spec fn text_alone(cs: Seq<XmlTree>) -> bool {
    forall|i: int| 0 <= i < cs.len() && (#[trigger] cs[i] is Text) ==> cs.len() == 1
}

/// Every element of the tree is named `prefix:local`, has plain attributes,
/// no children when written empty, and text only as its only child; all
/// text is plain.
pub open spec fn tree_ok(t: XmlTree, prefix: Seq<char>) -> bool
    decreases t,
{
    match t {
        XmlTree::Text(s) => plain_value(s),
        XmlTree::Element { name, attributes, empty, children } => {
            &&& qualified(name, prefix)
            &&& plain_attributes(attributes)
            &&& (empty ==> children.len() == 0)
            &&& text_alone(children)
            &&& trees_ok(children, prefix)
        },
    }
}

pub open spec fn trees_ok(ts: Seq<XmlTree>, prefix: Seq<char>) -> bool
    decreases ts,
{
    if ts.len() == 0 {
        true
    } else {
        trees_ok(ts.drop_last(), prefix) && tree_ok(ts.last(), prefix)
    }
}

/// A document root: `prefix:local`, not written empty, declaring the
/// namespace `ns` for `prefix` as its first attribute, with plain attributes
/// after it and children as `tree_ok` asks. `ns` is plain text that needs no
/// escaping.
pub open spec fn readable_root(t: XmlTree, prefix: Seq<char>, ns: Seq<char>) -> bool {
    match t {
        XmlTree::Element { name, attributes, empty, children } => {
            &&& letters(prefix)
            &&& ns.len() > 0
            &&& plain_value(ns)
            &&& forall|i: int| 0 <= i < ns.len() ==> escape_name(#[trigger] ns[i]) is None
            &&& qualified(name, prefix)
            &&& !empty
            &&& attributes.len() >= 1
            &&& attributes[0] == ("xmlns:"@ + prefix, ns)
            &&& plain_attributes(attributes.skip(1))
            &&& text_alone(children)
            &&& trees_ok(children, prefix)
        },
        XmlTree::Text(_) => false,
    }
}

/// A line end and the indentation of `depth` levels.
pub open spec fn indent(depth: nat, indent_char: u8, indent_size: usize) -> EventView {
    EventView::Text(Ok(seq!['\n'] + Seq::new((depth * indent_size) as nat, |i: int| indent_char as char)))
}

/// The events read from text that was escaped when written: runs of plain
/// characters as text, each escaped character as a reference to its entity.
/// `run` is the plain text read so far.
pub open spec fn text_reads_from(s: Seq<char>, run: Seq<char>) -> Seq<EventView>
    decreases s.len(),
{
    let pending = if run.len() == 0 {
        Seq::<EventView>::empty()
    } else {
        seq![EventView::Text(Ok(run))]
    };
    if s.len() == 0 {
        pending
    } else {
        match escape_name(s[0]) {
            Some(n) => pending + seq![EventView::Reference { character: Ok(None), name: Ok(n) }] + text_reads_from(
                s.drop_first(),
                Seq::empty(),
            ),
            None => text_reads_from(s.drop_first(), run.push(s[0])),
        }
    }
}

pub open spec fn text_reads(s: Seq<char>) -> Seq<EventView> {
    text_reads_from(s, Seq::empty())
}

/// How the reader sees a written attribute: `xmlns:` declarations as
/// prefixed, with the prefix declared as their local name.
pub open spec fn attribute_read(a: (Seq<char>, Seq<char>)) -> Result<AttributeView, Seq<char>> {
    if a.0.len() > 6 && a.0.take(6) == "xmlns:"@ {
        Ok(AttributeView { prefixed: true, key: Ok(a.0.skip(6)), value: Ok(a.1) })
    } else {
        Ok(AttributeView { prefixed: false, key: Ok(a.0), value: Ok(a.1) })
    }
}

pub open spec fn attribute_reads(a: Seq<(Seq<char>, Seq<char>)>) -> Seq<Result<AttributeView, Seq<char>>> {
    a.map_values(|p: (Seq<char>, Seq<char>)| attribute_read(p))
}

/// The events read from an element written at `depth` (after a tag, so on
/// a line of its own): its indentation, its start tag resolved in `ns`, its
/// children one level deeper, and its end tag, on a line of its own unless
/// it follows text; or the text.
pub open spec fn tree_reads(t: XmlTree, depth: nat, prefix: Seq<char>, ns: Seq<u8>, c: u8, n: usize) -> Seq<EventView>
    decreases t,
{
    match t {
        XmlTree::Text(s) => text_reads(s),
        XmlTree::Element { name, attributes, empty, children } => seq![
            indent(depth, c, n),
            EventView::Start {
                namespace: NamespaceView::Bound(ns),
                local: Ok(local_of(name, prefix)),
                attributes: attribute_reads(attributes),
                empty,
            },
        ] + if empty {
            Seq::empty()
        } else {
            trees_reads(children, depth + 1, prefix, ns, c, n) + if children.len() == 1 && children[0] is Text {
                seq![EventView::End]
            } else {
                seq![indent(depth, c, n), EventView::End]
            }
        },
    }
}

pub open spec fn trees_reads(ts: Seq<XmlTree>, depth: nat, prefix: Seq<char>, ns: Seq<u8>, c: u8, n: usize) -> Seq<EventView>
    decreases ts,
{
    if ts.len() == 0 {
        Seq::empty()
    } else {
        trees_reads(ts.drop_last(), depth, prefix, ns, c, n) + tree_reads(ts.last(), depth, prefix, ns, c, n)
    }
}

/// The events read from a document with an XML declaration and the root
/// `t`, written with this indentation: the declaration, the root on the next
/// line, and the end of input.
pub open spec fn document_reads(t: XmlTree, prefix: Seq<char>, ns: Seq<char>, c: u8, n: usize) -> Seq<EventView> {
    seq![EventView::Decl] + tree_reads(t, 0, prefix, vstd::utf8::encode_utf8(ns), c, n) + seq![EventView::Eof]
}

/// Event `k` of `source` reads as `e`.
pub open spec fn reads_as(source: Seq<u8>, k: nat, e: EventView) -> bool {
    match e {
        EventView::Start { namespace, local, attributes, empty } => {
            &&& xml_resolution(source, k) == Ok::<NamespaceView, Seq<char>>(namespace)
            &&& xml_kind(source, k) == if empty {
                EventKind::Empty
            } else {
                EventKind::Start
            }
            &&& xml_local_name(source, k) == local
            &&& attributes.len() < source.len()
            &&& forall|j: int| 0 <= j < attributes.len() ==> #[trigger] xml_attribute(source, k, j as nat) == Some(attributes[j])
            &&& xml_attribute(source, k, attributes.len()) is None
        },
        EventView::End => xml_resolution(source, k) is Ok && xml_kind(source, k) == EventKind::End,
        EventView::Text(t) => xml_resolution(source, k) is Ok && xml_kind(source, k) == EventKind::Text && xml_text(
            source,
            k,
        ) == t,
        EventView::Reference { character, name } => {
            &&& xml_resolution(source, k) is Ok
            &&& xml_kind(source, k) == EventKind::Reference
            &&& xml_char_reference(source, k) == character
            &&& xml_reference_name(source, k) == name
        },
        EventView::Decl => xml_resolution(source, k) is Ok && xml_kind(source, k) == EventKind::Decl,
        EventView::Eof => xml_resolution(source, k) is Ok && xml_kind(source, k) == EventKind::Eof,
        _ => false,
    }
}

/// The events of `source`, from the first on, read as `events`; and
/// `source` is UTF-8 text of characters XML 1.0 allows.
pub open spec fn reads_back(source: Seq<u8>, events: Seq<EventView>) -> bool {
    &&& vstd::utf8::valid_utf8(source)
    &&& all_xml_chars(vstd::utf8::decode_utf8(source))
    &&& forall|k: int| 0 <= k < events.len() ==> reads_as(source, k as nat, #[trigger] events[k])
}

} // verus!
