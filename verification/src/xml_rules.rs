//! The lexical rules shared by the `MultiModel.xml` and LinkModel parsers:
//! XML characters, attribute maps, required attributes, location kinds and
//! the standard element paths.

use vstd::prelude::*;

use crate::model::{LocationView, ResourceLocation};
use crate::text::{chars_of, first_index_of, lemma_first_index_of_prefix, same_text};
use crate::xml_events::{attribute_views, char_result, text_result, AttributeView, XmlAttribute};

verus! {

/// Characters that XML 1.0 permits.
pub open spec fn is_xml_char(c: char) -> bool {
    ||| c == '\u{9}'
    ||| c == '\u{A}'
    ||| c == '\u{D}'
    ||| '\u{20}' <= c && c <= '\u{D7FF}'
    ||| '\u{E000}' <= c && c <= '\u{FFFD}'
    ||| '\u{10000}' <= c && c <= '\u{10FFFF}'
}

pub open spec fn all_xml_chars(s: Seq<char>) -> bool {
    forall|i: int| 0 <= i < s.len() ==> is_xml_char(#[trigger] s[i])
}

pub fn xml_char(c: char) -> (r: bool)
    ensures
        r == is_xml_char(c),
{
    c == '\u{9}' || c == '\u{A}' || c == '\u{D}' || ('\u{20}' <= c && c <= '\u{D7FF}') || ('\u{E000}' <= c
        && c <= '\u{FFFD}') || ('\u{10000}' <= c && c <= '\u{10FFFF}')
}

/// Whether every character of `s` is permitted by XML 1.0.
pub fn only_xml_chars(s: &str) -> (r: bool)
    ensures
        r == all_xml_chars(s@),
{
    let cs = chars_of(s);
    let mut i: usize = 0;
    while i < cs.len()
        invariant
            i <= cs@.len(),
            cs@ == s@,
            forall|j: int| 0 <= j < i ==> is_xml_char(#[trigger] cs@[j]),
        decreases cs@.len() - i,
    {
        if !xml_char(cs[i]) {
            return false;
        }
        i = i + 1;
    }
    true
}

/// The Unicode `White_Space` property (PropList.txt): U+0009 to U+000D,
/// U+0020, U+0085, U+00A0, U+1680, U+2000 to U+200A, U+2028, U+2029,
/// U+202F, U+205F and U+3000.
pub open spec fn is_white_space(c: char) -> bool {
    let n = c as int;
    ||| 0x9 <= n <= 0xD
    ||| n == 0x20
    ||| n == 0x85
    ||| n == 0xA0
    ||| n == 0x1680
    ||| 0x2000 <= n <= 0x200A
    ||| n == 0x2028
    ||| n == 0x2029
    ||| n == 0x202F
    ||| n == 0x205F
    ||| n == 0x3000
}

/// `char::is_whitespace` from std, which reports the Unicode `White_Space`
/// property. Claims: the result is that property (see `is_white_space`).
#[verifier::external_body]
fn white_space(c: char) -> (r: bool)
    ensures
        r == is_white_space(c),
{
    c.is_whitespace()
}

/// `s` holds nothing but white space (what `str::trim` removes entirely).
pub open spec fn blank(s: Seq<char>) -> bool {
    forall|i: int| 0 <= i < s.len() ==> is_white_space(#[trigger] s[i])
}

pub fn is_blank(s: &str) -> (r: bool)
    ensures
        r == blank(s@),
{
    let cs = chars_of(s);
    let mut i: usize = 0;
    while i < cs.len()
        invariant
            i <= cs@.len(),
            cs@ == s@,
            forall|j: int| 0 <= j < i ==> is_white_space(#[trigger] cs@[j]),
        decreases cs@.len() - i,
    {
        if !white_space(cs[i]) {
            return false;
        }
        i = i + 1;
    }
    true
}

/// The name/value pairs of an element's attributes.
pub open spec fn pairs_view(s: Seq<(String, String)>) -> Seq<(Seq<char>, Seq<char>)> {
    s.map_values(|p: (String, String)| (p.0@, p.1@))
}

pub open spec fn pair_keys(s: Seq<(Seq<char>, Seq<char>)>) -> Seq<Seq<char>> {
    s.map_values(|p: (Seq<char>, Seq<char>)| p.0)
}

/// The unprefixed attributes of an element, in order, or the message of the
/// first attribute that cannot be admitted: one that could not be read, whose
/// value holds a character XML 1.0 forbids, or whose name repeats.
pub open spec fn attribute_map(raw: Seq<Result<AttributeView, Seq<char>>>) -> Result<Seq<(Seq<char>, Seq<char>)>, Seq<char>>
    decreases raw.len(),
{
    if raw.len() == 0 {
        Ok(Seq::empty())
    } else {
        match attribute_map(raw.drop_last()) {
            Err(m) => Err(m),
            Ok(acc) => match raw.last() {
                Err(m) => Err(m),
                Ok(a) => if a.prefixed {
                    Ok(acc)
                } else {
                    match a.key {
                        Err(m) => Err(m),
                        Ok(k) => match a.value {
                            Err(m) => Err(m),
                            Ok(v) => if !all_xml_chars(v) {
                                Err("attribute "@ + k + " resolves to a character forbidden by XML 1.0"@)
                            } else if pair_keys(acc).contains(k) {
                                Err("duplicate attribute "@ + k)
                            } else {
                                Ok(acc.push((k, v)))
                            },
                        },
                    }
                },
            },
        }
    }
}

/// A refusal in a prefix is the refusal of the whole attribute list.
proof fn lemma_attribute_map_err_prefix(raw: Seq<Result<AttributeView, Seq<char>>>, n: int)
    requires
        0 <= n <= raw.len(),
        attribute_map(raw.take(n)) is Err,
    ensures
        attribute_map(raw) == attribute_map(raw.take(n)),
    decreases raw.len() - n,
{
    if n < raw.len() {
        assert(raw.take(n + 1).drop_last() =~= raw.take(n));
        lemma_attribute_map_err_prefix(raw, n + 1);
    } else {
        assert(raw.take(n) =~= raw);
    }
}

fn key_present(pairs: &Vec<(String, String)>, key: &str) -> (r: bool)
    ensures
        r == pair_keys(pairs_view(pairs@)).contains(key@),
{
    let ghost keys = pair_keys(pairs_view(pairs@));
    let mut i: usize = 0;
    while i < pairs.len()
        invariant
            i <= pairs@.len(),
            keys == pair_keys(pairs_view(pairs@)),
            forall|j: int| 0 <= j < i ==> keys[j] != key@,
        decreases pairs@.len() - i,
    {
        assert(keys[i as int] == pairs@[i as int].0@);
        if same_text(pairs[i].0.as_str(), key) {
            return true;
        }
        i = i + 1;
    }
    false
}

/// Admits the attributes of an element (see `attribute_map`).
pub fn read_attribute_map(raw: &Vec<Result<XmlAttribute, String>>) -> (r: Result<Vec<(String, String)>, String>)
    ensures
        r matches Ok(pairs) ==> attribute_map(attribute_views(raw@)) == Ok::<Seq<(Seq<char>, Seq<char>)>, Seq<char>>(pairs_view(pairs@)),
        r matches Err(m) ==> attribute_map(attribute_views(raw@)) == Err::<Seq<(Seq<char>, Seq<char>)>, Seq<char>>(m@),
{
    let ghost views = attribute_views(raw@);
    let mut pairs: Vec<(String, String)> = Vec::new();
    let mut i: usize = 0;
    assert(views.take(0) =~= Seq::<Result<AttributeView, Seq<char>>>::empty());
    assert(pairs_view(pairs@) =~= Seq::<(Seq<char>, Seq<char>)>::empty());
    while i < raw.len()
        invariant
            i <= raw@.len(),
            views == attribute_views(raw@),
            attribute_map(views.take(i as int)) == Ok::<Seq<(Seq<char>, Seq<char>)>, Seq<char>>(pairs_view(pairs@)),
        decreases raw@.len() - i,
    {
        assert(views.take(i + 1).drop_last() =~= views.take(i as int));
        assert(views.take(i + 1).last() == views[i as int]);
        match &raw[i] {
            Err(m) => {
                proof { lemma_attribute_map_err_prefix(views, i + 1); }
                return Err(m.clone());
            },
            Ok(a) => {
                if !a.prefixed {
                    match &a.key {
                        Err(m) => {
                            proof { lemma_attribute_map_err_prefix(views, i + 1); }
                return Err(m.clone());
                        },
                        Ok(k) => match &a.value {
                            Err(m) => {
                                proof { lemma_attribute_map_err_prefix(views, i + 1); }
                return Err(m.clone());
                            },
                            Ok(v) => {
                                if !only_xml_chars(v.as_str()) {
                                    proof { lemma_attribute_map_err_prefix(views, i + 1); }
                                    return Err(crate::text::join3(
                                        "attribute ",
                                        k.as_str(),
                                        " resolves to a character forbidden by XML 1.0",
                                    ));
                                }
                                if key_present(&pairs, k.as_str()) {
                                    proof { lemma_attribute_map_err_prefix(views, i + 1); }
                                    return Err(crate::text::concat("duplicate attribute ", k.as_str()));
                                }
                                let ghost before = pairs_view(pairs@);
                                pairs.push((k.clone(), v.clone()));
                                assert(pairs_view(pairs@) =~= before.push((k@, v@)));
                            },
                        },
                    }
                }
            },
        }
        i = i + 1;
    }
    assert(views.take(i as int) =~= views);
    Ok(pairs)
}

/// The value of the attribute named `name`.
pub open spec fn attr_get(pairs: Seq<(Seq<char>, Seq<char>)>, name: Seq<char>) -> Option<Seq<char>> {
    match first_index_of(pair_keys(pairs), name) {
        Some(i) => Some(pairs[i].1),
        None => None,
    }
}

/// Looks up the attribute named `name`.
pub fn attr_value<'a>(pairs: &'a Vec<(String, String)>, name: &str) -> (r: Option<&'a String>)
    ensures
        r matches Some(v) ==> attr_get(pairs_view(pairs@), name@) == Some(v@),
        r is None ==> attr_get(pairs_view(pairs@), name@) is None,
{
    let ghost keys = pair_keys(pairs_view(pairs@));
    let mut i: usize = 0;
    while i < pairs.len()
        invariant
            i <= pairs@.len(),
            keys == pair_keys(pairs_view(pairs@)),
            first_index_of(keys.take(i as int), name@) is None,
        decreases pairs@.len() - i,
    {
        assert(keys.take(i + 1).drop_last() =~= keys.take(i as int));
        assert(keys.take(i + 1).last() == pairs@[i as int].0@);
        if same_text(pairs[i].0.as_str(), name) {
            proof {
                lemma_first_index_of_prefix(keys, i + 1, name@);
                assert(pairs_view(pairs@)[i as int].1 == pairs@[i as int].1@);
            }
            return Some(&pairs[i].1);
        }
        i = i + 1;
    }
    assert(keys.take(i as int) =~= keys);
    None
}

/// An optional attribute, copied.
pub fn optional_attr(pairs: &Vec<(String, String)>, name: &str) -> (r: Option<String>)
    ensures
        match r {
            Some(v) => attr_get(pairs_view(pairs@), name@) == Some(v@),
            None => attr_get(pairs_view(pairs@), name@) is None,
        },
{
    match attr_value(pairs, name) {
        Some(v) => Some(v.clone()),
        None => None,
    }
}

/// The non-empty value of attribute `name` of `element`, or the message
/// `<element> requires @<name>`.
pub open spec fn required_attr(pairs: Seq<(Seq<char>, Seq<char>)>, name: Seq<char>, element: Seq<char>) -> Result<Seq<char>, Seq<char>> {
    match attr_get(pairs, name) {
        Some(v) => if v.len() > 0 {
            Ok(v)
        } else {
            Err(element + " requires @"@ + name)
        },
        None => Err(element + " requires @"@ + name),
    }
}

pub fn required_value(pairs: &Vec<(String, String)>, name: &str, element: &str) -> (r: Result<String, String>)
    ensures
        match r {
            Ok(v) => required_attr(pairs_view(pairs@), name@, element@) == Ok::<Seq<char>, Seq<char>>(v@),
            Err(m) => required_attr(pairs_view(pairs@), name@, element@) == Err::<Seq<char>, Seq<char>>(m@),
        },
{
    match attr_value(pairs, name) {
        Some(v) => {
            if !v.as_str().is_empty() {
                return Ok(v.clone());
            }
        },
        None => {},
    }
    let mut m = String::from_str(element);
    m.append(" requires @");
    m.append(name);
    Err(m)
}

pub open spec fn is_ascii_alphanumeric(c: char) -> bool {
    ('0' <= c && c <= '9') || ('A' <= c && c <= 'Z') || ('a' <= c && c <= 'z')
}

/// May stand at position `k` of a URI scheme.
pub open spec fn scheme_char(c: char, k: int) -> bool {
    is_ascii_alphanumeric(c) || (k > 0 && (c == '+' || c == '-' || c == '.'))
}

/// `v` starts with a URI scheme: a `:` that precedes every `/`, `?` and `#`,
/// after ASCII letters and digits (and, after the first, `+`, `-`, `.`).
pub open spec fn has_uri_scheme(v: Seq<char>) -> bool {
    exists|c: int|
        0 <= c < v.len() && v[c] == ':' && forall|k: int|
            0 <= k < c ==> #[trigger] v[k] != ':' && v[k] != '/' && v[k] != '?' && v[k] != '#' && scheme_char(v[k], k)
}

pub fn uri_scheme_present(value: &str) -> (r: bool)
    ensures
        r == has_uri_scheme(value@),
{
    let cs = chars_of(value);
    let mut k: usize = 0;
    while k < cs.len()
        invariant
            k <= cs@.len(),
            cs@ == value@,
            forall|q: int|
                0 <= q < k ==> #[trigger] cs@[q] != ':' && cs@[q] != '/' && cs@[q] != '?' && cs@[q] != '#'
                    && scheme_char(cs@[q], q),
        decreases cs@.len() - k,
    {
        let c = cs[k];
        if c == ':' {
            return true;
        }
        if c == '/' || c == '?' || c == '#' {
            assert(!has_uri_scheme(value@)) by {
                if has_uri_scheme(value@) {
                    let w = choose|w: int|
                        0 <= w < value@.len() && value@[w] == ':' && forall|q: int|
                            0 <= q < w ==> #[trigger] value@[q] != ':' && value@[q] != '/' && value@[q] != '?'
                                && value@[q] != '#' && scheme_char(value@[q], q);
                    if w > k {
                        assert(value@[k as int] != '/' && value@[k as int] != '?' && value@[k as int] != '#');
                    }
                }
            }
            return false;
        }
        let alnum = ('0' <= c && c <= '9') || ('A' <= c && c <= 'Z') || ('a' <= c && c <= 'z');
        if !(alnum || (k > 0 && (c == '+' || c == '-' || c == '.'))) {
            assert(!has_uri_scheme(value@)) by {
                if has_uri_scheme(value@) {
                    let w = choose|w: int|
                        0 <= w < value@.len() && value@[w] == ':' && forall|q: int|
                            0 <= q < w ==> #[trigger] value@[q] != ':' && value@[q] != '/' && value@[q] != '?'
                                && value@[q] != '#' && scheme_char(value@[q], q);
                    if w > k {
                        assert(scheme_char(value@[k as int], k as int));
                    }
                }
            }
            return false;
        }
        k = k + 1;
    }
    assert(!has_uri_scheme(value@)) by {
        if has_uri_scheme(value@) {
            let w = choose|w: int|
                0 <= w < value@.len() && value@[w] == ':' && forall|q: int|
                    0 <= q < w ==> #[trigger] value@[q] != ':' && value@[q] != '/' && value@[q] != '?'
                        && value@[q] != '#' && scheme_char(value@[q], q);
            assert(cs@[w] == ':');
        }
    }
    false
}

/// A location with a URI scheme is external; any other is an embedded archive path.
pub open spec fn classify_location(v: Seq<char>) -> LocationView {
    if has_uri_scheme(v) {
        LocationView::External(v)
    } else {
        LocationView::Embedded(v)
    }
}

pub fn classify(value: String) -> (r: ResourceLocation)
    ensures
        r@ == classify_location(value@),
{
    if uri_scheme_present(value.as_str()) {
        ResourceLocation::External(value)
    } else {
        ResourceLocation::Embedded(value)
    }
}

/// The element-name stack ends with `a`, `b`.
pub open spec fn path_ends(stack: Seq<Seq<char>>, a: Seq<char>, b: Seq<char>) -> bool {
    stack.len() >= 2 && stack[stack.len() - 2] == a && stack[stack.len() - 1] == b
}

pub open spec fn texts_of(s: Seq<String>) -> Seq<Seq<char>> {
    s.map_values(|t: String| t@)
}

pub fn stack_ends(stack: &Vec<String>, a: &str, b: &str) -> (r: bool)
    ensures
        r == path_ends(texts_of(stack@), a@, b@),
{
    let n = stack.len();
    if n < 2 {
        return false;
    }
    same_text(stack[n - 2].as_str(), a) && same_text(stack[n - 1].as_str(), b)
}

/// The element `depth` places below the top of the stack is named `name`.
pub open spec fn name_below_top(stack: Seq<Seq<char>>, depth: int, name: Seq<char>) -> bool {
    stack.len() > depth && stack[stack.len() - 1 - depth] == name
}

pub fn stack_name_below_top(stack: &Vec<String>, depth: usize, name: &str) -> (r: bool)
    ensures
        r == name_below_top(texts_of(stack@), depth as int, name@),
{
    let n = stack.len();
    if n <= depth {
        return false;
    }
    same_text(stack[n - 1 - depth].as_str(), name)
}

/// The element stack is exactly `names`.
pub open spec fn is_stack(stack: Seq<Seq<char>>, names: Seq<&str>) -> bool {
    stack == names.map_values(|s: &str| s@)
}

/// The stack is exactly `names`.
pub fn stack_is(stack: &Vec<String>, names: &[&str]) -> (r: bool)
    ensures
        r == is_stack(texts_of(stack@), names@),
{
    let ghost want = names@.map_values(|s: &str| s@);
    if stack.len() != names.len() {
        assert(texts_of(stack@).len() != want.len());
        return false;
    }
    let mut i: usize = 0;
    while i < stack.len()
        invariant
            i <= stack@.len(),
            stack@.len() == names@.len(),
            want == names@.map_values(|s: &str| s@),
            forall|j: int| 0 <= j < i ==> texts_of(stack@)[j] == want[j],
        decreases stack@.len() - i,
    {
        assert(texts_of(stack@)[i as int] == stack@[i as int]@);
        assert(want[i as int] == names@[i as int]@);
        if !same_text(stack[i].as_str(), names[i]) {
            return false;
        }
        i = i + 1;
    }
    assert(texts_of(stack@) =~= want);
    true
}

/// The stack name of an element: its local name if it is in the standard
/// namespace, otherwise the local name after a NUL, so that an extension
/// element can never stand for a standard one.
pub open spec fn stack_name(local: Seq<char>, standard: bool) -> Seq<char> {
    if standard {
        local
    } else {
        seq!['\0'] + local
    }
}

pub fn make_stack_name(local: String, standard: bool) -> (r: String)
    ensures
        r@ == stack_name(local@, standard),
{
    if standard {
        local
    } else {
        let r = crate::text::concat("\0", local.as_str());
        proof { reveal_strlit("\0"); }
        r
    }
}

/// The character a general reference stands for: a character reference, or
/// one of the five predefined entities; other names are refused, as is a
/// character that XML 1.0 forbids.
pub open spec fn reference_value(character: Result<Option<char>, Seq<char>>, name: Result<Seq<char>, Seq<char>>) -> Result<char, Seq<char>> {
    let resolved: Result<char, Seq<char>> = match character {
        Err(m) => Err(m),
        Ok(Some(c)) => Ok(c),
        Ok(None) => match name {
            Err(m) => Err(m),
            Ok(n) => if n == "lt"@ {
                Ok('<')
            } else if n == "gt"@ {
                Ok('>')
            } else if n == "amp"@ {
                Ok('&')
            } else if n == "apos"@ {
                Ok('\'')
            } else if n == "quot"@ {
                Ok('"')
            } else {
                Err("undeclared entity reference &"@ + n + ";"@)
            },
        },
    };
    match resolved {
        Ok(c) => if is_xml_char(c) {
            Ok(c)
        } else {
            Err("entity reference resolves to a character forbidden by XML 1.0"@)
        },
        Err(m) => Err(m),
    }
}

pub fn resolve_reference(character: &Result<Option<char>, String>, name: &Result<String, String>) -> (r: Result<char, String>)
    ensures
        match r {
            Ok(c) => reference_value(char_result(*character), text_result(*name)) == Ok::<char, Seq<char>>(c),
            Err(m) => reference_value(char_result(*character), text_result(*name)) == Err::<char, Seq<char>>(m@),
        },
{
    let c = match character {
        Err(m) => {
            return Err(m.clone());
        },
        Ok(Some(c)) => *c,
        Ok(None) => match name {
            Err(m) => {
                return Err(m.clone());
            },
            Ok(n) => {
                if same_text(n.as_str(), "lt") {
                    '<'
                } else if same_text(n.as_str(), "gt") {
                    '>'
                } else if same_text(n.as_str(), "amp") {
                    '&'
                } else if same_text(n.as_str(), "apos") {
                    '\''
                } else if same_text(n.as_str(), "quot") {
                    '"'
                } else {
                    let mut m = String::from_str("undeclared entity reference &");
                    m.append(n.as_str());
                    m.append(";");
                    return Err(m);
                }
            },
        },
    };
    if xml_char(c) {
        Ok(c)
    } else {
        Err(String::from_str("entity reference resolves to a character forbidden by XML 1.0"))
    }
}

/// The stack holds exactly the one name `name`.
pub fn stack_is_one(stack: &Vec<String>, name: &str) -> (r: bool)
    ensures
        r == is_stack(texts_of(stack@), seq![name]),
{
    let ghost want = seq![name].map_values(|s: &str| s@);
    assert(want =~= seq![name@]);
    if stack.len() != 1 {
        assert(texts_of(stack@).len() != want.len());
        return false;
    }
    let r = same_text(stack[0].as_str(), name);
    assert(texts_of(stack@)[0] == stack@[0]@);
    if r {
        assert(texts_of(stack@) =~= want);
    }
    r
}

/// The positions at which standard elements may stand in `MultiModel.xml`.
pub open spec fn valid_multimodel_path(stack: Seq<Seq<char>>) -> bool {
    ||| is_stack(stack, seq!["MultiModel"])
    ||| is_stack(stack, seq!["MultiModel", "MetaData"])
    ||| is_stack(stack, seq!["MultiModel", "MetaData", "Meta"])
    ||| is_stack(stack, seq!["MultiModel", "ApplicationModels"])
    ||| is_stack(stack, seq!["MultiModel", "ApplicationModels", "ApplicationModel"])
    ||| is_stack(stack, seq!["MultiModel", "ApplicationModels", "ApplicationModel", "MetaData"])
    ||| is_stack(stack, seq!["MultiModel", "ApplicationModels", "ApplicationModel", "MetaData", "Meta"])
    ||| is_stack(stack, seq!["MultiModel", "ApplicationModels", "ApplicationModel", "ModelData"])
    ||| is_stack(stack, seq!["MultiModel", "ApplicationModels", "ApplicationModel", "ModelData", "MetaData"])
    ||| is_stack(
        stack,
        seq!["MultiModel", "ApplicationModels", "ApplicationModel", "ModelData", "MetaData", "Meta"],
    )
    ||| is_stack(stack, seq!["MultiModel", "ApplicationModels", "ApplicationModel", "ModelData", "DataRessource"])
    ||| is_stack(
        stack,
        seq!["MultiModel", "ApplicationModels", "ApplicationModel", "ModelData", "DataRessource", "MetaData"],
    )
    ||| is_stack(
        stack,
        seq!["MultiModel", "ApplicationModels", "ApplicationModel", "ModelData", "DataRessource", "MetaData", "Meta"],
    )
    ||| is_stack(stack, seq!["MultiModel", "LinkModels"])
    ||| is_stack(stack, seq!["MultiModel", "LinkModels", "LinkModel"])
    ||| is_stack(stack, seq!["MultiModel", "LinkModels", "LinkModel", "MetaData"])
    ||| is_stack(stack, seq!["MultiModel", "LinkModels", "LinkModel", "MetaData", "Meta"])
    ||| is_stack(stack, seq!["MultiModel", "LinkModels", "LinkModel", "LinkedModel"])
}

pub fn multimodel_path_ok(stack: &Vec<String>) -> (r: bool)
    ensures
        r == valid_multimodel_path(texts_of(stack@)),
{
    let ghost t = texts_of(stack@);
    let b0 = stack_is_one(stack, "MultiModel");
    assert(b0 == is_stack(t, seq!["MultiModel"]));
    let b1 = stack_is(stack, &["MultiModel", "MetaData"]);
    assert(b1 == is_stack(t, seq!["MultiModel", "MetaData"]));
    let b2 = stack_is(stack, &["MultiModel", "MetaData", "Meta"]);
    assert(b2 == is_stack(t, seq!["MultiModel", "MetaData", "Meta"]));
    let b3 = stack_is(stack, &["MultiModel", "ApplicationModels"]);
    assert(b3 == is_stack(t, seq!["MultiModel", "ApplicationModels"]));
    let b4 = stack_is(stack, &["MultiModel", "ApplicationModels", "ApplicationModel"]);
    assert(b4 == is_stack(t, seq!["MultiModel", "ApplicationModels", "ApplicationModel"]));
    let b5 = stack_is(stack, &["MultiModel", "ApplicationModels", "ApplicationModel", "MetaData"]);
    assert(b5 == is_stack(t, seq!["MultiModel", "ApplicationModels", "ApplicationModel", "MetaData"]));
    let b6 = stack_is(stack, &["MultiModel", "ApplicationModels", "ApplicationModel", "MetaData", "Meta"]);
    assert(b6 == is_stack(t, seq!["MultiModel", "ApplicationModels", "ApplicationModel", "MetaData", "Meta"]));
    let b7 = stack_is(stack, &["MultiModel", "ApplicationModels", "ApplicationModel", "ModelData"]);
    assert(b7 == is_stack(t, seq!["MultiModel", "ApplicationModels", "ApplicationModel", "ModelData"]));
    let b8 = stack_is(stack, &["MultiModel", "ApplicationModels", "ApplicationModel", "ModelData", "MetaData"]);
    assert(b8 == is_stack(t, seq!["MultiModel", "ApplicationModels", "ApplicationModel", "ModelData", "MetaData"]));
    let b9 = stack_is(stack, &["MultiModel", "ApplicationModels", "ApplicationModel", "ModelData", "MetaData", "Meta"]);
    assert(b9 == is_stack(t, seq!["MultiModel", "ApplicationModels", "ApplicationModel", "ModelData", "MetaData", "Meta"]));
    let b10 = stack_is(stack, &["MultiModel", "ApplicationModels", "ApplicationModel", "ModelData", "DataRessource"]);
    assert(b10 == is_stack(t, seq!["MultiModel", "ApplicationModels", "ApplicationModel", "ModelData", "DataRessource"]));
    let b11 = stack_is(stack, &["MultiModel", "ApplicationModels", "ApplicationModel", "ModelData", "DataRessource", "MetaData"]);
    assert(b11 == is_stack(t, seq!["MultiModel", "ApplicationModels", "ApplicationModel", "ModelData", "DataRessource", "MetaData"]));
    let b12 = stack_is(stack, &["MultiModel", "ApplicationModels", "ApplicationModel", "ModelData", "DataRessource", "MetaData", "Meta"]);
    assert(b12 == is_stack(t, seq!["MultiModel", "ApplicationModels", "ApplicationModel", "ModelData", "DataRessource", "MetaData", "Meta"]));
    let b13 = stack_is(stack, &["MultiModel", "LinkModels"]);
    assert(b13 == is_stack(t, seq!["MultiModel", "LinkModels"]));
    let b14 = stack_is(stack, &["MultiModel", "LinkModels", "LinkModel"]);
    assert(b14 == is_stack(t, seq!["MultiModel", "LinkModels", "LinkModel"]));
    let b15 = stack_is(stack, &["MultiModel", "LinkModels", "LinkModel", "MetaData"]);
    assert(b15 == is_stack(t, seq!["MultiModel", "LinkModels", "LinkModel", "MetaData"]));
    let b16 = stack_is(stack, &["MultiModel", "LinkModels", "LinkModel", "MetaData", "Meta"]);
    assert(b16 == is_stack(t, seq!["MultiModel", "LinkModels", "LinkModel", "MetaData", "Meta"]));
    let b17 = stack_is(stack, &["MultiModel", "LinkModels", "LinkModel", "LinkedModel"]);
    assert(b17 == is_stack(t, seq!["MultiModel", "LinkModels", "LinkModel", "LinkedModel"]));
    b0 || b1 || b2 || b3 || b4 || b5 || b6 || b7 || b8 || b9 || b10 || b11 || b12 || b13 || b14 || b15 || b16 || b17
}

/// The positions at which standard elements may stand in a LinkModel document.
pub open spec fn valid_link_path(stack: Seq<Seq<char>>) -> bool {
    ||| is_stack(stack, seq!["LinkModel"])
    ||| is_stack(stack, seq!["LinkModel", "MetaData"])
    ||| is_stack(stack, seq!["LinkModel", "MetaData", "Meta"])
    ||| is_stack(stack, seq!["LinkModel", "Link"])
    ||| is_stack(stack, seq!["LinkModel", "Link", "MetaData"])
    ||| is_stack(stack, seq!["LinkModel", "Link", "MetaData", "Meta"])
    ||| is_stack(stack, seq!["LinkModel", "Link", "Relatum"])
    ||| is_stack(stack, seq!["LinkModel", "Link", "Relatum", "MetaData"])
    ||| is_stack(stack, seq!["LinkModel", "Link", "Relatum", "MetaData", "Meta"])
    ||| is_stack(stack, seq!["LinkModel", "Link", "Relatum", "Rate"])
}

pub fn link_path_ok(stack: &Vec<String>) -> (r: bool)
    ensures
        r == valid_link_path(texts_of(stack@)),
{
    let ghost t = texts_of(stack@);
    let b0 = stack_is_one(stack, "LinkModel");
    assert(b0 == is_stack(t, seq!["LinkModel"]));
    let b1 = stack_is(stack, &["LinkModel", "MetaData"]);
    assert(b1 == is_stack(t, seq!["LinkModel", "MetaData"]));
    let b2 = stack_is(stack, &["LinkModel", "MetaData", "Meta"]);
    assert(b2 == is_stack(t, seq!["LinkModel", "MetaData", "Meta"]));
    let b3 = stack_is(stack, &["LinkModel", "Link"]);
    assert(b3 == is_stack(t, seq!["LinkModel", "Link"]));
    let b4 = stack_is(stack, &["LinkModel", "Link", "MetaData"]);
    assert(b4 == is_stack(t, seq!["LinkModel", "Link", "MetaData"]));
    let b5 = stack_is(stack, &["LinkModel", "Link", "MetaData", "Meta"]);
    assert(b5 == is_stack(t, seq!["LinkModel", "Link", "MetaData", "Meta"]));
    let b6 = stack_is(stack, &["LinkModel", "Link", "Relatum"]);
    assert(b6 == is_stack(t, seq!["LinkModel", "Link", "Relatum"]));
    let b7 = stack_is(stack, &["LinkModel", "Link", "Relatum", "MetaData"]);
    assert(b7 == is_stack(t, seq!["LinkModel", "Link", "Relatum", "MetaData"]));
    let b8 = stack_is(stack, &["LinkModel", "Link", "Relatum", "MetaData", "Meta"]);
    assert(b8 == is_stack(t, seq!["LinkModel", "Link", "Relatum", "MetaData", "Meta"]));
    let b9 = stack_is(stack, &["LinkModel", "Link", "Relatum", "Rate"]);
    assert(b9 == is_stack(t, seq!["LinkModel", "Link", "Relatum", "Rate"]));
    b0 || b1 || b2 || b3 || b4 || b5 || b6 || b7 || b8 || b9
}

/// Some element on the stack is an extension element (see `stack_name`):
/// the standard elements inside it belong to the extension.
pub open spec fn extension_ancestor(stack: Seq<Seq<char>>) -> bool {
    exists|i: int| 0 <= i < stack.len() && stack[i].len() > 0 && #[trigger] stack[i][0] == '\0'
}

pub fn inside_extension(stack: &Vec<String>) -> (r: bool)
    ensures
        r == extension_ancestor(texts_of(stack@)),
{
    let ghost t = texts_of(stack@);
    let mut i: usize = 0;
    while i < stack.len()
        invariant
            i <= stack@.len(),
            t == texts_of(stack@),
            forall|j: int| 0 <= j < i ==> !(t[j].len() > 0 && t[j][0] == '\0'),
        decreases stack@.len() - i,
    {
        let name = crate::text::chars_of(stack[i].as_str());
        assert(t[i as int] == stack@[i as int]@);
        if name.len() > 0 && name[0] == '\0' {
            assert(t[i as int][0] == '\0');
            return true;
        }
        i = i + 1;
    }
    false
}

} // verus!
