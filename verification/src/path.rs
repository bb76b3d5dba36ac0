//! Archive-path admission policy and the collision key used to detect
//! case-folding or Unicode-normalizing filesystem collisions.

use vstd::prelude::*;

use crate::error::MmcError;
use crate::text::{chars_of, string_from_chars};
use unicode_normalization::UnicodeNormalization;

verus! {

/// Why an archive path is refused.
#[derive(Debug, Clone, Copy, PartialEq, Eq)]
pub enum PathProblem {
    Empty,
    Absolute,
    Backslash,
    TrailingSeparator,
    Nul,
    ReservedCharacter,
    RepeatedSeparator,
    DotComponent,
    WindowsTrimmed,
    ReservedDevice,
}

impl PathProblem {
    /// The stable human-readable reason reported for this problem.
    pub open spec fn spec_reason(self) -> &'static str {
        match self {
            PathProblem::Empty => "empty path",
            PathProblem::Absolute => "absolute path",
            PathProblem::Backslash => "backslash separator",
            PathProblem::TrailingSeparator => "directory or trailing separator",
            PathProblem::Nul => "NUL byte",
            PathProblem::ReservedCharacter => "non-portable or reserved filename character",
            PathProblem::RepeatedSeparator => "repeated separator",
            PathProblem::DotComponent => "dot or traversal component",
            PathProblem::WindowsTrimmed => "Windows-trimmed component",
            PathProblem::ReservedDevice => "reserved Windows device name",
        }
    }

    #[verifier::when_used_as_spec(spec_reason)]
    pub fn reason(self) -> (r: &'static str)
        ensures
            r == self.spec_reason(),
    {
        match self {
            PathProblem::Empty => "empty path",
            PathProblem::Absolute => "absolute path",
            PathProblem::Backslash => "backslash separator",
            PathProblem::TrailingSeparator => "directory or trailing separator",
            PathProblem::Nul => "NUL byte",
            PathProblem::ReservedCharacter => "non-portable or reserved filename character",
            PathProblem::RepeatedSeparator => "repeated separator",
            PathProblem::DotComponent => "dot or traversal component",
            PathProblem::WindowsTrimmed => "Windows-trimmed component",
            PathProblem::ReservedDevice => "reserved Windows device name",
        }
    }
}

/// Unicode general category Cc: U+0000..=U+001F and U+007F..=U+009F.
pub open spec fn is_control_char(c: char) -> bool {
    (c as u32) <= 0x1f || (0x7f <= (c as u32) && (c as u32) <= 0x9f)
}

/// Characters that are not portable in file names.
pub open spec fn is_reserved_char(c: char) -> bool {
    c == '<' || c == '>' || c == ':' || c == '"' || c == '|' || c == '?' || c == '*'
}

/// ASCII upper-casing of one character; other characters are unchanged.
pub open spec fn ascii_upper(c: char) -> u32 {
    if 97 <= (c as u32) && (c as u32) <= 122 {
        ((c as u32) - 32) as u32
    } else {
        c as u32
    }
}

/// `s` equals the upper-case ASCII word `word` after ASCII upper-casing.
pub open spec fn upper_equals(s: Seq<char>, word: Seq<char>) -> bool {
    s.len() == word.len() && forall|i: int| 0 <= i < s.len() ==> ascii_upper(#[trigger] s[i]) == word[i] as u32
}

/// The characters of a component before its first `.`.
pub open spec fn stem(c: Seq<char>) -> Seq<char>
    decreases c.len(),
{
    if c.len() == 0 {
        c
    } else if c[0] == '.' {
        Seq::empty()
    } else {
        seq![c[0]] + stem(c.drop_first())
    }
}

/// Windows device names: CON, PRN, AUX, NUL, COM1..COM9, LPT1..LPT9 (any ASCII case).
pub open spec fn is_reserved_device(s: Seq<char>) -> bool {
    ||| upper_equals(s, seq!['C', 'O', 'N'])
    ||| upper_equals(s, seq!['P', 'R', 'N'])
    ||| upper_equals(s, seq!['A', 'U', 'X'])
    ||| upper_equals(s, seq!['N', 'U', 'L'])
    ||| s.len() == 4 && (upper_equals(s.take(3), seq!['C', 'O', 'M']) || upper_equals(
        s.take(3),
        seq!['L', 'P', 'T'],
    )) && ('1' as u32) <= ascii_upper(s[3]) && ascii_upper(s[3]) <= ('9' as u32)
}

/// The problem of one `/`-separated component, if any.
pub open spec fn component_problem(c: Seq<char>) -> Option<PathProblem> {
    if c.len() == 0 {
        Some(PathProblem::RepeatedSeparator)
    } else if c =~= seq!['.'] || c =~= seq!['.', '.'] {
        Some(PathProblem::DotComponent)
    } else if c.last() == '.' || c.last() == ' ' {
        Some(PathProblem::WindowsTrimmed)
    } else if is_reserved_device(stem(c)) {
        Some(PathProblem::ReservedDevice)
    } else {
        None
    }
}

/// `p` split at every `/`; a path without `/` is one component.
pub open spec fn split_components(p: Seq<char>) -> Seq<Seq<char>>
    decreases p.len(),
{
    if p.len() == 0 {
        seq![Seq::empty()]
    } else {
        let init = split_components(p.drop_last());
        if p.last() == '/' {
            init.push(Seq::empty())
        } else {
            init.update(init.len() - 1, init.last().push(p.last()))
        }
    }
}

/// The problem of the first component that has one.
pub open spec fn first_component_problem(comps: Seq<Seq<char>>) -> Option<PathProblem>
    decreases comps.len(),
{
    if comps.len() == 0 {
        None
    } else {
        match first_component_problem(comps.drop_last()) {
            Some(problem) => Some(problem),
            None => component_problem(comps.last()),
        }
    }
}

/// Why the archive path `p` is refused, or `None` when it is admissible.
pub open spec fn archive_path_problem(p: Seq<char>) -> Option<PathProblem> {
    if p.len() == 0 {
        Some(PathProblem::Empty)
    } else if p[0] == '/' {
        Some(PathProblem::Absolute)
    } else if p.contains('\\') {
        Some(PathProblem::Backslash)
    } else if p.last() == '/' {
        Some(PathProblem::TrailingSeparator)
    } else if p.contains('\0') {
        Some(PathProblem::Nul)
    } else if exists|i: int| 0 <= i < p.len() && (is_control_char(p[i]) || is_reserved_char(p[i])) {
        Some(PathProblem::ReservedCharacter)
    } else {
        first_component_problem(split_components(p))
    }
}

proof fn lemma_split_components_nonempty(p: Seq<char>)
    ensures
        split_components(p).len() >= 1,
    decreases p.len(),
{
    if p.len() > 0 {
        lemma_split_components_nonempty(p.drop_last());
    }
}

fn upper_is(c: char, word_char: char) -> (r: bool)
    requires
        'A' <= word_char <= 'Z' || '0' <= word_char <= '9',
    ensures
        r == (ascii_upper(c) == word_char as u32),
{
    if c == word_char {
        true
    } else if 65 <= (word_char as u32) && (word_char as u32) <= 90 && 97 <= (c as u32) && (c as u32) <= 122 {
        (c as u32) == (word_char as u32) + 32
    } else {
        false
    }
}

fn upper_equals_word3(s: &Vec<char>, a: char, b: char, c: char) -> (r: bool)
    requires
        s@.len() >= 3,
        'A' <= a <= 'Z',
        'A' <= b <= 'Z',
        'A' <= c <= 'Z',
    ensures
        r == upper_equals(s@.take(3), seq![a, b, c]),
{
    let r0 = upper_is(s[0], a);
    let r1 = upper_is(s[1], b);
    let r2 = upper_is(s[2], c);
    let r = r0 && r1 && r2;
    assert(r == upper_equals(s@.take(3), seq![a, b, c])) by {
        assert(s@.take(3)[0] == s@[0]);
        assert(s@.take(3)[1] == s@[1]);
        assert(s@.take(3)[2] == s@[2]);
    }
    r
}

fn reserved_device(s: &Vec<char>) -> (r: bool)
    ensures
        r == is_reserved_device(s@),
{
    if s.len() == 3 {
        assert(s@.take(3) =~= s@);
        let con = upper_equals_word3(s, 'C', 'O', 'N');
        let prn = upper_equals_word3(s, 'P', 'R', 'N');
        let aux = upper_equals_word3(s, 'A', 'U', 'X');
        let nul = upper_equals_word3(s, 'N', 'U', 'L');
        con || prn || aux || nul
    } else if s.len() == 4 {
        let com = upper_equals_word3(s, 'C', 'O', 'M');
        let lpt = upper_equals_word3(s, 'L', 'P', 'T');
        if !(com || lpt) {
            return false;
        }
        let d = s[3];
        let code = d as u32;
        let r = 49 <= code && code <= 57;
        assert(r == (('1' as u32) <= ascii_upper(s@[3]) && ascii_upper(s@[3]) <= ('9' as u32)));
        r
    } else {
        false
    }
}

fn stem_of(c: &Vec<char>) -> (r: Vec<char>)
    ensures
        r@ == stem(c@),
{
    let mut out: Vec<char> = Vec::new();
    let mut i: usize = 0;
    assert(c@.skip(0) =~= c@);
    assert(out@ + stem(c@) =~= stem(c@));
    while i < c.len() && c[i] != '.'
        invariant
            i <= c@.len(),
            stem(c@) == out@ + stem(c@.skip(i as int)),
        decreases c@.len() - i,
    {
        assert(c@.skip(i as int).drop_first() =~= c@.skip(i + 1));
        out.push(c[i]);
        i = i + 1;
    }
    if i < c.len() {
        assert(c@.skip(i as int)[0] == '.');
    } else {
        assert(c@.skip(i as int) =~= Seq::<char>::empty());
    }
    out
}

fn check_component(c: &Vec<char>) -> (r: Option<PathProblem>)
    ensures
        r == component_problem(c@),
{
    let n = c.len();
    if n == 0 {
        return Some(PathProblem::RepeatedSeparator);
    }
    if (n == 1 && c[0] == '.') || (n == 2 && c[0] == '.' && c[1] == '.') {
        return Some(PathProblem::DotComponent);
    }
    assert(!(c@ =~= seq!['.'] || c@ =~= seq!['.', '.'])) by {
        if c@ =~= seq!['.'] {
            assert(c@[0] == '.');
        }
        if c@ =~= seq!['.', '.'] {
            assert(c@[0] == '.' && c@[1] == '.');
        }
    }
    let last = c[n - 1];
    if last == '.' || last == ' ' {
        return Some(PathProblem::WindowsTrimmed);
    }
    let s = stem_of(c);
    if reserved_device(&s) {
        return Some(PathProblem::ReservedDevice);
    }
    None
}

/// Admit or refuse one archive-relative path.
///
/// Refused: empty paths, absolute paths, backslashes, trailing `/`, NUL,
/// control or non-portable characters, and components that are empty, `.`,
/// `..`, end in `.` or space, or name a Windows device.
pub fn validate_archive_path(path: &str) -> (r: Result<(), MmcError>)
    ensures
        archive_path_problem(path@) is None ==> r is Ok,
        archive_path_problem(path@) matches Some(problem) ==> r matches Err(
            MmcError::UnsafeArchivePath { path: p, reason },
        ) && p@ == path@ && reason == problem.spec_reason(),
{
    match path_problem(path) {
        None => Ok(()),
        Some(problem) => Err(MmcError::UnsafeArchivePath { path: path.to_owned(), reason: problem.reason() }),
    }
}

/// Why `path` is refused as an archive path, if it is.
pub fn path_problem(path: &str) -> (r: Option<PathProblem>)
    ensures
        r == archive_path_problem(path@),
{
    let cs = chars_of(path);
    let n = cs.len();
    if n == 0 {
        return Some(PathProblem::Empty);
    }
    if cs[0] == '/' {
        return Some(PathProblem::Absolute);
    }
    let mut backslash = false;
    let mut nul = false;
    let mut reserved = false;
    let mut i: usize = 0;
    while i < n
        invariant
            n == cs@.len(),
            cs@ == path@,
            i <= n,
            backslash == exists|j: int| 0 <= j < i && cs@[j] == '\\',
            nul == exists|j: int| 0 <= j < i && cs@[j] == '\0',
            reserved == exists|j: int|
                0 <= j < i && (is_control_char(cs@[j]) || is_reserved_char(cs@[j])),
        decreases n - i,
    {
        let ch = cs[i];
        if ch == '\\' {
            backslash = true;
        }
        if ch == '\0' {
            nul = true;
        }
        let code = ch as u32;
        if code <= 0x1f || (0x7f <= code && code <= 0x9f) || ch == '<' || ch == '>' || ch == ':'
            || ch == '"' || ch == '|' || ch == '?' || ch == '*' {
            reserved = true;
        }
        i = i + 1;
    }
    if backslash {
        return Some(PathProblem::Backslash);
    }
    if cs[n - 1] == '/' {
        return Some(PathProblem::TrailingSeparator);
    }
    if nul {
        return Some(PathProblem::Nul);
    }
    if reserved {
        return Some(PathProblem::ReservedCharacter);
    }
    // Scan the components left to right; `found` is the first problem among
    // the components that are already complete.
    let mut found: Option<PathProblem> = None;
    let mut current: Vec<char> = Vec::new();
    let mut k: usize = 0;
    proof {
        assert(cs@.take(0) =~= Seq::<char>::empty());
    }
    while k < n
        invariant
            n == cs@.len(),
            k <= n,
            split_components(cs@.take(k as int)).len() >= 1,
            current@ == split_components(cs@.take(k as int)).last(),
            found == first_component_problem(split_components(cs@.take(k as int)).drop_last()),
        decreases n - k,
    {
        let ghost before = split_components(cs@.take(k as int));
        proof {
            assert(cs@.take(k + 1).drop_last() =~= cs@.take(k as int));
            assert(cs@.take(k + 1).last() == cs@[k as int]);
        }
        let ch = cs[k];
        if ch == '/' {
            if found.is_none() {
                found = check_component(&current);
            }
            proof {
                assert(split_components(cs@.take(k + 1)).drop_last() =~= before);
                lemma_split_components_nonempty(cs@.take(k as int));
            }
            current = Vec::new();
            proof {
                assert(split_components(cs@.take(k + 1)).last() =~= Seq::<char>::empty());
            }
        } else {
            current.push(ch);
            proof {
                assert(split_components(cs@.take(k + 1)).drop_last() =~= before.drop_last());
            }
        }
        k = k + 1;
    }
    proof {
        assert(cs@.take(n as int) =~= cs@);
    }
    match found {
        Some(problem) => Some(problem),
        None => check_component(&current),
    }
}

/// The NFKC normal form of `s`, as `unicode_normalization` computes it.
pub uninterp spec fn nfkc_normalized(s: Seq<char>) -> Seq<char>;

/// `UnicodeNormalization::nfkc` from `unicode_normalization`: the characters of
/// the NFKC normal form of `s`. The result is the named NFKC form of the input.
#[verifier::external_body]
fn nfkc_chars(s: &str) -> (r: Vec<char>)
    ensures
        r@ == nfkc_normalized(s@),
{
    s.nfkc().collect()
}

/// The characters that `char::to_lowercase` yields for `c`.
pub uninterp spec fn char_lowercase(c: char) -> Seq<char>;

/// `char::to_lowercase` from std: the full Unicode lower-case mapping of `c`
/// (one to three characters). The result is the named mapping of the input.
#[verifier::external_body]
fn lowercase_of(c: char) -> (r: Vec<char>)
    ensures
        r@ == char_lowercase(c),
{
    c.to_lowercase().collect()
}

/// Lower-cases every character of `s` and concatenates the results.
pub open spec fn lowercase_all(s: Seq<char>) -> Seq<char>
    decreases s.len(),
{
    if s.len() == 0 {
        Seq::empty()
    } else {
        lowercase_all(s.drop_last()) + char_lowercase(s.last())
    }
}

/// The key under which two archive paths collide on case-folding or
/// Unicode-normalizing filesystems: NFKC, then per-character lower case.
pub open spec fn collision_key_of(p: Seq<char>) -> Seq<char> {
    lowercase_all(nfkc_normalized(p))
}

/// Key used only to reject paths that collide on common case-folding or
/// Unicode-normalizing filesystems. The original spelling remains authoritative.
pub fn collision_key(path: &str) -> (key: String)
    ensures
        key@ == collision_key_of(path@),
{
    let normalized = nfkc_chars(path);
    let mut out: Vec<char> = Vec::new();
    let mut i: usize = 0;
    assert(normalized@.take(0) =~= Seq::<char>::empty());
    while i < normalized.len()
        invariant
            i <= normalized@.len(),
            normalized@ == nfkc_normalized(path@),
            out@ == lowercase_all(normalized@.take(i as int)),
        decreases normalized@.len() - i,
    {
        let lower = lowercase_of(normalized[i]);
        let mut j: usize = 0;
        let ghost start = out@;
        while j < lower.len()
            invariant
                j <= lower@.len(),
                out@ == start + lower@.take(j as int),
            decreases lower@.len() - j,
        {
            out.push(lower[j]);
            j = j + 1;
            assert(out@ =~= start + lower@.take(j as int));
        }
        assert(lower@.take(j as int) =~= lower@);
        assert(normalized@.take(i + 1).drop_last() =~= normalized@.take(i as int));
        i = i + 1;
    }
    assert(normalized@.take(i as int) =~= normalized@);
    string_from_chars(out.as_slice())
}

/// The components of `path` before its last one: the directories an entry
/// at `path` lies in.
pub fn ancestor_components(path: &str) -> (r: Vec<String>)
    ensures
        crate::xml_rules::texts_of(r@) == split_components(path@).drop_last(),
{
    let cs = chars_of(path);
    let mut done: Vec<String> = Vec::new();
    let mut current: Vec<char> = Vec::new();
    let mut k: usize = 0;
    assert(cs@.take(0) =~= Seq::<char>::empty());
    assert(crate::xml_rules::texts_of(done@) =~= split_components(cs@.take(0)).drop_last());
    while k < cs.len()
        invariant
            k <= cs@.len(),
            cs@ == path@,
            split_components(cs@.take(k as int)).len() >= 1,
            current@ == split_components(cs@.take(k as int)).last(),
            crate::xml_rules::texts_of(done@) == split_components(cs@.take(k as int)).drop_last(),
        decreases cs@.len() - k,
    {
        let ghost before = split_components(cs@.take(k as int));
        assert(cs@.take(k + 1).drop_last() =~= cs@.take(k as int));
        assert(cs@.take(k + 1).last() == cs@[k as int]);
        let ch = cs[k];
        if ch == '/' {
            let ghost old_done = done@;
            let component = string_from_chars(current.as_slice());
            done.push(component);
            assert(crate::xml_rules::texts_of(done@) =~= crate::xml_rules::texts_of(old_done).push(current@));
            assert(split_components(cs@.take(k + 1)).drop_last() =~= before);
            assert(before =~= before.drop_last().push(before.last()));
            current = Vec::new();
            assert(split_components(cs@.take(k + 1)).last() =~= Seq::<char>::empty());
        } else {
            current.push(ch);
            assert(split_components(cs@.take(k + 1)).drop_last() =~= before.drop_last());
        }
        k = k + 1;
    }
    assert(cs@.take(k as int) =~= cs@);
    done
}


/// The stem is the text of a component before its first `.`: a prefix of
/// the component with no `.` in it, followed by a `.` unless it is the
/// whole component.
pub proof fn lemma_stem(c: Seq<char>)
    ensures
        stem(c).len() <= c.len(),
        stem(c) == c.take(stem(c).len() as int),
        forall|i: int| 0 <= i < stem(c).len() ==> #[trigger] stem(c)[i] != '.',
        stem(c).len() < c.len() ==> c[stem(c).len() as int] == '.',
    decreases c.len(),
{
    if c.len() > 0 && c[0] != '.' {
        lemma_stem(c.drop_first());
        let t = stem(c.drop_first());
        assert(stem(c) == seq![c[0]] + t);
        assert(c.take(stem(c).len() as int) =~= seq![c[0]] + c.drop_first().take(t.len() as int));
        assert forall|i: int| 0 <= i < stem(c).len() implies #[trigger] stem(c)[i] != '.' by {
            if i > 0 {
                assert(stem(c)[i] == t[i - 1]);
            }
        }
        if stem(c).len() < c.len() {
            assert(c[stem(c).len() as int] == c.drop_first()[t.len() as int]);
        }
    } else if c.len() > 0 {
        assert(c.take(0) =~= Seq::<char>::empty());
    }
}

/// A component names a Windows device only by its whole stem: the stem is
/// three characters spelling CON, PRN, AUX or NUL, or four characters
/// spelling COM or LPT and a digit 1-9, in any ASCII case. A stem longer
/// than four characters (such as that of `contract.pdf`) never names a
/// device; and a component that is otherwise admissible and whose stem
/// names a device is refused for it.
pub proof fn law_device_names_whole_stem(c: Seq<char>)
    ensures
        ({
            let s = stem(c);
            &&& component_problem(c) == Some(PathProblem::ReservedDevice) ==> s.len() == 3 || s.len() == 4
            &&& component_problem(c) == Some(PathProblem::ReservedDevice) && s.len() == 3 ==> (ascii_upper(s[0]) == 'C' as u32 && ascii_upper(s[1]) == 'O' as u32 && ascii_upper(s[2]) == 'N' as u32) || (ascii_upper(s[0]) == 'P' as u32 && ascii_upper(s[1]) == 'R' as u32 && ascii_upper(s[2]) == 'N' as u32) || (ascii_upper(s[0]) == 'A' as u32 && ascii_upper(s[1]) == 'U' as u32 && ascii_upper(s[2]) == 'X' as u32) || (ascii_upper(s[0]) == 'N' as u32 && ascii_upper(s[1]) == 'U' as u32 && ascii_upper(s[2]) == 'L' as u32)
            &&& component_problem(c) == Some(PathProblem::ReservedDevice) && s.len() == 4 ==> ((ascii_upper(s[0]) == 'C' as u32 && ascii_upper(s[1]) == 'O' as u32 && ascii_upper(s[2]) == 'M' as u32) || (ascii_upper(s[0]) == 'L' as u32 && ascii_upper(s[1]) == 'P' as u32 && ascii_upper(s[2]) == 'T' as u32))
                && ('1' as u32) <= ascii_upper(s[3]) <= ('9' as u32)
            &&& s.len() > 4 ==> component_problem(c) != Some(PathProblem::ReservedDevice)
            &&& (c.len() > 0 && !(c =~= seq!['.']) && !(c =~= seq!['.', '.']) && c.last() != '.' && c.last() != ' ' && ((
                s.len() == 3 && ((ascii_upper(s[0]) == 'C' as u32 && ascii_upper(s[1]) == 'O' as u32 && ascii_upper(s[2]) == 'N' as u32) || (ascii_upper(s[0]) == 'P' as u32 && ascii_upper(s[1]) == 'R' as u32 && ascii_upper(s[2]) == 'N' as u32) || (ascii_upper(s[0]) == 'A' as u32 && ascii_upper(s[1]) == 'U' as u32 && ascii_upper(s[2]) == 'X' as u32) || (ascii_upper(s[0]) == 'N' as u32 && ascii_upper(s[1]) == 'U' as u32 && ascii_upper(s[2]) == 'L' as u32))) || (s.len() == 4 && ((ascii_upper(s[0]) == 'C' as u32 && ascii_upper(s[1]) == 'O' as u32 && ascii_upper(s[2]) == 'M' as u32) || (ascii_upper(s[0]) == 'L' as u32 && ascii_upper(s[1]) == 'P' as u32 && ascii_upper(s[2]) == 'T' as u32)) && ('1' as u32) <= ascii_upper(s[3])
                <= ('9' as u32)))) ==> component_problem(c) == Some(PathProblem::ReservedDevice)
        }),
{
    let s = stem(c);
    if s.len() == 4 {
        assert(s.take(3)[0] == s[0] && s.take(3)[1] == s[1] && s.take(3)[2] == s[2]);
    }
}

proof fn lemma_first_component_problem(comps: Seq<Seq<char>>)
    ensures
        first_component_problem(comps) matches Some(problem) ==> exists|i: int|
            0 <= i < comps.len() && component_problem(#[trigger] comps[i]) == Some(problem),
        (forall|i: int| 0 <= i < comps.len() ==> component_problem(#[trigger] comps[i]) != Some(PathProblem::ReservedDevice))
            ==> first_component_problem(comps) != Some(PathProblem::ReservedDevice),
    decreases comps.len(),
{
    if comps.len() > 0 {
        let init = comps.drop_last();
        lemma_first_component_problem(init);
        if first_component_problem(init) is Some {
            let i = choose|i: int| 0 <= i < init.len() && component_problem(#[trigger] init[i]) == first_component_problem(init);
            assert(comps[i] == init[i]);
        } else {
            assert(comps[comps.len() - 1] == comps.last());
        }
        assert forall|i: int| 0 <= i < init.len() implies #[trigger] init[i] == comps[i] by {}
    }
}

/// A path is refused as naming a Windows device only for one of its
/// `/`-separated components, whose whole stem names the device (see
/// `law_device_names_whole_stem`); a path none of whose components has a
/// stem of three or four characters is never refused for it.
pub proof fn law_device_paths(p: Seq<char>)
    ensures
        archive_path_problem(p) == Some(PathProblem::ReservedDevice) ==> exists|i: int|
            0 <= i < split_components(p).len() && component_problem(#[trigger] split_components(p)[i])
                == Some(PathProblem::ReservedDevice) && (stem(split_components(p)[i]).len() == 3 || stem(
                split_components(p)[i],
            ).len() == 4),
        (forall|i: int|
            0 <= i < split_components(p).len() ==> stem(#[trigger] split_components(p)[i]).len() != 3 && stem(
                split_components(p)[i],
            ).len() != 4) ==> archive_path_problem(p) != Some(PathProblem::ReservedDevice),
{
    let comps = split_components(p);
    lemma_first_component_problem(comps);
    assert forall|i: int| 0 <= i < comps.len() implies (component_problem(#[trigger] comps[i]) == Some(
        PathProblem::ReservedDevice,
    ) ==> stem(comps[i]).len() == 3 || stem(comps[i]).len() == 4) by {
        law_device_names_whole_stem(comps[i]);
    }
}

} // verus!
