//! Structural and referential-integrity reporting.

use vstd::prelude::*;

use crate::text::{chars_of, debug_str, str_debug_text};
use vstd::multiset::Multiset;

verus! {

broadcast use {
    vstd::seq_lib::to_multiset_build,
    vstd::seq_lib::to_multiset_insert,
    vstd::seq_lib::to_multiset_len,
    vstd::multiset::lemma_multiset_empty_len,
    vstd::seq_lib::to_multiset_contains,
    vstd::seq_lib::to_multiset_remove,
};

/// Stable machine-readable conformance issue codes.
#[derive(Debug, Clone, Copy, PartialEq, Eq, Hash, Structural)]
#[non_exhaustive]
pub enum ValidationCode {
    UnsupportedFormatVersion,
    TooFewApplicationModels,
    ApplicationModelMissingRepresentation,
    ModelDataMissingResource,
    LinkModelHasNoLinks,
    DuplicateModelId,
    DuplicateRepresentationId,
    DuplicateResourceId,
    DuplicateMetadataKey,
    DuplicateLinkModelLocation,
    InvalidResourceLocation,
    MissingEmbeddedResource,
    MissingEmbeddedLinkModel,
    TooFewLinkedModels,
    UnknownModelReference,
    UnknownRepresentationReference,
    UnknownResourceReference,
    MissingRepresentationDisambiguator,
    MissingResourceDisambiguator,
    LinkHasTooFewRelata,
    LinkHasTooFewModels,
    RateTargetsUnknownModel,
}

/// The position of the code's name among all code names in alphabetical
/// order; reports order codes by their names.
pub open spec fn code_rank(code: ValidationCode) -> int {
    match code {
        ValidationCode::ApplicationModelMissingRepresentation => 0,
        ValidationCode::DuplicateLinkModelLocation => 1,
        ValidationCode::DuplicateMetadataKey => 2,
        ValidationCode::DuplicateModelId => 3,
        ValidationCode::DuplicateRepresentationId => 4,
        ValidationCode::DuplicateResourceId => 5,
        ValidationCode::InvalidResourceLocation => 6,
        ValidationCode::LinkHasTooFewModels => 7,
        ValidationCode::LinkHasTooFewRelata => 8,
        ValidationCode::LinkModelHasNoLinks => 9,
        ValidationCode::MissingEmbeddedLinkModel => 10,
        ValidationCode::MissingEmbeddedResource => 11,
        ValidationCode::MissingRepresentationDisambiguator => 12,
        ValidationCode::MissingResourceDisambiguator => 13,
        ValidationCode::ModelDataMissingResource => 14,
        ValidationCode::RateTargetsUnknownModel => 15,
        ValidationCode::TooFewApplicationModels => 16,
        ValidationCode::TooFewLinkedModels => 17,
        ValidationCode::UnknownModelReference => 18,
        ValidationCode::UnknownRepresentationReference => 19,
        ValidationCode::UnknownResourceReference => 20,
        ValidationCode::UnsupportedFormatVersion => 21,
    }
}

fn rank_of(code: ValidationCode) -> (r: u8)
    ensures
        r == code_rank(code),
{
    match code {
        ValidationCode::ApplicationModelMissingRepresentation => 0,
        ValidationCode::DuplicateLinkModelLocation => 1,
        ValidationCode::DuplicateMetadataKey => 2,
        ValidationCode::DuplicateModelId => 3,
        ValidationCode::DuplicateRepresentationId => 4,
        ValidationCode::DuplicateResourceId => 5,
        ValidationCode::InvalidResourceLocation => 6,
        ValidationCode::LinkHasTooFewModels => 7,
        ValidationCode::LinkHasTooFewRelata => 8,
        ValidationCode::LinkModelHasNoLinks => 9,
        ValidationCode::MissingEmbeddedLinkModel => 10,
        ValidationCode::MissingEmbeddedResource => 11,
        ValidationCode::MissingRepresentationDisambiguator => 12,
        ValidationCode::MissingResourceDisambiguator => 13,
        ValidationCode::ModelDataMissingResource => 14,
        ValidationCode::RateTargetsUnknownModel => 15,
        ValidationCode::TooFewApplicationModels => 16,
        ValidationCode::TooFewLinkedModels => 17,
        ValidationCode::UnknownModelReference => 18,
        ValidationCode::UnknownRepresentationReference => 19,
        ValidationCode::UnknownResourceReference => 20,
        ValidationCode::UnsupportedFormatVersion => 21,
    }
}

/// One deterministic conformance finding.
#[derive(Debug, Clone, PartialEq, Eq)]
pub struct ValidationIssue {
    pub code: ValidationCode,
    pub location: String,
    pub message: String,
}

/// The mathematical value of a finding.
pub struct IssueView {
    pub code: ValidationCode,
    pub location: Seq<char>,
    pub message: Seq<char>,
}

impl View for ValidationIssue {
    type V = IssueView;

    open spec fn view(&self) -> IssueView {
        IssueView { code: self.code, location: self.location@, message: self.message@ }
    }
}

/// A finding with the given code, location and message.
pub open spec fn issue(code: ValidationCode, location: Seq<char>, message: Seq<char>) -> IssueView {
    IssueView { code, location, message }
}

/// The views of a list of findings.
pub open spec fn issue_views(s: Seq<ValidationIssue>) -> Seq<IssueView> {
    s.map_values(|i: ValidationIssue| i@)
}

/// Lexicographic comparison of two texts by code point: negative, zero or positive.
pub open spec fn text_order(a: Seq<char>, b: Seq<char>) -> int
    decreases a.len(),
{
    if a.len() == 0 {
        if b.len() == 0 {
            0
        } else {
            -1
        }
    } else if b.len() == 0 {
        1
    } else if a[0] < b[0] {
        -1
    } else if a[0] > b[0] {
        1
    } else {
        text_order(a.drop_first(), b.drop_first())
    }
}

/// Report order: by location, then by code name, then by message.
pub open spec fn issue_order(a: IssueView, b: IssueView) -> int {
    let by_location = text_order(a.location, b.location);
    if by_location != 0 {
        by_location
    } else if code_rank(a.code) < code_rank(b.code) {
        -1
    } else if code_rank(a.code) > code_rank(b.code) {
        1
    } else {
        text_order(a.message, b.message)
    }
}

/// `s` is in report order.
pub open spec fn issues_sorted(s: Seq<IssueView>) -> bool {
    forall|i: int, j: int| 0 <= i < j < s.len() ==> issue_order(s[i], s[j]) <= 0
}

pub proof fn lemma_text_order(a: Seq<char>, b: Seq<char>)
    ensures
        text_order(a, b) == -text_order(b, a),
        -1 <= text_order(a, b) <= 1,
        text_order(a, b) == 0 <==> a == b,
    decreases a.len(),
{
    if a.len() > 0 && b.len() > 0 && a[0] == b[0] {
        lemma_text_order(a.drop_first(), b.drop_first());
        if a.drop_first() == b.drop_first() {
            assert(a =~= seq![a[0]] + a.drop_first());
            assert(b =~= seq![b[0]] + b.drop_first());
        }
    } else if a.len() == 0 && b.len() == 0 {
        assert(a =~= b);
    }
}

pub proof fn lemma_text_order_trans(a: Seq<char>, b: Seq<char>, c: Seq<char>)
    requires
        text_order(a, b) <= 0,
        text_order(b, c) <= 0,
    ensures
        text_order(a, c) <= 0,
    decreases a.len(),
{
    if a.len() > 0 && b.len() > 0 && c.len() > 0 && a[0] == b[0] && b[0] == c[0] {
        lemma_text_order_trans(a.drop_first(), b.drop_first(), c.drop_first());
    }
}

proof fn lemma_issue_order(a: IssueView, b: IssueView)
    ensures
        issue_order(a, b) == -issue_order(b, a),
        issue_order(a, b) == 0 <==> a == b,
{
    lemma_text_order(a.location, b.location);
    lemma_text_order(a.message, b.message);
}

proof fn lemma_issue_order_trans(a: IssueView, b: IssueView, c: IssueView)
    requires
        issue_order(a, b) <= 0,
        issue_order(b, c) <= 0,
    ensures
        issue_order(a, c) <= 0,
{
    lemma_text_order(a.location, b.location);
    lemma_text_order(b.location, c.location);
    lemma_text_order(a.location, c.location);
    lemma_text_order(a.message, b.message);
    lemma_text_order(b.message, c.message);
    lemma_text_order(a.message, c.message);
    if text_order(a.location, b.location) <= 0 && text_order(b.location, c.location) <= 0 {
        lemma_text_order_trans(a.location, b.location, c.location);
    }
    if text_order(a.message, b.message) <= 0 && text_order(b.message, c.message) <= 0 {
        lemma_text_order_trans(a.message, b.message, c.message);
    }
}

pub fn compare_text(a: &Vec<char>, b: &Vec<char>) -> (r: i8)
    ensures
        r == text_order(a@, b@),
{
    let mut i: usize = 0;
    assert(a@.skip(0) =~= a@);
    assert(b@.skip(0) =~= b@);
    while i < a.len() && i < b.len()
        invariant
            i <= a@.len(),
            i <= b@.len(),
            text_order(a@, b@) == text_order(a@.skip(i as int), b@.skip(i as int)),
        decreases a@.len() - i,
    {
        let x = a[i];
        let y = b[i];
        assert(a@.skip(i as int)[0] == a@[i as int]);
        assert(b@.skip(i as int)[0] == b@[i as int]);
        if x < y {
            return -1;
        }
        if x > y {
            return 1;
        }
        assert(a@.skip(i as int).drop_first() =~= a@.skip(i + 1));
        assert(b@.skip(i as int).drop_first() =~= b@.skip(i + 1));
        i = i + 1;
    }
    if i < a.len() {
        assert(a@.skip(i as int).len() > 0 && b@.skip(i as int).len() == 0);
        1
    } else if i < b.len() {
        assert(a@.skip(i as int).len() == 0 && b@.skip(i as int).len() > 0);
        -1
    } else {
        assert(a@.skip(i as int).len() == 0 && b@.skip(i as int).len() == 0);
        0
    }
}

fn compare_issues(a: &ValidationIssue, b: &ValidationIssue) -> (r: i8)
    ensures
        r == issue_order(a@, b@),
{
    let al = chars_of(a.location.as_str());
    let bl = chars_of(b.location.as_str());
    let by_location = compare_text(&al, &bl);
    if by_location != 0 {
        return by_location;
    }
    let ra = rank_of(a.code);
    let rb = rank_of(b.code);
    if ra < rb {
        return -1;
    }
    if ra > rb {
        return 1;
    }
    let am = chars_of(a.message.as_str());
    let bm = chars_of(b.message.as_str());
    compare_text(&am, &bm)
}

/// Puts findings in report order (a stable insertion sort).
fn sort_issues(input: Vec<ValidationIssue>) -> (out: Vec<ValidationIssue>)
    ensures
        issues_sorted(issue_views(out@)),
        issue_views(out@).to_multiset() == issue_views(input@).to_multiset(),
{
    let mut rest = input;
    let mut out: Vec<ValidationIssue> = Vec::new();
    proof {
        assert(issue_views(out@) =~= Seq::<IssueView>::empty());
        assert(issue_views(out@).to_multiset().len() == 0);
        assert(issue_views(out@).to_multiset() =~= Multiset::<IssueView>::empty());
    }
    while rest.len() > 0
        invariant
            issues_sorted(issue_views(out@)),
            issue_views(out@).to_multiset().add(issue_views(rest@).to_multiset())
                == issue_views(input@).to_multiset(),
        decreases rest@.len(),
    {
        let ghost before_rest = rest@;
        let ghost before_out = out@;
        let x = rest.pop().unwrap();
        proof {
            assert(before_rest =~= rest@.push(x));
            assert(issue_views(before_rest) =~= issue_views(rest@).push(x@));
        }
        let mut p: usize = 0;
        while p < out.len() && compare_issues(&out[p], &x) <= 0
            invariant
                p <= out@.len(),
                out@ == before_out,
                forall|q: int| 0 <= q < p ==> issue_order(out@[q]@, x@) <= 0,
            decreases out@.len() - p,
        {
            p = p + 1;
        }
        let ghost sorted_before = issue_views(out@);
        out.insert(p, x);
        proof {
            assert(issue_views(out@) =~= sorted_before.insert(p as int, x@));
            let s = issue_views(out@);
            assert forall|i: int, j: int| 0 <= i < j < s.len() implies issue_order(s[i], s[j]) <= 0 by {
                if j == p {
                    assert(s[i] == sorted_before[i]);
                } else if i == p {
                    // x is strictly before every element after position p.
                    assert(p < sorted_before.len());
                    assert(issue_order(sorted_before[p as int], x@) > 0);
                    lemma_issue_order(sorted_before[p as int], x@);
                    assert(s[j] == sorted_before[j - 1]);
                    if j - 1 > p {
                        assert(issue_order(sorted_before[p as int], sorted_before[j - 1]) <= 0);
                        lemma_issue_order_trans(x@, sorted_before[p as int], sorted_before[j - 1]);
                    }
                } else if i < p && j < p {
                } else if i < p && j > p {
                    assert(s[j] == sorted_before[j - 1]);
                } else {
                    assert(s[i] == sorted_before[i - 1]);
                    assert(s[j] == sorted_before[j - 1]);
                }
            }
        }
    }
    proof {
        assert(issue_views(rest@) =~= Seq::<IssueView>::empty());
        assert(issue_views(rest@).to_multiset().len() == 0);
        assert(issue_views(rest@).to_multiset() =~= Multiset::<IssueView>::empty());
        assert(issue_views(out@).to_multiset().add(Multiset::empty()) =~= issue_views(out@).to_multiset());
    }
    out
}

/// Complete structural and referential-integrity report for an opened archive.
#[derive(Debug, Clone, PartialEq, Eq)]
pub struct ValidationReport {
    issues: Vec<ValidationIssue>,
}

/// The variant name of a code, as `Debug` writes it.
pub open spec fn code_debug_name(code: ValidationCode) -> Seq<char> {
    match code {
        ValidationCode::UnsupportedFormatVersion => "UnsupportedFormatVersion"@,
        ValidationCode::TooFewApplicationModels => "TooFewApplicationModels"@,
        ValidationCode::ApplicationModelMissingRepresentation => "ApplicationModelMissingRepresentation"@,
        ValidationCode::ModelDataMissingResource => "ModelDataMissingResource"@,
        ValidationCode::LinkModelHasNoLinks => "LinkModelHasNoLinks"@,
        ValidationCode::DuplicateModelId => "DuplicateModelId"@,
        ValidationCode::DuplicateRepresentationId => "DuplicateRepresentationId"@,
        ValidationCode::DuplicateResourceId => "DuplicateResourceId"@,
        ValidationCode::DuplicateMetadataKey => "DuplicateMetadataKey"@,
        ValidationCode::DuplicateLinkModelLocation => "DuplicateLinkModelLocation"@,
        ValidationCode::InvalidResourceLocation => "InvalidResourceLocation"@,
        ValidationCode::MissingEmbeddedResource => "MissingEmbeddedResource"@,
        ValidationCode::MissingEmbeddedLinkModel => "MissingEmbeddedLinkModel"@,
        ValidationCode::TooFewLinkedModels => "TooFewLinkedModels"@,
        ValidationCode::UnknownModelReference => "UnknownModelReference"@,
        ValidationCode::UnknownRepresentationReference => "UnknownRepresentationReference"@,
        ValidationCode::UnknownResourceReference => "UnknownResourceReference"@,
        ValidationCode::MissingRepresentationDisambiguator => "MissingRepresentationDisambiguator"@,
        ValidationCode::MissingResourceDisambiguator => "MissingResourceDisambiguator"@,
        ValidationCode::LinkHasTooFewRelata => "LinkHasTooFewRelata"@,
        ValidationCode::LinkHasTooFewModels => "LinkHasTooFewModels"@,
        ValidationCode::RateTargetsUnknownModel => "RateTargetsUnknownModel"@,
    }
}

fn code_name(code: ValidationCode) -> (r: &'static str)
    ensures
        r@ == code_debug_name(code),
{
    match code {
        ValidationCode::UnsupportedFormatVersion => "UnsupportedFormatVersion",
        ValidationCode::TooFewApplicationModels => "TooFewApplicationModels",
        ValidationCode::ApplicationModelMissingRepresentation => "ApplicationModelMissingRepresentation",
        ValidationCode::ModelDataMissingResource => "ModelDataMissingResource",
        ValidationCode::LinkModelHasNoLinks => "LinkModelHasNoLinks",
        ValidationCode::DuplicateModelId => "DuplicateModelId",
        ValidationCode::DuplicateRepresentationId => "DuplicateRepresentationId",
        ValidationCode::DuplicateResourceId => "DuplicateResourceId",
        ValidationCode::DuplicateMetadataKey => "DuplicateMetadataKey",
        ValidationCode::DuplicateLinkModelLocation => "DuplicateLinkModelLocation",
        ValidationCode::InvalidResourceLocation => "InvalidResourceLocation",
        ValidationCode::MissingEmbeddedResource => "MissingEmbeddedResource",
        ValidationCode::MissingEmbeddedLinkModel => "MissingEmbeddedLinkModel",
        ValidationCode::TooFewLinkedModels => "TooFewLinkedModels",
        ValidationCode::UnknownModelReference => "UnknownModelReference",
        ValidationCode::UnknownRepresentationReference => "UnknownRepresentationReference",
        ValidationCode::UnknownResourceReference => "UnknownResourceReference",
        ValidationCode::MissingRepresentationDisambiguator => "MissingRepresentationDisambiguator",
        ValidationCode::MissingResourceDisambiguator => "MissingResourceDisambiguator",
        ValidationCode::LinkHasTooFewRelata => "LinkHasTooFewRelata",
        ValidationCode::LinkHasTooFewModels => "LinkHasTooFewModels",
        ValidationCode::RateTargetsUnknownModel => "RateTargetsUnknownModel",
    }
}

/// The text `{:?}` gives a finding: the struct with its fields in order.
pub open spec fn issue_debug_text(i: IssueView) -> Seq<char> {
    "ValidationIssue { code: "@ + code_debug_name(i.code) + ", location: "@ + str_debug_text(i.location) + ", message: "@
        + str_debug_text(i.message) + " }"@
}

/// The findings rendered one after another, separated by `, `.
pub open spec fn issue_list_items(s: Seq<IssueView>) -> Seq<char>
    decreases s.len(),
{
    if s.len() == 0 {
        Seq::empty()
    } else if s.len() == 1 {
        issue_debug_text(s[0])
    } else {
        issue_list_items(s.drop_last()) + ", "@ + issue_debug_text(s.last())
    }
}

/// The text `{:?}` gives a list of findings: `[`, the findings, `]`.
pub open spec fn issues_debug_text(s: Seq<IssueView>) -> Seq<char> {
    "["@ + issue_list_items(s) + "]"@
}

/// Renders a list of findings as `{:?}` does (see `issues_debug_text`).
pub fn issues_debug(issues: &[ValidationIssue]) -> (r: String)
    ensures
        r@ == issues_debug_text(issue_views(issues@)),
{
    let ghost v = issue_views(issues@);
    let mut out = String::from_str("[");
    let mut i: usize = 0;
    assert(v.take(0) =~= Seq::<IssueView>::empty());
    while i < issues.len()
        invariant
            i <= issues@.len(),
            v == issue_views(issues@),
            out@ == "["@ + issue_list_items(v.take(i as int)),
        decreases issues@.len() - i,
    {
        let ghost before = out@;
        if i > 0 {
            out.append(", ");
        }
        let issue = &issues[i];
        out.append("ValidationIssue { code: ");
        out.append(code_name(issue.code));
        out.append(", location: ");
        let location = debug_str(issue.location.as_str());
        out.append(location.as_str());
        out.append(", message: ");
        let message = debug_str(issue.message.as_str());
        out.append(message.as_str());
        out.append(" }");
        proof {
            let t = v.take(i + 1);
            assert(t.drop_last() =~= v.take(i as int));
            assert(t.last() == issue@);
            if i == 0 {
                assert(v.take(0) =~= Seq::<IssueView>::empty());
            }
            assert(out@ =~= "["@ + issue_list_items(t));
        }
        i = i + 1;
    }
    out.append("]");
    assert(v.take(i as int) =~= v);
    out
}

impl ValidationReport {
    /// The findings, in report order.
    pub closed spec fn spec_issues(&self) -> Seq<IssueView> {
        issue_views(self.issues@)
    }

    /// A report holding `raw` in report order.
    pub(crate) fn from_findings(raw: Vec<ValidationIssue>) -> (r: Self)
        ensures
            issues_sorted(r.spec_issues()),
            r.spec_issues().to_multiset() == issue_views(raw@).to_multiset(),
    {
        ValidationReport { issues: sort_issues(raw) }
    }

    /// `true` when there are no findings.
    pub fn is_valid(&self) -> (r: bool)
        ensures
            r == (self.spec_issues().len() == 0),
    {
        self.issues.len() == 0
    }

    /// The findings, in report order.
    pub fn issues(&self) -> (r: &[ValidationIssue])
        ensures
            issue_views(r@) == self.spec_issues(),
    {
        self.issues.as_slice()
    }

    /// Whether some finding has the given code.
    pub fn contains(&self, code: ValidationCode) -> (r: bool)
        ensures
            r == exists|i: int| 0 <= i < self.spec_issues().len() && self.spec_issues()[i].code == code,
    {
        let mut i: usize = 0;
        while i < self.issues.len()
            invariant
                i <= self.issues@.len(),
                forall|j: int| 0 <= j < i ==> self.spec_issues()[j].code != code,
            decreases self.issues@.len() - i,
        {
            if self.issues[i].code == code {
                assert(self.spec_issues()[i as int].code == code);
                return true;
            }
            i = i + 1;
        }
        false
    }
}

/// Report order is unique: two arrangements in report order of the same
/// findings are equal.
pub proof fn law_report_order_unique(s1: Seq<IssueView>, s2: Seq<IssueView>)
    requires
        issues_sorted(s1),
        issues_sorted(s2),
        s1.to_multiset() == s2.to_multiset(),
    ensures
        s1 == s2,
    decreases s1.len(),
{
    assert(s1.len() == s1.to_multiset().len());
    assert(s2.len() == s2.to_multiset().len());
    if s1.len() == 0 {
        assert(s1 =~= s2);
    } else {
        let x = s1[0];
        let y = s2[0];
        assert(s1.contains(x));
        assert(s1.to_multiset().count(x) > 0);
        assert(s2.contains(x));
        let k = choose|k: int| 0 <= k < s2.len() && s2[k] == x;
        if k > 0 {
            assert(issue_order(s2[0], s2[k]) <= 0);
        } else {
            lemma_issue_order(y, x);
        }
        assert(s2.contains(y));
        assert(s2.to_multiset().count(y) > 0);
        assert(s1.contains(y));
        let m = choose|m: int| 0 <= m < s1.len() && s1[m] == y;
        if m > 0 {
            assert(issue_order(s1[0], s1[m]) <= 0);
        } else {
            lemma_issue_order(x, y);
        }
        lemma_issue_order(x, y);
        assert(x == y);
        let r1 = s1.drop_first();
        let r2 = s2.drop_first();
        assert(s1.remove(0) =~= r1);
        assert(s2.remove(0) =~= r2);
        assert(r1.to_multiset() == s1.to_multiset().remove(x));
        assert(r2.to_multiset() == s2.to_multiset().remove(y));
        assert forall|i: int, j: int| 0 <= i < j < r1.len() implies issue_order(r1[i], r1[j]) <= 0 by {
            assert(r1[i] == s1[i + 1] && r1[j] == s1[j + 1]);
        }
        assert forall|i: int, j: int| 0 <= i < j < r2.len() implies issue_order(r2[i], r2[j]) <= 0 by {
            assert(r2[i] == s2[i + 1] && r2[j] == s2[j + 1]);
        }
        law_report_order_unique(r1, r2);
        assert(s1 =~= seq![x] + r1);
        assert(s2 =~= seq![y] + r2);
    }
}

} // verus!
