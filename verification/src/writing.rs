//! Deterministic re-emission: entries in path order, deflated, with one
//! fixed file mode.

use vstd::prelude::*;

use crate::text::chars_of;
use vstd::multiset::Multiset;
use crate::validation::{compare_text, lemma_text_order, lemma_text_order_trans, text_order};
use crate::zip_io::record_views;

verus! {

broadcast use {
    vstd::seq_lib::to_multiset_build,
    vstd::seq_lib::to_multiset_insert,
    vstd::seq_lib::to_multiset_len,
    vstd::multiset::lemma_multiset_empty_len,
    vstd::seq_lib::to_multiset_contains,
    vstd::seq_lib::to_multiset_remove,
};

/// The Unix mode of every written entry: a regular file, `rw-r--r--`.
pub const ENTRY_PERMISSIONS: u32 = 0o100644u32;

/// `s` is in path order.
pub open spec fn records_sorted(s: Seq<(Seq<char>, Seq<u8>)>) -> bool {
    forall|i: int, j: int| 0 <= i < j < s.len() ==> text_order(s[i].0, s[j].0) <= 0
}

/// `s` holds the records of `records`, in path order.
pub open spec fn in_path_order(s: Seq<(Seq<char>, Seq<u8>)>, records: Seq<(Seq<char>, Seq<u8>)>) -> bool {
    records_sorted(s) && s.to_multiset() == records.to_multiset()
}

fn compare_names(a: &String, b: &String) -> (r: i8)
    ensures
        r == text_order(a@, b@),
{
    let x = chars_of(a.as_str());
    let y = chars_of(b.as_str());
    compare_text(&x, &y)
}

/// Puts `(path, bytes)` records in path order (an insertion sort).
pub fn sort_records(input: Vec<(String, Vec<u8>)>) -> (out: Vec<(String, Vec<u8>)>)
    ensures
        in_path_order(record_views(out@), record_views(input@)),
{
    let mut rest = input;
    let mut out: Vec<(String, Vec<u8>)> = Vec::new();
    proof {
        assert(record_views(out@) =~= Seq::<(Seq<char>, Seq<u8>)>::empty());
        assert(record_views(out@).to_multiset().len() == 0);
        assert(record_views(out@).to_multiset() =~= Multiset::<(Seq<char>, Seq<u8>)>::empty());
    }
    while rest.len() > 0
        invariant
            records_sorted(record_views(out@)),
            record_views(out@).to_multiset().add(record_views(rest@).to_multiset()) == record_views(
                input@,
            ).to_multiset(),
        decreases rest@.len(),
    {
        let ghost before_rest = rest@;
        let ghost before_out = out@;
        let x = rest.pop().unwrap();
        proof {
            assert(before_rest =~= rest@.push(x));
            assert(record_views(before_rest) =~= record_views(rest@).push((x.0@, x.1@)));
        }
        let mut p: usize = 0;
        while p < out.len() && compare_names(&out[p].0, &x.0) <= 0
            invariant
                p <= out@.len(),
                out@ == before_out,
                forall|q: int| 0 <= q < p ==> text_order(out@[q].0@, x.0@) <= 0,
            decreases out@.len() - p,
        {
            p = p + 1;
        }
        let ghost sorted_before = record_views(out@);
        let ghost xv = (x.0@, x.1@);
        out.insert(p, x);
        proof {
            assert(record_views(out@) =~= sorted_before.insert(p as int, xv));
            let s = record_views(out@);
            assert forall|i: int, j: int| 0 <= i < j < s.len() implies text_order(s[i].0, s[j].0) <= 0 by {
                if j == p {
                    assert(s[i] == sorted_before[i]);
                } else if i == p {
                    assert(p < sorted_before.len());
                    assert(text_order(sorted_before[p as int].0, xv.0) > 0);
                    lemma_text_order(sorted_before[p as int].0, xv.0);
                    assert(s[j] == sorted_before[j - 1]);
                    if j - 1 > p {
                        assert(text_order(sorted_before[p as int].0, sorted_before[j - 1].0) <= 0);
                        lemma_text_order_trans(xv.0, sorted_before[p as int].0, sorted_before[j - 1].0);
                    }
                } else if i < p && j < p {
                } else if i < p && j > p {
                    assert(s[j] == sorted_before[j - 1]);
                } else {
                    assert(s[i] == sorted_before[i - 1]);
                    assert(s[j] == sorted_before[j - 1]);
                }
            }
        }
    }
    proof {
        assert(record_views(rest@) =~= Seq::<(Seq<char>, Seq<u8>)>::empty());
        assert(record_views(rest@).to_multiset().len() == 0);
        assert(record_views(rest@).to_multiset() =~= Multiset::<(Seq<char>, Seq<u8>)>::empty());
        assert(record_views(out@).to_multiset().add(Multiset::empty()) =~= record_views(out@).to_multiset());
    }
    out
}

/// Records with the same name are the same record.
pub open spec fn names_determine(s: Seq<(Seq<char>, Seq<u8>)>) -> bool {
    forall|a: (Seq<char>, Seq<u8>), b: (Seq<char>, Seq<u8>)|
        #![trigger s.contains(a), s.contains(b)]
        s.contains(a) && s.contains(b) && a.0 == b.0 ==> a == b
}

/// Path order is unique: two arrangements of the same records in path
/// order are equal, when records with the same name are the same record.
pub proof fn law_path_order_unique(s1: Seq<(Seq<char>, Seq<u8>)>, s2: Seq<(Seq<char>, Seq<u8>)>)
    requires
        records_sorted(s1),
        records_sorted(s2),
        s1.to_multiset() == s2.to_multiset(),
        names_determine(s1),
    ensures
        s1 == s2,
    decreases s1.len(),
{
    assert(s1.len() == s1.to_multiset().len());
    assert(s2.len() == s2.to_multiset().len());
    if s1.len() == 0 {
        assert(s1 =~= s2);
    } else {
        let x = s1[0];
        let y = s2[0];
        assert(s1.contains(x));
        assert(s1.to_multiset().count(x) > 0);
        assert(s2.contains(x));
        let k = choose|k: int| 0 <= k < s2.len() && s2[k] == x;
        if k > 0 {
            assert(text_order(s2[0].0, s2[k].0) <= 0);
        } else {
            lemma_text_order(y.0, x.0);
        }
        assert(s2.contains(y));
        assert(s2.to_multiset().count(y) > 0);
        assert(s1.contains(y));
        let m = choose|m: int| 0 <= m < s1.len() && s1[m] == y;
        if m > 0 {
            assert(text_order(s1[0].0, s1[m].0) <= 0);
        } else {
            lemma_text_order(x.0, y.0);
        }
        lemma_text_order(x.0, y.0);
        assert(x.0 == y.0);
        assert(x == y);
        let r1 = s1.drop_first();
        let r2 = s2.drop_first();
        assert(s1.remove(0) =~= r1);
        assert(s2.remove(0) =~= r2);
        assert(r1.to_multiset() == s1.to_multiset().remove(x));
        assert(r2.to_multiset() == s2.to_multiset().remove(y));
        assert forall|i: int, j: int| 0 <= i < j < r1.len() implies text_order(r1[i].0, r1[j].0) <= 0 by {
            assert(r1[i] == s1[i + 1] && r1[j] == s1[j + 1]);
        }
        assert forall|i: int, j: int| 0 <= i < j < r2.len() implies text_order(r2[i].0, r2[j].0) <= 0 by {
            assert(r2[i] == s2[i + 1] && r2[j] == s2[j + 1]);
        }
        assert forall|a: (Seq<char>, Seq<u8>), b: (Seq<char>, Seq<u8>)|
            r1.contains(a) && r1.contains(b) && a.0 == b.0 implies a == b by {
            let ia = choose|i: int| 0 <= i < r1.len() && r1[i] == a;
            let ib = choose|i: int| 0 <= i < r1.len() && r1[i] == b;
            assert(s1[ia + 1] == a && s1[ib + 1] == b);
            assert(s1.contains(a) && s1.contains(b));
        }
        law_path_order_unique(r1, r2);
        assert(s1 =~= seq![x] + r1);
        assert(s2 =~= seq![y] + r2);
    }
}

} // verus!
