//! Ordered collections of names: sorting a list of names (duplicates kept,
//! as `Vec::sort` keeps them) and keeping a set of names in ascending order.
use vstd::prelude::*;
use crate::text::{lex_le, lex_lt, lemma_lex_asymmetric, lemma_lex_total, lemma_lex_transitive, str_lt};

verus! {

/// Ascending order: no name is followed by a smaller one.
pub open spec fn sorted(s: Seq<Seq<char>>) -> bool {
    forall|i: int, j: int| 0 <= i < j < s.len() ==> lex_le(#[trigger] s[i], #[trigger] s[j])
}

/// Strictly ascending order, so that no name occurs twice.
pub open spec fn strictly_sorted(s: Seq<Seq<char>>) -> bool {
    forall|i: int, j: int| 0 <= i < j < s.len() ==> lex_lt(#[trigger] s[i], #[trigger] s[j])
}

pub proof fn lemma_lex_le_transitive(a: Seq<char>, b: Seq<char>, c: Seq<char>)
    requires
        lex_le(a, b),
        lex_le(b, c),
    ensures
        lex_le(a, c),
{
    if lex_lt(a, b) && lex_lt(b, c) {
        lemma_lex_transitive(a, b, c);
    }
}

/// Two strictly ascending lists that hold the same names are the same list:
/// the order of a set of names is fixed by the names.
pub proof fn lemma_strictly_sorted_unique(a: Seq<Seq<char>>, b: Seq<Seq<char>>)
    requires
        strictly_sorted(a),
        strictly_sorted(b),
        forall|x: Seq<char>| a.contains(x) <==> b.contains(x),
    ensures
        a == b,
    decreases a.len() + b.len(),
{
    if a.len() == 0 {
        if b.len() > 0 {
            assert(b.contains(b[0]));
        }
        assert(a =~= b);
    } else if b.len() == 0 {
        assert(a.contains(a[0]));
    } else {
        // the least names of both lists agree
        assert(a.contains(a[0]));
        assert(b.contains(b[0]));
        let i = choose|i: int| 0 <= i < b.len() && b[i] == a[0];
        let j = choose|j: int| 0 <= j < a.len() && a[j] == b[0];
        if i > 0 {
            assert(lex_lt(b[0], b[i]));
            if j > 0 {
                assert(lex_lt(a[0], a[j]));
                lemma_lex_asymmetric(b[0], a[0]);
            } else {
                lemma_lex_asymmetric(b[0], b[i]);
            }
        }
        assert(a[0] == b[0]);
        let a1 = a.drop_first();
        let b1 = b.drop_first();
        assert forall|x: Seq<char>| a1.contains(x) <==> b1.contains(x) by {
            if a1.contains(x) {
                let k = choose|k: int| 0 <= k < a1.len() && a1[k] == x;
                assert(lex_lt(a[0], a[k + 1]));
                assert(b.contains(x));
                let m = choose|m: int| 0 <= m < b.len() && b[m] == x;
                if m == 0 {
                    lemma_lex_asymmetric(a[0], x);
                }
                assert(b1[m - 1] == x);
            }
            if b1.contains(x) {
                let k = choose|k: int| 0 <= k < b1.len() && b1[k] == x;
                assert(lex_lt(b[0], b[k + 1]));
                assert(a.contains(x));
                let m = choose|m: int| 0 <= m < a.len() && a[m] == x;
                if m == 0 {
                    lemma_lex_asymmetric(b[0], x);
                }
                assert(a1[m - 1] == x);
            }
        }
        lemma_strictly_sorted_unique(a1, b1);
        assert(a =~= seq![a[0]] + a1);
        assert(b =~= seq![b[0]] + b1);
    }
}

/// Puts `x` into the ascending list `v`, after the names that are not
/// greater than it.
pub fn insert_sorted(v: &mut Vec<String>, x: String)
    requires
        sorted(old(v).deep_view()),
    ensures
        sorted(final(v).deep_view()),
        final(v).deep_view().to_multiset() == old(v).deep_view().to_multiset().insert(x@),
{
    let ghost s = v.deep_view();
    let mut pos: usize = 0;
    while pos < v.len() && !str_lt(x.as_str(), v[pos].as_str())
        invariant
            0 <= pos <= v.len(),
            s == v.deep_view(),
            forall|k: int| 0 <= k < pos ==> lex_le(#[trigger] s[k], x@),
        decreases v.len() - pos,
    {
        proof {
            lemma_lex_total(x@, s[pos as int]);
        }
        pos = pos + 1;
    }
    let ghost xv = x@;
    v.insert(pos, x);
    proof {
        broadcast use vstd::seq_lib::group_to_multiset_ensures;

        let t = v.deep_view();
        assert(t =~= s.insert(pos as int, xv));
        assert forall|i: int, j: int| 0 <= i < j < t.len() implies lex_le(
            #[trigger] t[i],
            #[trigger] t[j],
        ) by {
            if j < pos {
                assert(t[i] == s[i] && t[j] == s[j]);
            } else if j == pos {
                assert(t[i] == s[i]);
            } else if i < pos {
                assert(t[i] == s[i] && t[j] == s[j - 1]);
                assert(lex_le(s[i], xv));
                assert(lex_lt(xv, s[pos as int]));
                if pos < j - 1 {
                    assert(lex_le(s[pos as int], s[j - 1]));
                }
                lemma_lex_le_transitive(s[i], xv, s[pos as int]);
                lemma_lex_le_transitive(s[i], s[pos as int], s[j - 1]);
            } else if i == pos {
                assert(t[j] == s[j - 1]);
                assert(lex_lt(xv, s[pos as int]));
                if pos < j - 1 {
                    assert(lex_le(s[pos as int], s[j - 1]));
                }
                lemma_lex_le_transitive(xv, s[pos as int], s[j - 1]);
            } else {
                assert(t[i] == s[i - 1] && t[j] == s[j - 1]);
            }
        }
    }
}

/// The names in ascending order, duplicates kept.
pub fn sort_names(names: Vec<String>) -> (r: Vec<String>)
    ensures
        sorted(r.deep_view()),
        r.deep_view().to_multiset() == names.deep_view().to_multiset(),
{
    let mut out: Vec<String> = Vec::new();
    let ghost s = names.deep_view();
    let mut i: usize = 0;
    proof {
        broadcast use vstd::seq_lib::group_to_multiset_ensures;

        assert(out.deep_view() =~= s.take(0));
    }
    while i < names.len()
        invariant
            0 <= i <= names.len(),
            s == names.deep_view(),
            sorted(out.deep_view()),
            out.deep_view().to_multiset() == s.take(i as int).to_multiset(),
        decreases names.len() - i,
    {
        insert_sorted(&mut out, names[i].clone());
        proof {
            broadcast use vstd::seq_lib::group_to_multiset_ensures;

            assert(s.take(i + 1) =~= s.take(i as int).push(s[i as int]));
        }
        i = i + 1;
    }
    assert(s.take(names.len() as int) =~= s);
    out
}

/// Whether the list holds the name `x`.
pub fn contains_name(v: &Vec<String>, x: &String) -> (r: bool)
    ensures
        r == v.deep_view().contains(x@),
{
    let mut i: usize = 0;
    while i < v.len()
        invariant
            0 <= i <= v.len(),
            forall|k: int| 0 <= k < i ==> v.deep_view()[k] != x@,
        decreases v.len() - i,
    {
        if v[i] == *x {
            assert(v.deep_view()[i as int] == x@);
            return true;
        }
        i = i + 1;
    }
    false
}

/// Adds `x` to the set of names kept in strictly ascending order in `v`.
pub fn insert_unique(v: &mut Vec<String>, x: String)
    requires
        strictly_sorted(old(v).deep_view()),
    ensures
        strictly_sorted(final(v).deep_view()),
        forall|y: Seq<char>|
            final(v).deep_view().contains(y) <==> (old(v).deep_view().contains(y) || y == x@),
{
    let ghost s = v.deep_view();
    let mut pos: usize = 0;
    while pos < v.len() && str_lt(v[pos].as_str(), x.as_str())
        invariant
            0 <= pos <= v.len(),
            s == v.deep_view(),
            forall|k: int| 0 <= k < pos ==> lex_lt(#[trigger] s[k], x@),
        decreases v.len() - pos,
    {
        pos = pos + 1;
    }
    if pos < v.len() && v[pos] == x {
        assert(s[pos as int] == x@);
        assert forall|y: Seq<char>| s.contains(y) <==> (s.contains(y) || y == x@) by {
            if y == x@ {
                assert(s.contains(s[pos as int]));
            }
        }
        return;
    }
    let ghost xv = x@;
    if pos < v.len() {
        proof {
            lemma_lex_total(xv, s[pos as int]);
        }
    }
    v.insert(pos, x);
    proof {
        let t = v.deep_view();
        assert(t =~= s.insert(pos as int, xv));
        assert forall|i: int, j: int| 0 <= i < j < t.len() implies lex_lt(
            #[trigger] t[i],
            #[trigger] t[j],
        ) by {
            if j < pos {
                assert(t[i] == s[i] && t[j] == s[j]);
            } else if j == pos {
                assert(t[i] == s[i]);
            } else if i < pos {
                assert(t[i] == s[i] && t[j] == s[j - 1]);
                if pos < j - 1 {
                    assert(lex_lt(s[pos as int], s[j - 1]));
                    lemma_lex_transitive(xv, s[pos as int], s[j - 1]);
                }
                lemma_lex_transitive(s[i], xv, s[j - 1]);
            } else if i == pos {
                assert(t[j] == s[j - 1]);
                if pos < j - 1 {
                    assert(lex_lt(s[pos as int], s[j - 1]));
                    lemma_lex_transitive(xv, s[pos as int], s[j - 1]);
                }
            } else {
                assert(t[i] == s[i - 1] && t[j] == s[j - 1]);
            }
        }
        assert forall|y: Seq<char>| t.contains(y) <==> (s.contains(y) || y == xv) by {
            if t.contains(y) {
                let k = choose|k: int| 0 <= k < t.len() && t[k] == y;
                if k < pos {
                    assert(s[k] == y);
                } else if k > pos {
                    assert(s[k - 1] == y);
                }
            }
            if s.contains(y) {
                let k = choose|k: int| 0 <= k < s.len() && s[k] == y;
                if k < pos {
                    assert(t[k] == y);
                } else {
                    assert(t[k + 1] == y);
                }
            }
            if y == xv {
                assert(t[pos as int] == y);
            }
        }
    }
}

} // verus!
