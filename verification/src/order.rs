//! The order of strings (`Ord for str`: lexicographic by code point, which
//! is the byte order of their UTF-8 form) and sorted lists of distinct
//! strings.

use crate::text::{chars_of, view_strings};
use vstd::prelude::*;

verus! {

/// `a` sorts strictly before `b`.
pub open spec fn str_lt(a: Seq<char>, b: Seq<char>) -> bool
    decreases a.len(),
{
    if a.len() == 0 {
        b.len() > 0
    } else if b.len() == 0 {
        false
    } else if a[0] != b[0] {
        a[0] < b[0]
    } else {
        str_lt(a.drop_first(), b.drop_first())
    }
}

pub proof fn lemma_str_lt_irreflexive(a: Seq<char>)
    ensures
        !str_lt(a, a),
    decreases a.len(),
{
    if a.len() > 0 {
        lemma_str_lt_irreflexive(a.drop_first());
    }
}

pub proof fn lemma_str_lt_transitive(a: Seq<char>, b: Seq<char>, c: Seq<char>)
    requires
        str_lt(a, b),
        str_lt(b, c),
    ensures
        str_lt(a, c),
    decreases a.len(),
{
    if a.len() > 0 && b.len() > 0 && c.len() > 0 && a[0] == b[0] && b[0] == c[0] {
        lemma_str_lt_transitive(a.drop_first(), b.drop_first(), c.drop_first());
    }
}

pub proof fn lemma_str_lt_total(a: Seq<char>, b: Seq<char>)
    ensures
        a == b || str_lt(a, b) || str_lt(b, a),
    decreases a.len(),
{
    if a.len() > 0 && b.len() > 0 {
        if a[0] == b[0] {
            lemma_str_lt_total(a.drop_first(), b.drop_first());
            if a.drop_first() == b.drop_first() {
                assert(a =~= seq![a[0]] + a.drop_first());
                assert(b =~= seq![b[0]] + b.drop_first());
            }
        }
    } else if a.len() == 0 && b.len() == 0 {
        assert(a =~= b);
    }
}

pub proof fn lemma_str_lt_asymmetric(a: Seq<char>, b: Seq<char>)
    requires
        str_lt(a, b),
    ensures
        !str_lt(b, a),
{
    if str_lt(b, a) {
        lemma_str_lt_transitive(a, b, a);
        lemma_str_lt_irreflexive(a);
    }
}

/// Whether `a` sorts strictly before `b`.
pub fn str_less(a: &str, b: &str) -> (r: bool)
    ensures
        r == str_lt(a@, b@),
{
    let x = chars_of(a);
    let y = chars_of(b);
    let mut k: usize = 0;
    assert(x@.skip(0) =~= x@);
    assert(y@.skip(0) =~= y@);
    while k < x.len() && k < y.len() && x[k] == y[k]
        invariant
            k <= x.len(),
            k <= y.len(),
            str_lt(a@, b@) == str_lt(x@.skip(k as int), y@.skip(k as int)),
            x@ == a@,
            y@ == b@,
        decreases x.len() - k,
    {
        assert(x@.skip(k as int).drop_first() =~= x@.skip(k + 1));
        assert(y@.skip(k as int).drop_first() =~= y@.skip(k + 1));
        k = k + 1;
    }
    proof {
        if k < x.len() {
            assert(x@.skip(k as int)[0] == x@[k as int]);
        }
        if k < y.len() {
            assert(y@.skip(k as int)[0] == y@[k as int]);
        }
    }
    if k == x.len() {
        k < y.len()
    } else if k == y.len() {
        false
    } else {
        x[k] < y[k]
    }
}

/// Strictly increasing: sorted with no repeats.
pub open spec fn strictly_sorted(s: Seq<Seq<char>>) -> bool {
    forall|i: int, j: int| 0 <= i < j < s.len() ==> str_lt(#[trigger] s[i], #[trigger] s[j])
}

/// Inserts `x` into a strictly sorted list unless it is already there.
pub fn insert_sorted_unique(v: &mut Vec<String>, x: String)
    requires
        strictly_sorted(view_strings(old(v)@)),
    ensures
        strictly_sorted(view_strings(final(v)@)),
        forall|s: Seq<char>|
            view_strings(final(v)@).contains(s) <==> (view_strings(old(v)@).contains(s) || s
                == x@),
        view_strings(final(v)@).to_set() == view_strings(old(v)@).to_set().insert(x@),
{
    let ghost vs = view_strings(v@);
    let mut p: usize = 0;
    while p < v.len() && str_less(v[p].as_str(), x.as_str())
        invariant
            p <= v.len(),
            vs == view_strings(v@),
            forall|i: int| 0 <= i < p ==> str_lt(#[trigger] vs[i], x@),
        decreases v.len() - p,
    {
        p = p + 1;
    }
    if p < v.len() && v[p] == x {
        assert(vs[p as int] == x@);
        assert(vs.to_set() =~= vs.to_set().insert(x@));
        return;
    }
    proof {
        if p < v.len() {
            assert(vs[p as int] != x@);
            assert(!str_lt(vs[p as int], x@));
            lemma_str_lt_total(vs[p as int], x@);
            assert(str_lt(x@, vs[p as int]));
        }
    }
    v.insert(p, x);
    proof {
        let nv = view_strings(v@);
        assert(nv =~= vs.insert(p as int, x@));
        assert forall|i: int, j: int| 0 <= i < j < nv.len() implies str_lt(
            #[trigger] nv[i],
            #[trigger] nv[j],
        ) by {
            if j < p {
                assert(nv[i] == vs[i] && nv[j] == vs[j]);
            } else if j == p {
                assert(nv[i] == vs[i]);
            } else if i == p {
                assert(nv[j] == vs[j - 1]);
                if j - 1 > p {
                    assert(str_lt(vs[p as int], vs[j - 1]));
                    lemma_str_lt_transitive(x@, vs[p as int], vs[j - 1]);
                }
            } else if i < p {
                assert(nv[i] == vs[i] && nv[j] == vs[j - 1]);
                assert(str_lt(x@, vs[j - 1])) by {
                    if j - 1 > p {
                        lemma_str_lt_transitive(x@, vs[p as int], vs[j - 1]);
                    }
                }
                lemma_str_lt_transitive(vs[i], x@, vs[j - 1]);
            } else {
                assert(nv[i] == vs[i - 1] && nv[j] == vs[j - 1]);
            }
        }
        assert forall|s: Seq<char>| nv.contains(s) <==> (vs.contains(s) || s == x@) by {
            if nv.contains(s) {
                let i = choose|i: int| 0 <= i < nv.len() && nv[i] == s;
                if i < p {
                    assert(vs[i] == s);
                } else if i > p {
                    assert(vs[i - 1] == s);
                }
            }
            if vs.contains(s) {
                let i = choose|i: int| 0 <= i < vs.len() && vs[i] == s;
                if i < p {
                    assert(nv[i] == s);
                } else {
                    assert(nv[i + 1] == s);
                }
            }
            if s == x@ {
                assert(nv[p as int] == s);
            }
        }
        assert(nv.to_set() =~= vs.to_set().insert(x@));
    }
}


/// Sorted, repeats allowed: no item sorts before an earlier one.
pub open spec fn sorted(s: Seq<Seq<char>>) -> bool {
    forall|i: int, j: int| 0 <= i < j < s.len() ==> !str_lt(#[trigger] s[j], #[trigger] s[i])
}

/// Inserts `x` into a sorted list after every item that does not sort
/// after it.
pub fn insert_sorted(v: &mut Vec<String>, x: String)
    requires
        sorted(view_strings(old(v)@)),
    ensures
        sorted(view_strings(final(v)@)),
        view_strings(final(v)@).to_multiset() == view_strings(old(v)@).to_multiset().insert(x@),
{
    let ghost vs = view_strings(v@);
    let mut p: usize = 0;
    while p < v.len() && !str_less(x.as_str(), v[p].as_str())
        invariant
            p <= v.len(),
            vs == view_strings(v@),
            forall|i: int| 0 <= i < p ==> !str_lt(x@, #[trigger] vs[i]),
        decreases v.len() - p,
    {
        p = p + 1;
    }
    let ghost xv = x@;
    v.insert(p, x);
    proof {
        broadcast use vstd::seq_lib::to_multiset_insert;
        let nv = view_strings(v@);
        assert(nv =~= vs.insert(p as int, xv));
        assert forall|i: int, j: int| 0 <= i < j < nv.len() implies !str_lt(
            #[trigger] nv[j],
            #[trigger] nv[i],
        ) by {
            if j < p {
                assert(nv[i] == vs[i] && nv[j] == vs[j]);
            } else if j == p {
                assert(nv[i] == vs[i]);
                assert(!str_lt(xv, vs[i]));
            } else if i == p {
                assert(nv[j] == vs[j - 1]);
                if p < vs.len() {
                    assert(str_lt(xv, vs[p as int]));
                    if str_lt(vs[j - 1], xv) {
                        if j - 1 > p {
                            assert(!str_lt(vs[j - 1], vs[p as int]));
                            lemma_str_lt_transitive(vs[j - 1], xv, vs[p as int]);
                        } else {
                            lemma_str_lt_asymmetric(xv, vs[p as int]);
                        }
                    }
                }
            } else if i < p {
                assert(nv[i] == vs[i] && nv[j] == vs[j - 1]);
            } else {
                assert(nv[i] == vs[i - 1] && nv[j] == vs[j - 1]);
            }
        }
    }
}

} // verus!
