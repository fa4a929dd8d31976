//! Lexicographic order on paths.
//!
//! Paths are compared character by character on their scalar values.
//! For UTF-8 encoded strings this agrees with byte-lexicographic order
//! of the encodings, which is the concatenation order callers see.

use vstd::prelude::*;
use vstd::relations::{sorted_by, total_ordering};
use vstd::seq_lib::lemma_multiset_commutative;

verus! {

/// Lexicographic "less than or equal" on character sequences.
pub open spec fn lex_le(a: Seq<char>, b: Seq<char>) -> bool
    decreases a.len(),
{
    if a.len() == 0 {
        true
    } else if b.len() == 0 {
        false
    } else if (a[0] as u32) < (b[0] as u32) {
        true
    } else if a[0] == b[0] {
        lex_le(a.drop_first(), b.drop_first())
    } else {
        false
    }
}

/// The order as a relation value, for vstd's sorting vocabulary.
pub open spec fn lex_le_rel() -> spec_fn(Seq<char>, Seq<char>) -> bool {
    |a: Seq<char>, b: Seq<char>| lex_le(a, b)
}

pub proof fn lemma_lex_le_refl(a: Seq<char>)
    ensures
        lex_le(a, a),
    decreases a.len(),
{
    if a.len() > 0 {
        lemma_lex_le_refl(a.drop_first());
    }
}

pub proof fn lemma_char_cast_injective(c: char, d: char)
    requires
        c as u32 == d as u32,
    ensures
        c == d,
{
}

pub proof fn lemma_lex_le_total(a: Seq<char>, b: Seq<char>)
    ensures
        lex_le(a, b) || lex_le(b, a),
    decreases a.len(),
{
    if a.len() > 0 && b.len() > 0 {
        if a[0] == b[0] {
            lemma_lex_le_total(a.drop_first(), b.drop_first());
        } else if a[0] as u32 == b[0] as u32 {
            lemma_char_cast_injective(a[0], b[0]);
        }
    }
}

pub proof fn lemma_lex_le_antisym(a: Seq<char>, b: Seq<char>)
    requires
        lex_le(a, b),
        lex_le(b, a),
    ensures
        a == b,
    decreases a.len(),
{
    if a.len() == 0 {
        assert(b.len() == 0);
        assert(a =~= b);
    } else {
        assert(a[0] == b[0]);
        lemma_lex_le_antisym(a.drop_first(), b.drop_first());
        assert(a.drop_first().len() == b.drop_first().len());
        assert(a.len() == b.len());
        assert forall|i: int| 0 <= i < a.len() implies a[i] == b[i] by {
            if i > 0 {
                assert(a.drop_first()[i - 1] == b.drop_first()[i - 1]);
            }
        }
        assert(a =~= b);
    }
}

pub proof fn lemma_lex_le_trans(a: Seq<char>, b: Seq<char>, c: Seq<char>)
    requires
        lex_le(a, b),
        lex_le(b, c),
    ensures
        lex_le(a, c),
    decreases a.len(),
{
    if a.len() > 0 && b.len() > 0 && c.len() > 0 {
        if a[0] == b[0] && b[0] == c[0] {
            lemma_lex_le_trans(a.drop_first(), b.drop_first(), c.drop_first());
        }
    }
}

/// `lex_le` is a total order, so sequences of paths can be sorted by it
/// and the sorted arrangement of a given collection is unique.
pub proof fn lemma_lex_le_total_ordering()
    ensures
        total_ordering(lex_le_rel()),
{
    let r = lex_le_rel();
    assert forall|a: Seq<char>| #[trigger] r(a, a) by {
        lemma_lex_le_refl(a);
    }
    assert forall|a: Seq<char>, b: Seq<char>| #[trigger] r(a, b) && #[trigger] r(b, a) implies a == b by {
        lemma_lex_le_antisym(a, b);
    }
    assert forall|a: Seq<char>, b: Seq<char>, c: Seq<char>|
        #[trigger] r(a, b) && #[trigger] r(b, c) implies r(a, c) by {
        lemma_lex_le_trans(a, b, c);
    }
    assert forall|a: Seq<char>, b: Seq<char>| #[trigger] r(a, b) || #[trigger] r(b, a) by {
        lemma_lex_le_total(a, b);
    }
}

/// Decides `lex_le` on string slices.
pub fn str_lex_le(a: &str, b: &str) -> (r: bool)
    ensures
        r == lex_le(a@, b@),
{
    let alen = a.unicode_len();
    let blen = b.unicode_len();
    let mut i: usize = 0;
    proof {
        assert(a@.skip(0) =~= a@);
        assert(b@.skip(0) =~= b@);
    }
    loop
        invariant
            i <= alen,
            i <= blen,
            alen == a@.len(),
            blen == b@.len(),
            lex_le(a@, b@) == lex_le(a@.skip(i as int), b@.skip(i as int)),
        decreases alen - i,
    {
        if i >= alen {
            return true;
        }
        if i >= blen {
            return false;
        }
        let ca = a.get_char(i);
        let cb = b.get_char(i);
        if (ca as u32) < (cb as u32) {
            return true;
        }
        if ca != cb {
            return false;
        }
        proof {
            assert(a@.skip(i as int).drop_first() =~= a@.skip(i as int + 1));
            assert(b@.skip(i as int).drop_first() =~= b@.skip(i as int + 1));
        }
        i = i + 1;
    }
}

/// Inserts `x` into a vector sorted by `lex_le`, keeping it sorted.
fn insert_sorted(sorted: Vec<String>, x: String) -> (r: Vec<String>)
    requires
        sorted_by(sorted.deep_view(), lex_le_rel()),
    ensures
        sorted_by(r.deep_view(), lex_le_rel()),
        r.deep_view().to_multiset() == sorted.deep_view().to_multiset().insert(x@),
{
    broadcast use vstd::seq_lib::group_to_multiset_ensures;
    broadcast use vstd::multiset::group_multiset_axioms;

    let ghost dv = sorted.deep_view();
    let n = sorted.len();
    let mut out: Vec<String> = Vec::new();
    let mut i: usize = 0;
    while i < n && str_lex_le(sorted[i].as_str(), x.as_str())
        invariant
            i <= n,
            n == sorted.len(),
            dv == sorted.deep_view(),
            out.deep_view() =~= dv.subrange(0, i as int),
            forall|j: int| 0 <= j < i ==> lex_le(dv[j], x@),
        decreases n - i,
    {
        out.push(sorted[i].clone());
        proof {
            assert(dv.subrange(0, i + 1) =~= dv.subrange(0, i as int).push(dv[i as int]));
        }
        i = i + 1;
    }
    let ghost split = i as int;
    out.push(x);
    while i < n
        invariant
            0 <= split <= i <= n,
            n == sorted.len(),
            dv == sorted.deep_view(),
            out.deep_view() =~= dv.subrange(0, split).push(x@) + dv.subrange(split, i as int),
            forall|j: int| 0 <= j < split ==> lex_le(dv[j], x@),
            split < n ==> !lex_le(dv[split], x@),
        decreases n - i,
    {
        let ghost pre = out.deep_view();
        out.push(sorted[i].clone());
        proof {
            assert(out.deep_view() =~= pre.push(dv[i as int]));
            assert(dv.subrange(split, i + 1) =~= dv.subrange(split, i as int).push(dv[i as int]));
            assert(pre.push(dv[i as int]) =~= dv.subrange(0, split).push(x@) + dv.subrange(
                split,
                i + 1,
            ));
        }
        i = i + 1;
    }
    proof {
        let p = dv.subrange(0, split);
        let s = dv.subrange(split, n as int);
        let odv = out.deep_view();
        assert(odv =~= p.push(x@) + s);
        assert forall|a: int, b: int| 0 <= a < b < odv.len() implies lex_le_rel()(odv[a], odv[b]) by {
            if b < split {
                assert(lex_le_rel()(dv[a], dv[b]));
            } else if b == split {
                assert(lex_le(dv[a], x@));
            } else if a == split {
                lemma_lex_le_total(dv[split], x@);
                if b - 1 > split {
                    assert(lex_le_rel()(dv[split], dv[b - 1]));
                    lemma_lex_le_trans(x@, dv[split], dv[b - 1]);
                }
            } else if a < split {
                assert(lex_le_rel()(dv[a], dv[b - 1]));
            } else {
                assert(lex_le_rel()(dv[a - 1], dv[b - 1]));
            }
        }
        lemma_multiset_commutative(p.push(x@), s);
        lemma_multiset_commutative(p, s);
        assert(p + s =~= dv);
        assert(p.push(x@).to_multiset() =~= p.to_multiset().insert(x@));
        assert(odv.to_multiset() =~= dv.to_multiset().insert(x@));
    }
    out
}

/// Sorts paths into ascending lexicographic order.
pub fn sort_paths(v: Vec<String>) -> (r: Vec<String>)
    ensures
        sorted_by(r.deep_view(), lex_le_rel()),
        r.deep_view().to_multiset() == v.deep_view().to_multiset(),
{
    broadcast use vstd::seq_lib::group_to_multiset_ensures;

    let n = v.len();
    let mut out: Vec<String> = Vec::new();
    let mut i: usize = 0;
    proof {
        assert(out.deep_view() =~= v.deep_view().subrange(0, 0));
    }
    while i < n
        invariant
            i <= n,
            n == v.len(),
            sorted_by(out.deep_view(), lex_le_rel()),
            out.deep_view().to_multiset() == v.deep_view().subrange(0, i as int).to_multiset(),
        decreases n - i,
    {
        out = insert_sorted(out, v[i].clone());
        proof {
            let dv = v.deep_view();
            assert(dv.subrange(0, i + 1) =~= dv.subrange(0, i as int).push(dv[i as int]));
            vstd::seq_lib::to_multiset_build(dv.subrange(0, i as int), dv[i as int]);
        }
        i = i + 1;
    }
    proof {
        assert(v.deep_view().subrange(0, n as int) =~= v.deep_view());
    }
    out
}

} // verus!
