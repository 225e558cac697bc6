//! The polynomial that a sequence of terms denotes, its canonical form, and
//! the facts about both that the constraint operations rest on.

use vstd::prelude::*;
use vstd::multiset::Multiset;
use crate::field::modulus;
use crate::term::{
    Term, key_lt, same_key, lemma_key_irreflexive, lemma_key_lt_same_key, lemma_key_transitive,
    lemma_key_total, lemma_distinct_monomials, lemma_term_ext,
};

verus! {

/// What a term adds to the coefficient of monomial `m`.
pub open spec fn term_share(t: Term, m: Multiset<u64>) -> int {
    if t.monomial() == m {
        t.coef_val()
    } else {
        0
    }
}

/// The coefficient of monomial `m` in the sum of the terms, before reduction.
pub open spec fn coef(ts: Seq<Term>, m: Multiset<u64>) -> int
    decreases ts.len(),
{
    if ts.len() == 0 {
        0
    } else {
        coef(ts.drop_last(), m) + term_share(ts.last(), m)
    }
}

/// The two term sequences denote the same polynomial over the field.
pub open spec fn poly_eq(a: Seq<Term>, b: Seq<Term>) -> bool {
    forall|m: Multiset<u64>|
        #![trigger coef(a, m)]
        #![trigger coef(b, m)]
        coef(a, m) % modulus() == coef(b, m) % modulus()
}

/// Every monomial with a non-zero coefficient has at most `d` variables.
pub open spec fn poly_degree_le(ts: Seq<Term>, d: nat) -> bool {
    forall|m: Multiset<u64>| #[trigger] coef(ts, m) % modulus() != 0 ==> m.len() <= d
}

pub open spec fn all_wf(ts: Seq<Term>) -> bool {
    forall|i: int| 0 <= i < ts.len() ==> (#[trigger] ts[i]).wf()
}

/// Normal form: normalized non-zero terms, strictly ordered by key, so at
/// most one term per monomial.
pub open spec fn canonical(ts: Seq<Term>) -> bool {
    &&& forall|i: int| 0 <= i < ts.len() ==> (#[trigger] ts[i]).normalized() && ts[i].coef_val() != 0
    &&& forall|i: int, j: int| 0 <= i < j < ts.len() ==> key_lt(#[trigger] ts[i], #[trigger] ts[j])
}

/// `out` is the normal form of `input`.
pub open spec fn normalizes_to(input: Seq<Term>, out: Seq<Term>) -> bool {
    canonical(out) && poly_eq(out, input)
}

/// The largest degree among the terms.
pub open spec fn max_deg(ts: Seq<Term>) -> nat
    decreases ts.len(),
{
    if ts.len() == 0 {
        0
    } else {
        let d = max_deg(ts.drop_last());
        if ts.last().deg() > d {
            ts.last().deg()
        } else {
            d
        }
    }
}

pub proof fn lemma_max_deg_bound(ts: Seq<Term>, d: nat)
    requires
        forall|i: int| 0 <= i < ts.len() ==> (#[trigger] ts[i]).deg() <= d,
    ensures
        max_deg(ts) <= d,
    decreases ts.len(),
{
    if ts.len() > 0 {
        lemma_max_deg_bound(ts.drop_last(), d);
    }
}

pub proof fn lemma_max_deg_ge(ts: Seq<Term>, i: int)
    requires
        0 <= i < ts.len(),
    ensures
        ts[i].deg() <= max_deg(ts),
    decreases ts.len(),
{
    if i < ts.len() - 1 {
        lemma_max_deg_ge(ts.drop_last(), i);
    }
}

pub proof fn lemma_coef_append(a: Seq<Term>, b: Seq<Term>, m: Multiset<u64>)
    ensures
        coef(a + b, m) == coef(a, m) + coef(b, m),
    decreases b.len(),
{
    if b.len() == 0 {
        assert(a + b =~= a);
    } else {
        assert((a + b).drop_last() =~= a + b.drop_last());
        lemma_coef_append(a, b.drop_last(), m);
    }
}

pub proof fn lemma_coef_single(t: Term, m: Multiset<u64>)
    ensures
        coef(seq![t], m) == term_share(t, m),
{
    assert(seq![t].drop_last() =~= Seq::<Term>::empty());
    assert(coef(Seq::<Term>::empty(), m) == 0);
    assert(seq![t].last() == t);
}

/// The coefficient splits around position `j`.
pub proof fn lemma_coef_split(ts: Seq<Term>, j: int, m: Multiset<u64>)
    requires
        0 <= j < ts.len(),
    ensures
        coef(ts, m) == coef(ts.take(j), m) + term_share(ts[j], m) + coef(ts.skip(j + 1), m),
        coef(ts.remove(j), m) == coef(ts.take(j), m) + coef(ts.skip(j + 1), m),
{
    assert(ts =~= ts.take(j) + seq![ts[j]] + ts.skip(j + 1));
    assert(ts.remove(j) =~= ts.take(j) + ts.skip(j + 1));
    lemma_coef_append(ts.take(j) + seq![ts[j]], ts.skip(j + 1), m);
    lemma_coef_append(ts.take(j), seq![ts[j]], m);
    lemma_coef_append(ts.take(j), ts.skip(j + 1), m);
    lemma_coef_single(ts[j], m);
}

pub proof fn lemma_coef_absent(ts: Seq<Term>, m: Multiset<u64>)
    requires
        forall|i: int| 0 <= i < ts.len() ==> (#[trigger] ts[i]).monomial() != m,
    ensures
        coef(ts, m) == 0,
    decreases ts.len(),
{
    if ts.len() > 0 {
        lemma_coef_absent(ts.drop_last(), m);
    }
}

/// A monomial whose coefficient is non-zero has a term with a non-zero coefficient.
pub proof fn lemma_coef_witness(ts: Seq<Term>, m: Multiset<u64>)
    requires
        coef(ts, m) != 0,
    ensures
        exists|i: int|
            0 <= i < ts.len() && (#[trigger] ts[i]).monomial() == m && ts[i].coef_val() != 0,
    decreases ts.len(),
{
    if term_share(ts.last(), m) != 0 {
        assert(ts[ts.len() - 1] == ts.last());
    } else {
        lemma_coef_witness(ts.drop_last(), m);
        let i = choose|i: int|
            0 <= i < ts.drop_last().len() && (#[trigger] ts.drop_last()[i]).monomial() == m
                && ts.drop_last()[i].coef_val() != 0;
        assert(ts[i] == ts.drop_last()[i]);
    }
}

pub proof fn lemma_key_lt_distinct(a: Term, b: Term)
    requires
        key_lt(a, b),
    ensures
        !same_key(a, b),
{
    if same_key(a, b) {
        lemma_key_lt_same_key(a, b, b);
        lemma_key_irreflexive(b);
    }
}

pub proof fn lemma_canonical_sub(ts: Seq<Term>, j: int)
    requires
        canonical(ts),
        0 <= j <= ts.len(),
    ensures
        canonical(ts.take(j)),
        canonical(ts.skip(j)),
        j < ts.len() ==> canonical(ts.remove(j)),
        ts.len() > 0 ==> canonical(ts.drop_last()),
{
    assert(ts.len() > 0 ==> ts.drop_last() =~= ts.take(ts.len() - 1));
    if j < ts.len() {
        let r = ts.remove(j);
        assert forall|a: int, b: int| 0 <= a < b < r.len() implies key_lt(#[trigger] r[a], #[trigger] r[b]) by {
            let a2 = if a < j { a } else { a + 1 };
            let b2 = if b < j { b } else { b + 1 };
            assert(r[a] == ts[a2] && r[b] == ts[b2]);
        }
        assert forall|a: int| 0 <= a < r.len() implies (#[trigger] r[a]).normalized() && r[a].coef_val() != 0 by {
            let a2 = if a < j { a } else { a + 1 };
            assert(r[a] == ts[a2]);
        }
    }
    let s = ts.skip(j);
    assert forall|a: int, b: int| 0 <= a < b < s.len() implies key_lt(#[trigger] s[a], #[trigger] s[b]) by {
        assert(s[a] == ts[a + j] && s[b] == ts[b + j]);
    }
    assert forall|a: int| 0 <= a < s.len() implies (#[trigger] s[a]).normalized() && s[a].coef_val() != 0 by {
        assert(s[a] == ts[a + j]);
    }
}

/// In normal form the coefficient of a term's monomial is that term's coefficient.
pub proof fn lemma_canonical_coef_at(ts: Seq<Term>, j: int)
    requires
        canonical(ts),
        0 <= j < ts.len(),
    ensures
        coef(ts, ts[j].monomial()) == ts[j].coef_val(),
{
    let m = ts[j].monomial();
    lemma_coef_split(ts, j, m);
    let pre = ts.take(j);
    let post = ts.skip(j + 1);
    assert forall|i: int| 0 <= i < pre.len() implies (#[trigger] pre[i]).monomial() != m by {
        assert(pre[i] == ts[i]);
        lemma_key_lt_distinct(ts[i], ts[j]);
        lemma_distinct_monomials(ts[i], ts[j]);
    }
    assert forall|i: int| 0 <= i < post.len() implies (#[trigger] post[i]).monomial() != m by {
        assert(post[i] == ts[i + j + 1]);
        lemma_key_lt_distinct(ts[j], ts[i + j + 1]);
        lemma_distinct_monomials(ts[j], ts[i + j + 1]);
    }
    lemma_coef_absent(pre, m);
    lemma_coef_absent(post, m);
}

/// In normal form every coefficient is already reduced.
pub proof fn lemma_canonical_coef_range(ts: Seq<Term>, m: Multiset<u64>)
    requires
        canonical(ts),
    ensures
        0 <= coef(ts, m) < modulus(),
        coef(ts, m) % modulus() == coef(ts, m),
{
    if exists|j: int| 0 <= j < ts.len() && (#[trigger] ts[j]).monomial() == m {
        let j = choose|j: int| 0 <= j < ts.len() && (#[trigger] ts[j]).monomial() == m;
        lemma_canonical_coef_at(ts, j);
    } else {
        lemma_coef_absent(ts, m);
    }
    vstd::arithmetic::div_mod::lemma_small_mod(coef(ts, m) as nat, modulus() as nat);
}

/// The term of largest key is absent from a normal form whose keys are all smaller.
proof fn lemma_top_absent(a: Seq<Term>, b: Seq<Term>)
    requires
        canonical(a),
        canonical(b),
        b.len() > 0,
        a.len() > 0 ==> key_lt(a.last(), b.last()),
    ensures
        !poly_eq(a, b),
{
    let m = b.last().monomial();
    assert(b[b.len() - 1] == b.last());
    lemma_canonical_coef_at(b, b.len() - 1);
    assert forall|i: int| 0 <= i < a.len() implies (#[trigger] a[i]).monomial() != m by {
        if i < a.len() - 1 {
            assert(key_lt(a[i], a[a.len() - 1]));
            lemma_key_transitive(a[i], a.last(), b.last());
        }
        lemma_key_lt_distinct(a[i], b.last());
        lemma_distinct_monomials(a[i], b.last());
    }
    lemma_coef_absent(a, m);
    lemma_canonical_coef_range(b, m);
    vstd::arithmetic::div_mod::lemma_small_mod(0, modulus() as nat);
    assert(coef(a, m) % modulus() == 0);
}

/// Two normal forms of the same polynomial are equal.
pub proof fn lemma_canonical_unique(a: Seq<Term>, b: Seq<Term>)
    requires
        canonical(a),
        canonical(b),
        poly_eq(a, b),
    ensures
        a == b,
    decreases a.len() + b.len(),
{
    if a.len() == 0 && b.len() == 0 {
        assert(a =~= b);
    } else if a.len() == 0 {
        lemma_top_absent(a, b);
    } else if b.len() == 0 {
        lemma_top_absent(b, a);
    } else if key_lt(a.last(), b.last()) {
        lemma_top_absent(a, b);
    } else if key_lt(b.last(), a.last()) {
        lemma_top_absent(b, a);
    } else {
        lemma_key_total(a.last(), b.last());
        let m = a.last().monomial();
        assert(a[a.len() - 1] == a.last());
        assert(b[b.len() - 1] == b.last());
        lemma_canonical_coef_at(a, a.len() - 1);
        lemma_canonical_coef_at(b, b.len() - 1);
        lemma_canonical_coef_range(a, m);
        lemma_canonical_coef_range(b, m);
        lemma_term_ext(a.last(), b.last());
        let a2 = a.drop_last();
        let b2 = b.drop_last();
        lemma_canonical_sub(a, 0);
        lemma_canonical_sub(b, 0);
        assert forall|m2: Multiset<u64>| #![trigger coef(a2, m2)] #![trigger coef(b2, m2)]
            coef(a2, m2) % modulus() == coef(b2, m2) % modulus() by {
            lemma_canonical_coef_range(a, m2);
            lemma_canonical_coef_range(b, m2);
            assert(coef(a, m2) % modulus() == coef(b, m2) % modulus());
        }
        lemma_canonical_unique(a2, b2);
        assert(a =~= a2.push(a.last()));
        assert(b =~= b2.push(b.last()));
    }
}

/// Coefficients of the normal form of `a + b` against those of `a` and `b`.
pub proof fn lemma_poly_eq_append(a: Seq<Term>, b: Seq<Term>, a2: Seq<Term>, b2: Seq<Term>)
    requires
        poly_eq(a, a2),
        poly_eq(b, b2),
    ensures
        poly_eq(a + b, a2 + b2),
{
    assert forall|m: Multiset<u64>| #![trigger coef(a + b, m)] #![trigger coef(a2 + b2, m)]
        coef(a + b, m) % modulus() == coef(a2 + b2, m) % modulus() by {
        lemma_coef_append(a, b, m);
        lemma_coef_append(a2, b2, m);
        assert(coef(a, m) % modulus() == coef(a2, m) % modulus());
        assert(coef(b, m) % modulus() == coef(b2, m) % modulus());
        vstd::arithmetic::div_mod::lemma_add_mod_noop(coef(a, m), coef(b, m), modulus());
        vstd::arithmetic::div_mod::lemma_add_mod_noop(coef(a2, m), coef(b2, m), modulus());
    }
}

} // verus!
