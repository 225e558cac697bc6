//! Constraints: sums of terms, kept quadratic after normalization.

use vstd::prelude::*;
use vstd::multiset::Multiset;
use crate::field::{Mersenne31Field, modulus, has_inverse};
use crate::term::{Term, Variable, Num, Boolean, PLACEHOLDER_ID, placeholder, key_lt, same_key, lemma_key_total, lemma_key_transitive, lemma_key_lt_same_key};
use crate::poly::{
    term_share, coef, poly_eq, poly_degree_le, all_wf, canonical, normalizes_to, max_deg,
    lemma_max_deg_bound, lemma_max_deg_ge, lemma_coef_append, lemma_coef_single, lemma_coef_split,
    lemma_coef_witness, lemma_canonical_sub, lemma_canonical_coef_at, lemma_canonical_coef_range,
    lemma_canonical_unique, lemma_poly_eq_append,
};

verus! {

/// A polynomial as a sparse sum of terms.
#[derive(Clone, Debug)]
pub struct Constraint {
    pub terms: Vec<Term>,
}

impl View for Constraint {
    type V = Seq<Term>;

    open spec fn view(&self) -> Seq<Term> {
        self.terms@
    }
}

/// A term's coefficient scaled by `f`.
pub open spec fn scaled_term(t: Term, f: int) -> Term {
    t.with_coef(Mersenne31Field::spec_from_int((t.coef_val() * f) % modulus()))
}

/// Every term's coefficient scaled by `f`.
pub open spec fn scaled_terms(ts: Seq<Term>, f: int) -> Seq<Term> {
    Seq::new(ts.len(), |i: int| scaled_term(ts[i], f))
}

/// The terms negated.
pub open spec fn negated(ts: Seq<Term>) -> Seq<Term> {
    scaled_terms(ts, modulus() - 1)
}

/// The product of two terms, as a single term.
pub open spec fn term_product(a: Term, b: Term) -> Term {
    let c = Mersenne31Field::spec_from_int((a.coef_val() * b.coef_val()) % modulus());
    match (a, b) {
        (
            Term::Expression { inner: i1, degree: d1, .. },
            Term::Expression { inner: i2, degree: d2, .. },
        ) => Term::Expression {
            coeff: c,
            inner: [
                if 0 < d1 { i1[0] } else if 0 < d1 + d2 { i2[0 - d1] } else { i1[0] },
                if 1 < d1 { i1[1] } else if 1 < d1 + d2 { i2[1 - d1] } else { i1[1] },
                if 2 < d1 { i1[2] } else if 2 < d1 + d2 { i2[2 - d1] } else { i1[2] },
                if 3 < d1 { i1[3] } else if 3 < d1 + d2 { i2[3 - d1] } else { i1[3] },
            ],
            degree: (d1 + d2) as usize,
        },
        (Term::Expression { inner, degree, .. }, Term::Constant(_)) => Term::Expression {
            coeff: c,
            inner,
            degree,
        },
        (Term::Constant(_), Term::Expression { inner, degree, .. }) => Term::Expression {
            coeff: c,
            inner,
            degree,
        },
        (Term::Constant(_), Term::Constant(_)) => Term::Constant(c),
    }
}

/// What the product of two terms is, over the model.
pub proof fn lemma_term_product(a: Term, b: Term)
    requires
        a.wf(),
        b.wf(),
        a.deg() + b.deg() <= 4,
    ensures
        term_product(a, b).wf(),
        term_product(a, b).vars() == a.vars() + b.vars(),
        term_product(a, b).deg() == a.deg() + b.deg(),
        term_product(a, b).monomial() == a.monomial().add(b.monomial()),
        term_product(a, b).coef_val() == (a.coef_val() * b.coef_val()) % modulus(),
{
    vstd::arithmetic::div_mod::lemma_mod_bound(a.coef_val() * b.coef_val(), modulus());
    let t = term_product(a, b);
    match (a, b) {
        (Term::Constant(_), Term::Expression { .. }) => {
            assert(a.vars() + b.vars() =~= b.vars());
        },
        (Term::Expression { .. }, Term::Constant(_)) => {
            assert(a.vars() + b.vars() =~= a.vars());
        },
        (Term::Constant(_), Term::Constant(_)) => {
            assert(a.vars() + b.vars() =~= Seq::<u64>::empty());
        },
        (Term::Expression { .. }, Term::Expression { .. }) => {
            assert(t.vars() =~= a.vars() + b.vars());
        },
    }
    vstd::seq_lib::lemma_multiset_commutative(a.vars(), b.vars());
}

/// `t` merged into the normal form `v`.
fn insert_combine(v: &mut Vec<Term>, t: Term)
    requires
        canonical(old(v)@),
        t.normalized(),
        t.coef_val() != 0,
    ensures
        canonical(final(v)@),
        forall|m: Multiset<u64>|
            #[trigger] coef(final(v)@, m) == (coef(old(v)@, m) + term_share(t, m)) % modulus(),
{
    let n = v.len();
    let mut j: usize = 0;
    while j < n && v[j].precedes(&t)
        invariant
            v@ == old(v)@,
            n == v@.len(),
            0 <= j <= n,
            canonical(v@),
            t.wf(),
            forall|k: int| 0 <= k < j ==> key_lt(#[trigger] v@[k], t),
        decreases n - j,
    {
        j += 1;
    }
    let ghost old_v = v@;
    if j < n && v[j].same_multiple(&t) {
        let old_j = v[j];
        let sum = old_j.get_coef().add(&t.get_coef());
        if sum.is_zero() {
            v.remove(j);
            proof {
                lemma_canonical_sub(old_v, j as int);
                assert forall|m: Multiset<u64>| #[trigger] coef(v@, m) == (coef(old_v, m)
                    + term_share(t, m)) % modulus() by {
                    lemma_coef_split(old_v, j as int, m);
                    lemma_canonical_coef_range(old_v, m);
                    vstd::arithmetic::div_mod::lemma_small_mod(0, modulus() as nat);
                    if m == t.monomial() {
                        lemma_canonical_coef_at(old_v, j as int);
                    }
                }
            }
        } else {
            let mut u = old_j;
            u.combine(&t);
            v.set(j, u);
            proof {
                let nv = v@;
                assert(u.normalized());
                assert forall|a: int, b: int| 0 <= a < b < nv.len() implies key_lt(
                    #[trigger] nv[a],
                    #[trigger] nv[b],
                ) by {
                    assert(key_lt(old_v[a], old_v[b]));
                    lemma_key_lt_same_key(old_j, u, old_v[b]);
                    lemma_key_lt_same_key(old_j, u, old_v[a]);
                }
                assert(canonical(nv));
                assert forall|m: Multiset<u64>| #[trigger] coef(v@, m) == (coef(old_v, m)
                    + term_share(t, m)) % modulus() by {
                    lemma_coef_split(old_v, j as int, m);
                    lemma_coef_split(nv, j as int, m);
                    assert(nv.take(j as int) =~= old_v.take(j as int));
                    assert(nv.skip(j as int + 1) =~= old_v.skip(j as int + 1));
                    lemma_canonical_coef_range(old_v, m);
                    lemma_canonical_coef_range(nv, m);
                    if m == t.monomial() {
                        lemma_canonical_coef_at(old_v, j as int);
                    }
                }
            }
        }
    } else {
        proof {
            if j < n && !key_lt(t, old_v[j as int]) {
                lemma_key_total(old_v[j as int], t);
            }
        }
        v.insert(j, t);
        proof {
            let nv = v@;
            assert(nv =~= old_v.take(j as int) + seq![t] + old_v.skip(j as int));
            assert forall|a: int, b: int| 0 <= a < b < nv.len() implies key_lt(
                #[trigger] nv[a],
                #[trigger] nv[b],
            ) by {
                if b < j {
                    assert(key_lt(old_v[a], old_v[b]));
                } else if b == j {
                    assert(key_lt(old_v[a], t));
                } else if a < j {
                    assert(key_lt(old_v[a], old_v[b - 1]));
                } else if a == j {
                    if b - 1 > j {
                        assert(key_lt(old_v[j as int], old_v[b - 1]));
                        lemma_key_transitive(t, old_v[j as int], old_v[b - 1]);
                    }
                } else {
                    assert(key_lt(old_v[a - 1], old_v[b - 1]));
                }
            }
            assert forall|a: int| 0 <= a < nv.len() implies (#[trigger] nv[a]).normalized()
                && nv[a].coef_val() != 0 by {
                if a < j {
                    assert(nv[a] == old_v[a]);
                } else if a > j {
                    assert(nv[a] == old_v[a - 1]);
                }
            }
            assert forall|m: Multiset<u64>| #[trigger] coef(v@, m) == (coef(old_v, m) + term_share(
                t,
                m,
            )) % modulus() by {
                lemma_coef_append(old_v.take(j as int) + seq![t], old_v.skip(j as int), m);
                lemma_coef_append(old_v.take(j as int), seq![t], m);
                lemma_coef_single(t, m);
                assert(old_v =~= old_v.take(j as int) + old_v.skip(j as int));
                lemma_coef_append(old_v.take(j as int), old_v.skip(j as int), m);
                lemma_canonical_coef_range(nv, m);
            }
        }
    }
}

/// The normal form has no larger degree than its input, and no larger
/// than any bound on the input polynomial's degree.
pub proof fn lemma_normal_form_degree(input: Seq<Term>, out: Seq<Term>, d: nat)
    requires
        normalizes_to(input, out),
        poly_degree_le(input, d),
    ensures
        max_deg(out) <= max_deg(input),
        max_deg(out) <= d,
{
    lemma_normal_form_degree_monotone(input, out);
    assert forall|i: int| 0 <= i < out.len() implies (#[trigger] out[i]).deg() <= d by {
        let m = out[i].monomial();
        lemma_canonical_coef_at(out, i);
        lemma_canonical_coef_range(out, m);
        assert(coef(input, m) % modulus() != 0);
        out[i].vars().to_multiset_ensures();
    }
    lemma_max_deg_bound(out, d);
}

pub proof fn lemma_normal_form_degree_monotone(input: Seq<Term>, out: Seq<Term>)
    requires
        normalizes_to(input, out),
    ensures
        max_deg(out) <= max_deg(input),
{
    assert forall|i: int| 0 <= i < out.len() implies (#[trigger] out[i]).deg() <= max_deg(input) by {
        let m = out[i].monomial();
        lemma_canonical_coef_at(out, i);
        lemma_canonical_coef_range(out, m);
        vstd::arithmetic::div_mod::lemma_small_mod(0, modulus() as nat);
        assert(coef(input, m) % modulus() != 0);
        lemma_coef_witness(input, m);
        let k = choose|k: int|
            0 <= k < input.len() && (#[trigger] input[k]).monomial() == m && input[k].coef_val()
                != 0;
        out[i].vars().to_multiset_ensures();
        input[k].vars().to_multiset_ensures();
        lemma_max_deg_ge(input, k);
    }
    lemma_max_deg_bound(out, max_deg(input));
}

/// `a` followed by `b`.
fn concat_terms(a: Vec<Term>, b: Vec<Term>) -> (r: Vec<Term>)
    ensures
        r@ == a@ + b@,
{
    let mut r = a;
    let mut i: usize = 0;
    let ghost start = r@;
    while i < b.len()
        invariant
            start == a@,
            0 <= i <= b@.len(),
            r@ == start + b@.take(i as int),
        decreases b@.len() - i,
    {
        r.push(b[i]);
        assert(r@ =~= start + b@.take(i as int + 1));
        i += 1;
    }
    assert(b@.take(i as int) =~= b@);
    r
}

/// Every term's coefficient multiplied by `f`.
fn scale_terms(ts: &mut Vec<Term>, f: &Mersenne31Field)
    requires
        all_wf(old(ts)@),
        f.wf(),
    ensures
        final(ts)@ == scaled_terms(old(ts)@, f.val()),
        all_wf(final(ts)@),
{
    let n = ts.len();
    let mut i: usize = 0;
    while i < n
        invariant
            n == ts@.len(),
            0 <= i <= n,
            f.wf(),
            forall|k: int| 0 <= k < i ==> ts@[k] == scaled_term(old(ts)@[k], f.val()),
            forall|k: int| i <= k < n ==> ts@[k] == old(ts)@[k],
            all_wf(ts@),
        decreases n - i,
    {
        let mut t = ts[i];
        t.scale(f);
        ts.set(i, t);
        i += 1;
    }
    assert(ts@ =~= scaled_terms(old(ts)@, f.val()));
}

/// Scaling the terms scales every coefficient.
pub proof fn lemma_coef_scaled(ts: Seq<Term>, f: int, m: Multiset<u64>)
    requires
        all_wf(ts),
    ensures
        coef(scaled_terms(ts, f), m) % modulus() == (coef(ts, m) * f) % modulus(),
    decreases ts.len(),
{
    let p = modulus();
    if ts.len() == 0 {
        assert(coef(scaled_terms(ts, f), m) == 0);
        vstd::arithmetic::div_mod::lemma_small_mod(0, p as nat);
    } else {
        let s = scaled_terms(ts, f);
        assert(s.drop_last() =~= scaled_terms(ts.drop_last(), f));
        lemma_coef_scaled(ts.drop_last(), f, m);
        let t = ts.last();
        assert(ts[ts.len() - 1] == t);
        assert(s.last() == scaled_term(t, f));
        assert(scaled_term(t, f).monomial() == t.monomial());
        let c = coef(ts.drop_last(), m);
        let sh = term_share(t, m);
        let cs = coef(s.drop_last(), m);
        let shs = term_share(scaled_term(t, f), m);
        assert(0 <= (t.coef_val() * f) % p < p) by {
            vstd::arithmetic::div_mod::lemma_mod_bound(t.coef_val() * f, p);
        }
        assert(shs == (sh * f) % p);
        vstd::arithmetic::div_mod::lemma_add_mod_noop(cs, shs, p);
        vstd::arithmetic::div_mod::lemma_add_mod_noop(c * f, sh * f, p);
        vstd::arithmetic::div_mod::lemma_mod_twice(sh * f, p);
        assert((c + sh) * f == c * f + sh * f) by (nonlinear_arith);
    }
}

impl Constraint {
    /// The constraint with no terms: the zero polynomial.
    pub fn empty() -> (r: Constraint)
        ensures
            r@ == Seq::<Term>::empty(),
    {
        Constraint { terms: Vec::new() }
    }

    pub fn is_empty(&self) -> (r: bool)
        ensures
            r == (self@.len() == 0),
    {
        self.terms.len() == 0
    }

    /// The constant constraint `fr`.
    pub fn constant(fr: Mersenne31Field) -> (r: Constraint)
        ensures
            r@ == seq![Term::Constant(fr)],
    {
        Constraint { terms: vec![Term::Constant(fr)] }
    }

    /// The constant constraint `value`.
    pub fn from_field(value: Mersenne31Field) -> (r: Constraint)
        ensures
            r@ == seq![Term::Constant(value)],
    {
        Constraint { terms: vec![Term::from_field(value)] }
    }

    /// The linear constraint `1 * variable`.
    pub fn from_variable(variable: Variable) -> (r: Constraint)
        ensures
            r@ == seq![
                Term::Expression {
                    coeff: Mersenne31Field { v: 1 },
                    inner: [variable, placeholder(), placeholder(), placeholder()],
                    degree: 1,
                },
            ],
    {
        Constraint { terms: vec![Term::from_variable(variable)] }
    }

    /// The constant constraint congruent to `value`.
    pub fn from_u64(value: u64) -> (r: Constraint)
        ensures
            r@ == seq![Term::Constant(Mersenne31Field::spec_from_int(value as int % modulus()))],
    {
        Constraint { terms: vec![Term::from_u64(value)] }
    }

    /// The one-term constraint of a number.
    pub fn from_num(value: Num) -> (r: Constraint)
        ensures
            r@ == seq![Term::from_num_spec(value)],
    {
        Constraint { terms: vec![Term::from_num(value)] }
    }

    /// The one-term constraint of a boolean that is not negated.
    pub fn from_boolean(value: Boolean) -> (r: Constraint)
        requires
            !(value is Not),
        ensures
            r@.len() == 1,
            r@[0] == Term::from_boolean_spec(value),
    {
        Constraint { terms: vec![Term::from_boolean(value)] }
    }

    /// The constant constraint 0 or 1.
    pub fn from_bool(value: bool) -> (r: Constraint)
        ensures
            r@ == seq![Term::Constant(Mersenne31Field { v: if value { 1 } else { 0 } })],
    {
        Constraint { terms: vec![Term::Constant(Mersenne31Field { v: if value { 1 } else { 0 } })] }
    }

    /// The constraint made of one term.
    pub fn from_term(value: Term) -> (r: Constraint)
        ensures
            r@ == seq![value],
    {
        Constraint { terms: vec![value] }
    }

    /// Normalizes in place: normalizes each term, combines like terms, drops
    /// zero terms and orders the rest by key. The polynomial is unchanged,
    /// and must be of degree at most 2.
    pub fn normalize(&mut self)
        requires
            all_wf(old(self)@),
            poly_degree_le(old(self)@, 2),
        ensures
            normalizes_to(old(self)@, final(self)@),
            max_deg(final(self)@) <= max_deg(old(self)@),
            max_deg(final(self)@) <= 2,
    {
        let mut combined: Vec<Term> = Vec::new();
        let n = self.terms.len();
        let mut i: usize = 0;
        assert(self@.take(0) =~= Seq::<Term>::empty());
        assert forall|m: Multiset<u64>| #[trigger] coef(combined@, m) == coef(self@.take(0), m)
            % modulus() by {
            vstd::arithmetic::div_mod::lemma_small_mod(0, modulus() as nat);
        }
        while i < n
            invariant
                n == self@.len(),
                self@ == old(self)@,
                all_wf(self@),
                0 <= i <= n,
                canonical(combined@),
                forall|m: Multiset<u64>| #[trigger]
                    coef(combined@, m) == coef(self@.take(i as int), m) % modulus(),
            decreases n - i,
        {
            let orig = self.terms[i];
            let mut t = orig;
            t.normalize();
            let ghost before = combined@;
            if !t.is_zero() {
                insert_combine(&mut combined, t);
            }
            proof {
                assert forall|m: Multiset<u64>| #[trigger] coef(combined@, m) == coef(
                    self@.take(i as int + 1),
                    m,
                ) % modulus() by {
                    assert(self@.take(i as int + 1).drop_last() =~= self@.take(i as int));
                    assert(self@.take(i as int + 1).last() == orig);
                    vstd::arithmetic::div_mod::lemma_add_mod_noop(
                        coef(self@.take(i as int), m),
                        term_share(orig, m),
                        modulus(),
                    );
                    lemma_canonical_coef_range(before, m);
                    vstd::arithmetic::div_mod::lemma_small_mod(
                        term_share(orig, m) as nat,
                        modulus() as nat,
                    );
                    vstd::arithmetic::div_mod::lemma_small_mod(
                        coef(before, m) as nat,
                        modulus() as nat,
                    );
                }
            }
            i += 1;
        }
        assert(self@.take(n as int) =~= self@);
        self.terms = combined;
        proof {
            assert forall|m: Multiset<u64>| #![trigger coef(final(self)@, m)] #![trigger coef(old(self)@, m)]
                coef(self@, m) % modulus() == coef(old(self)@, m) % modulus() by {
                lemma_canonical_coef_range(self@, m);
            }
            lemma_normal_form_degree(old(self)@, self@, 2);
        }
    }
}

impl Term {
    /// The product of two terms, as a one-term constraint. The degrees may
    /// add up to 4 here; normalization of a constraint allows at most 2.
    pub fn mul(self, rhs: Term) -> (r: Constraint)
        requires
            self.wf(),
            rhs.wf(),
            self.deg() + rhs.deg() <= 4,
        ensures
            r@ == seq![term_product(self, rhs)],
    {
        let coeff = self.get_coef().mul(&rhs.get_coef());
        let t = match (self, rhs) {
            (
                Term::Expression { inner, degree, .. },
                Term::Expression { inner: inner2, degree: degree2, .. },
            ) => {
                let d = degree + degree2;
                let s0 = if 0 < degree { inner[0] } else if 0 < d { inner2[0 - degree] } else { inner[0] };
                let s1 = if 1 < degree { inner[1] } else if 1 < d { inner2[1 - degree] } else { inner[1] };
                let s2 = if 2 < degree { inner[2] } else if 2 < d { inner2[2 - degree] } else { inner[2] };
                let s3 = if 3 < degree { inner[3] } else if 3 < d { inner2[3 - degree] } else { inner[3] };
                Term::Expression { coeff, inner: [s0, s1, s2, s3], degree: d }
            },
            (Term::Expression { inner, degree, .. }, Term::Constant(_)) => Term::Expression {
                coeff,
                inner,
                degree,
            },
            (Term::Constant(_), Term::Expression { inner, degree, .. }) => Term::Expression {
                coeff,
                inner,
                degree,
            },
            (Term::Constant(_), Term::Constant(_)) => Term::Constant(coeff),
        };
        assert(t == term_product(self, rhs));
        Constraint { terms: vec![t] }
    }
}

/// One row of a product: `a` times each term of `b`.
pub open spec fn product_row(a: Term, b: Seq<Term>) -> Seq<Term> {
    Seq::new(b.len(), |j: int| term_product(a, b[j]))
}

/// All pairwise products, row by row.
pub open spec fn product_terms(a: Seq<Term>, b: Seq<Term>) -> Seq<Term>
    decreases a.len(),
{
    if a.len() == 0 {
        Seq::empty()
    } else {
        product_terms(a.drop_last(), b) + product_row(a.last(), b)
    }
}

/// Products of terms stay within the term capacity, and those with
/// non-zero coefficients are at most quadratic.
pub open spec fn product_degree_ok(a: Seq<Term>, b: Seq<Term>) -> bool {
    forall|i: int, j: int|
        0 <= i < a.len() && 0 <= j < b.len() ==> {
            &&& (#[trigger] a[i]).deg() + (#[trigger] b[j]).deg() <= 4
            &&& (a[i].coef_val() != 0 && b[j].coef_val() != 0 ==> a[i].deg() + b[j].deg() <= 2)
        }
}

/// Terms whose non-zero members have at most `d` variables form a polynomial of degree at most `d`.
pub proof fn lemma_terms_degree_le(ts: Seq<Term>, d: nat)
    requires
        forall|i: int| 0 <= i < ts.len() && (#[trigger] ts[i]).coef_val() != 0 ==> ts[i].deg() <= d,
        all_wf(ts),
    ensures
        poly_degree_le(ts, d),
{
    assert forall|m: Multiset<u64>| #[trigger] coef(ts, m) % modulus() != 0 implies m.len() <= d by {
        vstd::arithmetic::div_mod::lemma_small_mod(0, modulus() as nat);
        lemma_coef_witness(ts, m);
        let k = choose|k: int| 0 <= k < ts.len() && (#[trigger] ts[k]).monomial() == m && ts[k].coef_val() != 0;
        ts[k].vars().to_multiset_ensures();
        assert(ts[k].vars().len() == ts[k].deg());
    }
}

/// Each pairwise product within the term capacity is well formed.
pub proof fn lemma_product_terms_wf(a: Seq<Term>, b: Seq<Term>)
    requires
        all_wf(a),
        all_wf(b),
        forall|i: int, j: int|
            0 <= i < a.len() && 0 <= j < b.len() ==> (#[trigger] a[i]).deg() + (#[trigger] b[j]).deg() <= 4,
    ensures
        all_wf(product_terms(a, b)),
    decreases a.len(),
{
    if a.len() > 0 {
        let a2 = a.drop_last();
        assert forall|i: int, j: int| 0 <= i < a2.len() && 0 <= j < b.len() implies (#[trigger] a2[i]).deg()
            + (#[trigger] b[j]).deg() <= 4 by {
            assert(a2[i] == a[i]);
        }
        lemma_product_terms_wf(a2, b);
        let x = a.last();
        assert(x == a[a.len() - 1]);
        let pre = product_terms(a2, b);
        let all = product_terms(a, b);
        assert forall|k: int| 0 <= k < all.len() implies (#[trigger] all[k]).wf() by {
            if k >= pre.len() {
                lemma_term_product(x, b[k - pre.len()]);
            } else {
                assert(all[k] == pre[k]);
            }
        }
    }
}

/// Each pairwise product is well formed, and at most quadratic unless zero.
pub proof fn lemma_product_terms_shape(a: Seq<Term>, b: Seq<Term>)
    requires
        all_wf(a),
        all_wf(b),
        product_degree_ok(a, b),
    ensures
        all_wf(product_terms(a, b)),
        forall|k: int| 0 <= k < product_terms(a, b).len() && (#[trigger] product_terms(a, b)[k]).coef_val() != 0
            ==> product_terms(a, b)[k].deg() <= 2,
    decreases a.len(),
{
    if a.len() > 0 {
        let a2 = a.drop_last();
        assert forall|i: int, j: int| 0 <= i < a2.len() && 0 <= j < b.len() implies {
            &&& (#[trigger] a2[i]).deg() + (#[trigger] b[j]).deg() <= 4
            &&& (a2[i].coef_val() != 0 && b[j].coef_val() != 0 ==> a2[i].deg() + b[j].deg() <= 2)
        } by {
            assert(a2[i] == a[i]);
        }
        lemma_product_terms_shape(a2, b);
        let x = a.last();
        assert(x == a[a.len() - 1]);
        let pre = product_terms(a2, b);
        let row = product_row(x, b);
        let all = product_terms(a, b);
        assert(all == pre + row);
        assert forall|k: int| 0 <= k < all.len() implies (#[trigger] all[k]).wf() && (all[k].coef_val() != 0 ==> all[k].deg() <= 2) by {
            if k >= pre.len() {
                let j = k - pre.len();
                assert(all[k] == term_product(x, b[j]));
                lemma_term_product(x, b[j]);
                if all[k].coef_val() != 0 {
                    if x.coef_val() == 0 || b[j].coef_val() == 0 {
                        assert(x.coef_val() * b[j].coef_val() == 0) by (nonlinear_arith)
                            requires x.coef_val() == 0 || b[j].coef_val() == 0;
                        vstd::arithmetic::div_mod::lemma_small_mod(0, modulus() as nat);
                    }
                }
            } else {
                assert(all[k] == pre[k]);
            }
        }
    }
}

impl Constraint {
    /// The product of two constraints: every pair of terms multiplied, then normalized.
    pub fn mul(self, rhs: Constraint) -> (r: Constraint)
        requires
            all_wf(self@),
            all_wf(rhs@),
            product_degree_ok(self@, rhs@),
        ensures
            normalizes_to(product_terms(self@, rhs@), r@),
    {
        let mut acc: Vec<Term> = Vec::new();
        let mut i: usize = 0;
        while i < self.terms.len()
            invariant
                all_wf(self@),
                all_wf(rhs@),
                product_degree_ok(self@, rhs@),
                0 <= i <= self@.len(),
                acc@ == product_terms(self@.take(i as int), rhs@),
            decreases self@.len() - i,
        {
            let ghost before = acc@;
            let t = self.terms[i];
            let mut j: usize = 0;
            while j < rhs.terms.len()
                invariant
                    all_wf(self@),
                    all_wf(rhs@),
                    product_degree_ok(self@, rhs@),
                    i < self@.len(),
                    t == self@[i as int],
                    0 <= j <= rhs@.len(),
                    acc@ == before + product_row(t, rhs@.take(j as int)),
                decreases rhs@.len() - j,
            {
                let u = rhs.terms[j];
                assert(t.deg() + u.deg() <= 4);
                let prod = t.mul(u);
                acc.push(prod.terms[0]);
                assert(acc@ =~= before + product_row(t, rhs@.take(j as int + 1)));
                j += 1;
            }
            assert(rhs@.take(j as int) =~= rhs@);
            assert(self@.take(i as int + 1).drop_last() =~= self@.take(i as int));
            i += 1;
        }
        assert(self@.take(i as int) =~= self@);
        proof {
            lemma_product_terms_shape(self@, rhs@);
            lemma_terms_degree_le(product_terms(self@, rhs@), 2);
        }
        let mut ans = Constraint { terms: acc };
        ans.normalize();
        ans
    }

    /// The constraint times a term, normalized.
    pub fn mul_term(self, rhs: Term) -> (r: Constraint)
        requires
            rhs.wf(),
            all_wf(self@),
            product_degree_ok(self@, seq![rhs]),
        ensures
            normalizes_to(product_terms(self@, seq![rhs]), r@),
    {
        proof {
            assert(all_wf(seq![rhs]));
        }
        self.mul(Constraint::from_term(rhs))
    }
}

impl Term {
    /// The two terms as a constraint, without normalizing.
    pub fn add(self, rhs: Term) -> (r: Constraint)
        ensures
            r@ == seq![self, rhs],
    {
        Constraint { terms: vec![self, rhs] }
    }

    /// The term and the negated other term as a constraint, without normalizing.
    pub fn sub(self, rhs: Term) -> (r: Constraint)
        requires
            rhs.wf(),
        ensures
            r@ == seq![self, scaled_term(rhs, modulus() - 1)],
    {
        let mut t = rhs;
        t.scale(&Mersenne31Field::minus_one());
        Constraint { terms: vec![self, t] }
    }

    /// The term times a constraint, normalized.
    pub fn mul_constraint(self, rhs: Constraint) -> (r: Constraint)
        requires
            self.wf(),
            all_wf(rhs@),
            product_degree_ok(rhs@, seq![self]),
        ensures
            normalizes_to(product_terms(rhs@, seq![self]), r@),
    {
        rhs.mul_term(self)
    }
}

impl Constraint {
    /// The sum of two constraints, normalized.
    pub fn add(self, rhs: Constraint) -> (r: Constraint)
        requires
            all_wf(self@),
            all_wf(rhs@),
            poly_degree_le(self@ + rhs@, 2),
        ensures
            normalizes_to(self@ + rhs@, r@),
    {
        let mut ans = Constraint { terms: concat_terms(self.terms, rhs.terms) };
        ans.normalize();
        ans
    }

    /// The difference of two constraints, normalized.
    pub fn sub(self, rhs: Constraint) -> (r: Constraint)
        requires
            all_wf(self@),
            all_wf(rhs@),
            poly_degree_le(self@ + negated(rhs@), 2),
        ensures
            normalizes_to(self@ + negated(rhs@), r@),
    {
        let mut neg = rhs.terms;
        scale_terms(&mut neg, &Mersenne31Field::minus_one());
        let mut ans = Constraint { terms: concat_terms(self.terms, neg) };
        ans.normalize();
        ans
    }

    /// Multiplies every coefficient and the constant by the factor.
    pub fn scale(&mut self, scaling_factor: Mersenne31Field)
        requires
            all_wf(old(self)@),
            scaling_factor.wf(),
        ensures
            final(self)@ == scaled_terms(old(self)@, scaling_factor.val()),
            all_wf(final(self)@),
    {
        scale_terms(&mut self.terms, &scaling_factor);
    }

    /// Appends one term, without normalizing.
    pub fn add_assign_term(&mut self, rhs: Term)
        ensures
            final(self)@ == old(self)@.push(rhs),
    {
        self.terms.push(rhs);
    }

    /// The constraint with one more term, without normalizing.
    pub fn add_term(self, rhs: Term) -> (r: Constraint)
        ensures
            r@ == self@.push(rhs),
    {
        let mut ans = self;
        ans.terms.push(rhs);
        ans
    }

    /// The constraint with one more, negated, term, without normalizing.
    pub fn sub_term(self, rhs: Term) -> (r: Constraint)
        requires
            rhs.wf(),
        ensures
            r@ == self@.push(scaled_term(rhs, modulus() - 1)),
    {
        let mut ans = self;
        let mut t = rhs;
        t.scale(&Mersenne31Field::minus_one());
        ans.terms.push(t);
        ans
    }

    /// Appends one negated term, without normalizing.
    pub fn sub_assign_term(&mut self, rhs: Term)
        requires
            rhs.wf(),
        ensures
            final(self)@ == old(self)@.push(scaled_term(rhs, modulus() - 1)),
    {
        let mut t = rhs;
        t.scale(&Mersenne31Field::minus_one());
        self.terms.push(t);
    }
}

/// The terms that do not hold variable `v`, in order.
pub open spec fn without_var(ts: Seq<Term>, v: u64) -> Seq<Term>
    decreases ts.len(),
{
    if ts.len() == 0 {
        Seq::empty()
    } else {
        let r = without_var(ts.drop_last(), v);
        if ts.last().vars().contains(v) {
            r
        } else {
            r.push(ts.last())
        }
    }
}

/// The coefficient of the last term that holds variable `v`.
pub open spec fn last_prefactor(ts: Seq<Term>, v: u64) -> int
    decreases ts.len(),
{
    if ts.len() == 0 {
        0
    } else if ts.last().vars().contains(v) {
        ts.last().coef_val()
    } else {
        last_prefactor(ts.drop_last(), v)
    }
}

/// Some term holds variable `v`.
pub open spec fn holds_var(ts: Seq<Term>, v: u64) -> bool {
    exists|i: int| 0 <= i < ts.len() && (#[trigger] ts[i]).vars().contains(v)
}

/// The largest multiplicity of variable `v` over the terms.
pub open spec fn max_multiplicity(ts: Seq<Term>, v: u64) -> nat
    decreases ts.len(),
{
    if ts.len() == 0 {
        0
    } else {
        let d = max_multiplicity(ts.drop_last(), v);
        let c = ts.last().monomial().count(v);
        if c > d {
            c
        } else {
            d
        }
    }
}

/// The inverse of `a` modulo the field modulus.
pub open spec fn inverse_of(a: int) -> int {
    choose|y: int| 0 <= y < modulus() && #[trigger] ((a * y) % modulus()) == 1
}

/// The negated inverse of `a`.
pub open spec fn neg_inverse_of(a: int) -> int {
    (modulus() - inverse_of(a)) % modulus()
}

/// Inverses are unique.
pub proof fn lemma_inverse_unique(a: int, y1: int, y2: int)
    requires
        0 <= y1 < modulus(),
        0 <= y2 < modulus(),
        (a * y1) % modulus() == 1,
        (a * y2) % modulus() == 1,
    ensures
        y1 == y2,
{
    let p = modulus();
    vstd::arithmetic::div_mod::lemma_mul_mod_noop_right(y1, a * y2, p);
    vstd::arithmetic::div_mod::lemma_small_mod(y1 as nat, p as nat);
    vstd::arithmetic::div_mod::lemma_small_mod(y2 as nat, p as nat);
    assert(y1 * (a * y2) == (y1 * a) * y2) by (nonlinear_arith);
    assert(y1 * a == a * y1) by (nonlinear_arith);
    vstd::arithmetic::div_mod::lemma_mul_mod_noop_left(y1 * a, y2, p);
}

fn copy_terms(ts: &Vec<Term>) -> (r: Vec<Term>)
    ensures
        r@ == ts@,
{
    let mut r: Vec<Term> = Vec::new();
    let mut i: usize = 0;
    while i < ts.len()
        invariant
            0 <= i <= ts@.len(),
            r@ == ts@.take(i as int),
        decreases ts@.len() - i,
    {
        r.push(ts[i]);
        assert(r@ =~= ts@.take(i as int + 1));
        i += 1;
    }
    assert(ts@.take(i as int) =~= ts@);
    r
}

/// Scaling by any factor keeps a degree bound of the polynomial.
pub proof fn lemma_scaled_degree(ts: Seq<Term>, f: int, d: nat)
    requires
        all_wf(ts),
        poly_degree_le(ts, d),
    ensures
        poly_degree_le(scaled_terms(ts, f), d),
{
    assert forall|m: Multiset<u64>| #[trigger] coef(scaled_terms(ts, f), m) % modulus() != 0 implies m.len() <= d by {
        lemma_coef_scaled(ts, f, m);
        vstd::arithmetic::div_mod::lemma_mul_mod_noop_left(coef(ts, m), f, modulus());
        if coef(ts, m) % modulus() == 0 {
            vstd::arithmetic::div_mod::lemma_small_mod(0, modulus() as nat);
        }
    }
}

/// The other variable of a quadratic term that holds `v`.
pub open spec fn other_var(t: Term, v: u64) -> Variable {
    match t {
        Term::Expression { inner, .. } => if inner[0].0 == v {
            inner[1]
        } else {
            inner[0]
        },
        Term::Constant(_) => placeholder(),
    }
}

/// The linear term `c * w`.
pub open spec fn linear_term(c: Mersenne31Field, w: Variable) -> Term {
    Term::Expression { coeff: c, inner: [w, placeholder(), placeholder(), placeholder()], degree: 1 }
}

/// What replaces a term holding `v` once `v` is replaced by `e`.
pub open spec fn replacement(t: Term, v: u64, e: Seq<Term>) -> Seq<Term> {
    if t.deg() == 1 {
        scaled_terms(e, t.coef_val())
    } else {
        product_terms(e, seq![linear_term(t.get_coef_spec(), other_var(t, v))])
    }
}

/// The replacements of all terms holding `v`, in order.
pub open spec fn replacements(ts: Seq<Term>, v: u64, e: Seq<Term>) -> Seq<Term>
    decreases ts.len(),
{
    if ts.len() == 0 {
        Seq::empty()
    } else {
        let r = replacements(ts.drop_last(), v, e);
        if ts.last().vars().contains(v) {
            r + replacement(ts.last(), v, e)
        } else {
            r
        }
    }
}

/// The terms with `v` replaced by `e`, before normalization.
pub open spec fn substituted(ts: Seq<Term>, v: u64, e: Seq<Term>) -> Seq<Term> {
    without_var(ts, v) + replacements(ts, v, e)
}

pub proof fn lemma_without_var_wf(ts: Seq<Term>, v: u64)
    requires
        all_wf(ts),
    ensures
        all_wf(without_var(ts, v)),
    decreases ts.len(),
{
    if ts.len() > 0 {
        lemma_without_var_wf(ts.drop_last(), v);
        assert(ts[ts.len() - 1] == ts.last());
    }
}

pub proof fn lemma_scaled_wf(ts: Seq<Term>, f: int)
    requires
        all_wf(ts),
    ensures
        all_wf(scaled_terms(ts, f)),
{
    assert forall|i: int| 0 <= i < scaled_terms(ts, f).len() implies (#[trigger] scaled_terms(ts, f)[i]).wf() by {
        vstd::arithmetic::div_mod::lemma_mod_bound(ts[i].coef_val() * f, modulus());
    }
}

/// The terms of a substitution are well formed.
pub proof fn lemma_replacements_wf(ts: Seq<Term>, v: u64, e: Seq<Term>)
    requires
        all_wf(ts),
        all_wf(e),
        forall|j: int| 0 <= j < e.len() ==> (#[trigger] e[j]).deg() <= 2,
        forall|i: int| 0 <= i < ts.len() && (#[trigger] ts[i]).vars().contains(v) ==> ts[i].deg() <= 2,
    ensures
        all_wf(replacements(ts, v, e)),
    decreases ts.len(),
{
    if ts.len() > 0 {
        let t = ts.last();
        assert(ts[ts.len() - 1] == t);
        lemma_replacements_wf(ts.drop_last(), v, e);
        if t.vars().contains(v) {
            if t.deg() == 1 {
                lemma_scaled_wf(e, t.coef_val());
            } else {
                let lin = linear_term(t.get_coef_spec(), other_var(t, v));
                assert(all_wf(seq![lin]));
                assert forall|i: int, j: int| 0 <= i < e.len() && 0 <= j < 1 implies (#[trigger] e[i]).deg()
                    + (#[trigger] seq![lin][j]).deg() <= 4 by {
                    assert(seq![lin][j] == lin);
                }
                lemma_product_terms_wf(e, seq![lin]);
            }
        }
        let r = replacements(ts, v, e);
        assert forall|k: int| 0 <= k < r.len() implies (#[trigger] r[k]).wf() by {
            let r0 = replacements(ts.drop_last(), v, e);
            if k < r0.len() {
                assert(r[k] == r0[k]);
            }
        }
    }
}

impl Constraint {
    /// Some term holds the variable.
    pub fn contains_var(&self, variable: &Variable) -> (r: bool)
        requires
            all_wf(self@),
        ensures
            r == holds_var(self@, variable.0),
    {
        let mut i: usize = 0;
        while i < self.terms.len()
            invariant
                all_wf(self@),
                0 <= i <= self@.len(),
                forall|k: int| 0 <= k < i ==> !(#[trigger] self@[k]).vars().contains(variable.0),
            decreases self@.len() - i,
        {
            if self.terms[i].contains_var(variable) {
                return true;
            }
            i += 1;
        }
        false
    }

    /// The largest multiplicity of the variable over the terms.
    pub fn degree_for_var(&self, variable: &Variable) -> (r: usize)
        requires
            all_wf(self@),
        ensures
            r == max_multiplicity(self@, variable.0),
    {
        let mut degree: usize = 0;
        let mut i: usize = 0;
        assert(self@.take(0) =~= Seq::<Term>::empty());
        while i < self.terms.len()
            invariant
                all_wf(self@),
                0 <= i <= self@.len(),
                degree == max_multiplicity(self@.take(i as int), variable.0),
            decreases self@.len() - i,
        {
            let d = self.terms[i].degree_for_var(variable);
            assert(self@.take(i as int + 1).drop_last() =~= self@.take(i as int));
            if d > degree {
                degree = d;
            }
            i += 1;
        }
        assert(self@.take(i as int) =~= self@);
        degree
    }

    /// Solves a constraint that is linear in the variable for that
    /// variable: with `a` the coefficient of (the last) term holding it and
    /// `rest` the terms without it, returns `-a^-1 * rest`, normalized.
    pub fn express_variable(&self, variable: Variable) -> (r: Constraint)
        requires
            all_wf(self@),
            holds_var(self@, variable.0),
            max_multiplicity(self@, variable.0) == 1,
            has_inverse(last_prefactor(self@, variable.0)),
            poly_degree_le(without_var(self@, variable.0), 2),
        ensures
            normalizes_to(
                scaled_terms(
                    without_var(self@, variable.0),
                    neg_inverse_of(last_prefactor(self@, variable.0)),
                ),
                r@,
            ),
    {
        let ghost v = variable.0;
        let mut new_terms: Vec<Term> = Vec::new();
        let mut prefactor = Mersenne31Field::zero();
        let mut i: usize = 0;
        assert(self@.take(0) =~= Seq::<Term>::empty());
        while i < self.terms.len()
            invariant
                all_wf(self@),
                0 <= i <= self@.len(),
                v == variable.0,
                prefactor.wf(),
                prefactor.val() == last_prefactor(self@.take(i as int), v),
                new_terms@ == without_var(self@.take(i as int), v),
            decreases self@.len() - i,
        {
            let term = self.terms[i];
            assert(self@.take(i as int + 1).drop_last() =~= self@.take(i as int));
            assert(self@.take(i as int + 1).last() == term);
            if term.contains_var(&variable) {
                prefactor = term.prefactor_for_var(&variable);
            } else {
                new_terms.push(term);
            }
            i += 1;
        }
        assert(self@.take(i as int) =~= self@);
        let a = prefactor.inverse();
        let y = match a {
            Some(y) => y,
            None => {
                proof {
                    assert(false);
                }
                Mersenne31Field::zero()
            },
        };
        let f = y.negate();
        proof {
            let pa = last_prefactor(self@, v);
            let w = inverse_of(pa);
            assert(0 <= w < modulus() && (pa * w) % modulus() == 1);
            lemma_inverse_unique(pa, y.val(), w);
            lemma_without_var_wf(self@, v);
            lemma_scaled_degree(without_var(self@, v), f.val(), 2);
        }
        scale_terms(&mut new_terms, &f);
        let mut new = Constraint { terms: new_terms };
        new.normalize();
        new
    }

    /// Replaces the variable by an expression and normalizes: a linear
    /// occurrence `c * v` becomes `c * expression`, a quadratic one
    /// `c * v * w` becomes `expression * (c * w)`.
    pub fn substitute_variable(&self, variable: Variable, expression: Constraint) -> (r: Constraint)
        requires
            all_wf(self@),
            all_wf(expression@),
            holds_var(self@, variable.0),
            max_multiplicity(self@, variable.0) == 1,
            forall|i: int|
                0 <= i < self@.len() && (#[trigger] self@[i]).vars().contains(variable.0) ==> {
                    &&& self@[i].deg() <= 2
                    &&& (self@[i].deg() == 2 ==> other_var(self@[i], variable.0).0 != PLACEHOLDER_ID)
                },
            forall|j: int| 0 <= j < expression@.len() ==> (#[trigger] expression@[j]).deg() <= 2,
            poly_degree_le(substituted(self@, variable.0, expression@), 2),
        ensures
            normalizes_to(substituted(self@, variable.0, expression@), r@),
    {
        let ghost v = variable.0;
        let ghost e = expression@;
        let mut rest: Vec<Term> = Vec::new();
        let mut extra: Vec<Term> = Vec::new();
        let mut i: usize = 0;
        assert(self@.take(0) =~= Seq::<Term>::empty());
        while i < self.terms.len()
            invariant
                all_wf(self@),
                all_wf(e),
                e == expression@,
                forall|j: int| 0 <= j < e.len() ==> (#[trigger] e[j]).deg() <= 2,
                forall|k: int|
                    0 <= k < self@.len() && (#[trigger] self@[k]).vars().contains(variable.0) ==> self@[k].deg() <= 2,
                0 <= i <= self@.len(),
                v == variable.0,
                rest@ == without_var(self@.take(i as int), v),
                extra@ == replacements(self@.take(i as int), v, e),
            decreases self@.len() - i,
        {
            let term = self.terms[i];
            assert(self@.take(i as int + 1).drop_last() =~= self@.take(i as int));
            assert(self@.take(i as int + 1).last() == term);
            if term.contains_var(&variable) {
                match term {
                    Term::Expression { coeff, inner, degree } => {
                        if degree == 1 {
                            let mut scaled = copy_terms(&expression.terms);
                            scale_terms(&mut scaled, &coeff);
                            extra = concat_terms(extra, scaled);
                        } else {
                            let other = if inner[0].0 == variable.0 {
                                inner[1]
                            } else {
                                inner[0]
                            };
                            let lin = Term::from_coeff_and_variable(coeff, other);
                            assert(lin == linear_term(term.get_coef_spec(), other_var(term, v)));
                            let ghost before = extra@;
                            let mut j: usize = 0;
                            assert(e.take(0) =~= Seq::<Term>::empty());
                            assert(before =~= before + product_terms(e.take(0), seq![lin]));
                            while j < expression.terms.len()
                                invariant
                                    all_wf(e),
                                    e == expression@,
                                    forall|k: int| 0 <= k < e.len() ==> (#[trigger] e[k]).deg() <= 2,
                                    lin.wf(),
                                    lin.deg() == 1,
                                    0 <= j <= e.len(),
                                    extra@ == before + product_terms(e.take(j as int), seq![lin]),
                                decreases e.len() - j,
                            {
                                let x = expression.terms[j];
                                let prod = x.mul(lin);
                                extra.push(prod.terms[0]);
                                assert(e.take(j as int + 1).drop_last() =~= e.take(j as int));
                                assert(product_row(x, seq![lin]) =~= seq![term_product(x, lin)]);
                                assert(extra@ =~= before + product_terms(e.take(j as int + 1), seq![lin]));
                                j += 1;
                            }
                            assert(e.take(j as int) =~= e);
                        }
                    },
                    Term::Constant(_) => {
                        assert(term.vars().len() == 0);
                    },
                }
            } else {
                rest.push(term);
            }
            i += 1;
        }
        assert(self@.take(i as int) =~= self@);
        let all = concat_terms(rest, extra);
        proof {
            lemma_without_var_wf(self@, v);
            lemma_replacements_wf(self@, v, e);
            assert forall|k: int| 0 <= k < all@.len() implies (#[trigger] all@[k]).wf() by {
                let w = without_var(self@, v);
                if k < w.len() {
                    assert(all@[k] == w[k]);
                } else {
                    assert(all@[k] == replacements(self@, v, e)[k - w.len()]);
                }
            }
        }
        let mut new = Constraint { terms: all };
        new.normalize();
        new
    }
}

/// The quadratic terms of a normal form, as `(coeff, a, b)`.
pub open spec fn quadratic_part(n: Seq<Term>) -> Seq<(Mersenne31Field, Variable, Variable)>
    decreases n.len(),
{
    if n.len() == 0 {
        Seq::empty()
    } else {
        let r = quadratic_part(n.drop_last());
        match n.last() {
            Term::Expression { coeff, inner, degree } => if degree == 2 {
                r.push((coeff, inner[0], inner[1]))
            } else {
                r
            },
            Term::Constant(_) => r,
        }
    }
}

/// The linear terms of a normal form, as `(coeff, a)`.
pub open spec fn linear_part(n: Seq<Term>) -> Seq<(Mersenne31Field, Variable)>
    decreases n.len(),
{
    if n.len() == 0 {
        Seq::empty()
    } else {
        let r = linear_part(n.drop_last());
        match n.last() {
            Term::Expression { coeff, inner, degree } => if degree == 1 {
                r.push((coeff, inner[0]))
            } else {
                r
            },
            Term::Constant(_) => r,
        }
    }
}

/// The constant of a normal form, zero if it has none.
pub open spec fn constant_part(n: Seq<Term>) -> Mersenne31Field
    decreases n.len(),
{
    if n.len() == 0 {
        Mersenne31Field { v: 0 }
    } else {
        match n.last() {
            Term::Constant(c) => c,
            Term::Expression { .. } => constant_part(n.drop_last()),
        }
    }
}

impl Constraint {
    /// The largest degree among the terms.
    pub fn degree(&self) -> (r: usize)
        ensures
            r == max_deg(self@),
    {
        let mut d: usize = 0;
        let mut i: usize = 0;
        assert(self@.take(0) =~= Seq::<Term>::empty());
        while i < self.terms.len()
            invariant
                0 <= i <= self@.len(),
                d == max_deg(self@.take(i as int)),
            decreases self@.len() - i,
        {
            let td = self.terms[i].degree();
            assert(self@.take(i as int + 1).drop_last() =~= self@.take(i as int));
            if td > d {
                d = td;
            }
            i += 1;
        }
        assert(self@.take(i as int) =~= self@);
        d
    }

    /// The value of a constraint made of a single constant term.
    pub fn as_constant(&self) -> (r: Mersenne31Field)
        requires
            max_deg(self@) == 0,
            self@.len() == 1,
        ensures
            r == self@[0].get_coef_spec(),
    {
        self.terms[0].get_coef()
    }

    /// The single term of a constraint of degree at most 1.
    pub fn as_term(&self) -> (r: Term)
        requires
            max_deg(self@) <= 1,
            self@.len() == 1,
        ensures
            r == self@[0],
    {
        self.terms[0]
    }

    /// Normalizes, then splits into quadratic terms `(coeff, a, b)`, linear
    /// terms `(coeff, a)` and the constant.
    pub fn split_max_quadratic(self) -> (r: (
        Vec<(Mersenne31Field, Variable, Variable)>,
        Vec<(Mersenne31Field, Variable)>,
        Mersenne31Field,
    ))
        requires
            all_wf(self@),
            poly_degree_le(self@, 2),
        ensures
            exists|n: Seq<Term>|
                normalizes_to(self@, n) && r.0@ == quadratic_part(n) && r.1@ == linear_part(n)
                    && r.2 == constant_part(n),
    {
        let mut c = self;
        c.normalize();
        let ghost n = c@;
        let mut quadratic_terms: Vec<(Mersenne31Field, Variable, Variable)> = Vec::new();
        let mut linear_terms: Vec<(Mersenne31Field, Variable)> = Vec::new();
        let mut constant_term = Mersenne31Field::zero();
        let mut i: usize = 0;
        assert(n.take(0) =~= Seq::<Term>::empty());
        while i < c.terms.len()
            invariant
                n == c@,
                max_deg(n) <= 2,
                canonical(n),
                0 <= i <= n.len(),
                quadratic_terms@ == quadratic_part(n.take(i as int)),
                linear_terms@ == linear_part(n.take(i as int)),
                constant_term == constant_part(n.take(i as int)),
            decreases n.len() - i,
        {
            let term = c.terms[i];
            assert(n.take(i as int + 1).drop_last() =~= n.take(i as int));
            assert(n.take(i as int + 1).last() == term);
            proof {
                lemma_max_deg_ge(n, i as int);
            }
            match term {
                Term::Expression { coeff, inner, degree } => {
                    if degree == 2 {
                        quadratic_terms.push((coeff, inner[0], inner[1]));
                    } else if degree == 1 {
                        linear_terms.push((coeff, inner[0]));
                    }
                },
                Term::Constant(f) => {
                    constant_term = f;
                },
            }
            i += 1;
        }
        assert(n.take(i as int) =~= n);
        (quadratic_terms, linear_terms, constant_term)
    }
}

/// Pairwise products stay within the term capacity.
pub open spec fn product_capacity_ok(a: Seq<Term>, b: Seq<Term>) -> bool {
    forall|i: int, j: int|
        0 <= i < a.len() && 0 <= j < b.len() ==> (#[trigger] a[i]).deg() + (#[trigger] b[j]).deg() <= 4
}

/// `b`'s terms each multiplied by `x`, on the left.
pub open spec fn product_column(b: Seq<Term>, x: Term) -> Seq<Term> {
    Seq::new(b.len(), |j: int| term_product(b[j], x))
}

proof fn lemma_coef_pointwise(s1: Seq<Term>, s2: Seq<Term>, m: Multiset<u64>)
    requires
        s1.len() == s2.len(),
        forall|i: int| 0 <= i < s1.len() ==> term_share(#[trigger] s1[i], m) == term_share(s2[i], m),
    ensures
        coef(s1, m) == coef(s2, m),
    decreases s1.len(),
{
    if s1.len() > 0 {
        assert(s1[s1.len() - 1] == s1.last());
        assert(s2[s2.len() - 1] == s2.last());
        lemma_coef_pointwise(s1.drop_last(), s2.drop_last(), m);
    }
}

proof fn lemma_share_swap(x: Term, y: Term, m: Multiset<u64>)
    requires
        x.wf(),
        y.wf(),
        x.deg() + y.deg() <= 4,
    ensures
        term_share(term_product(x, y), m) == term_share(term_product(y, x), m),
{
    lemma_term_product(x, y);
    lemma_term_product(y, x);
    assert(x.monomial().add(y.monomial()) =~= y.monomial().add(x.monomial()));
    assert(x.coef_val() * y.coef_val() == y.coef_val() * x.coef_val()) by (nonlinear_arith);
}

proof fn lemma_product_empty_right(b: Seq<Term>, m: Multiset<u64>)
    ensures
        coef(product_terms(b, Seq::<Term>::empty()), m) == 0,
    decreases b.len(),
{
    if b.len() > 0 {
        lemma_product_empty_right(b.drop_last(), m);
        lemma_coef_append(
            product_terms(b.drop_last(), Seq::<Term>::empty()),
            product_row(b.last(), Seq::<Term>::empty()),
            m,
        );
        assert(product_row(b.last(), Seq::<Term>::empty()) =~= Seq::<Term>::empty());
    }
}

proof fn lemma_product_push_right(b: Seq<Term>, a: Seq<Term>, x: Term, m: Multiset<u64>)
    ensures
        coef(product_terms(b, a.push(x)), m) == coef(product_terms(b, a), m) + coef(
            product_column(b, x),
            m,
        ),
    decreases b.len(),
{
    if b.len() > 0 {
        let b2 = b.drop_last();
        let l = b.last();
        lemma_product_push_right(b2, a, x, m);
        assert(product_row(l, a.push(x)) =~= product_row(l, a).push(term_product(l, x)));
        assert(product_column(b, x) =~= product_column(b2, x).push(term_product(l, x)));
        assert(product_row(l, a).push(term_product(l, x)).drop_last() =~= product_row(l, a));
        assert(product_column(b2, x).push(term_product(l, x)).drop_last() =~= product_column(b2, x));
        lemma_coef_append(product_terms(b2, a.push(x)), product_row(l, a.push(x)), m);
        lemma_coef_append(product_terms(b2, a), product_row(l, a), m);
    } else {
        assert(coef(product_column(b, x), m) == 0);
    }
}

proof fn lemma_product_swap(a: Seq<Term>, b: Seq<Term>, m: Multiset<u64>)
    requires
        all_wf(a),
        all_wf(b),
        product_capacity_ok(a, b),
    ensures
        coef(product_terms(a, b), m) == coef(product_terms(b, a), m),
    decreases a.len(),
{
    if a.len() == 0 {
        lemma_product_empty_right(b, m);
        assert(a =~= Seq::<Term>::empty());
    } else {
        let a2 = a.drop_last();
        let x = a.last();
        assert(x == a[a.len() - 1]);
        assert forall|i: int, j: int| 0 <= i < a2.len() && 0 <= j < b.len() implies (#[trigger] a2[i]).deg()
            + (#[trigger] b[j]).deg() <= 4 by {
            assert(a2[i] == a[i]);
        }
        lemma_product_swap(a2, b, m);
        lemma_coef_append(product_terms(a2, b), product_row(x, b), m);
        assert forall|j: int| 0 <= j < b.len() implies term_share(#[trigger] product_row(x, b)[j], m)
            == term_share(product_column(b, x)[j], m) by {
            lemma_share_swap(x, b[j], m);
        }
        lemma_coef_pointwise(product_row(x, b), product_column(b, x), m);
        lemma_product_push_right(b, a2, x, m);
        assert(a2.push(x) =~= a);
    }
}

/// Multiplication commutes: the normal forms of `c * d` and `d * c` are equal.
pub proof fn law_mul_commutative(c: Seq<Term>, d: Seq<Term>, cd: Seq<Term>, dc: Seq<Term>)
    requires
        all_wf(c),
        all_wf(d),
        product_capacity_ok(c, d),
        normalizes_to(product_terms(c, d), cd),
        normalizes_to(product_terms(d, c), dc),
    ensures
        cd == dc,
{
    assert forall|m: Multiset<u64>| #![trigger coef(cd, m)] #![trigger coef(dc, m)]
        coef(cd, m) % modulus() == coef(dc, m) % modulus() by {
        lemma_product_swap(c, d, m);
        assert(coef(cd, m) % modulus() == coef(product_terms(c, d), m) % modulus());
        assert(coef(dc, m) % modulus() == coef(product_terms(d, c), m) % modulus());
    }
    lemma_canonical_unique(cd, dc);
}

/// Values assigned to circuit variables, indexed by variable identifier.
#[derive(Clone, Debug)]
pub struct WitnessValues {
    pub values: Vec<Option<Mersenne31Field>>,
}

impl WitnessValues {
    pub open spec fn wf(self) -> bool {
        forall|i: int|
            0 <= i < self.values@.len() ==> ((#[trigger] self.values@[i]) matches Some(x) ==> x.wf())
    }

    pub open spec fn value_of(self, v: Variable) -> Option<Mersenne31Field> {
        if v.0 < self.values@.len() {
            self.values@[v.0 as int]
        } else {
            None
        }
    }

    /// The value assigned to the variable, if any.
    pub fn get_value(&self, v: Variable) -> (r: Option<Mersenne31Field>)
        ensures
            r == self.value_of(v),
    {
        if v.0 < self.values.len() as u64 {
            self.values[v.0 as usize]
        } else {
            None
        }
    }
}

/// Adds `coeff * a * b` for each quadratic term to `acc`, or `None` if a variable has no value.
pub open spec fn quadratic_value(
    q: Seq<(Mersenne31Field, Variable, Variable)>,
    w: WitnessValues,
    acc: int,
) -> Option<int>
    decreases q.len(),
{
    if q.len() == 0 {
        Some(acc)
    } else {
        match quadratic_value(q.drop_last(), w, acc) {
            None => None,
            Some(r) => {
                let (coeff, a, b) = q.last();
                match (w.value_of(a), w.value_of(b)) {
                    (Some(x), Some(y)) => Some(
                        (r + ((x.val() * y.val()) % modulus() * coeff.val()) % modulus()) % modulus(),
                    ),
                    _ => None,
                }
            },
        }
    }
}

/// Adds `coeff * a` for each linear term to `acc`, or `None` if a variable has no value.
pub open spec fn linear_value(q: Seq<(Mersenne31Field, Variable)>, w: WitnessValues, acc: Option<int>) -> Option<int>
    decreases q.len(),
{
    if q.len() == 0 {
        acc
    } else {
        match linear_value(q.drop_last(), w, acc) {
            None => None,
            Some(r) => {
                let (coeff, a) = q.last();
                match w.value_of(a) {
                    Some(x) => Some((r + (x.val() * coeff.val()) % modulus()) % modulus()),
                    None => None,
                }
            },
        }
    }
}

/// The value of a normal form under an assignment.
pub open spec fn normal_form_value(n: Seq<Term>, w: WitnessValues) -> Option<int> {
    linear_value(
        linear_part(n),
        w,
        quadratic_value(quadratic_part(n), w, constant_part(n).val()),
    )
}

pub open spec fn value_matches(r: Option<Mersenne31Field>, v: Option<int>) -> bool {
    match (r, v) {
        (Some(x), Some(y)) => x.wf() && x.val() == y,
        (None, None) => true,
        _ => false,
    }
}

impl Constraint {
    /// Evaluates the constraint under the assignment: `None` when a
    /// variable it needs has no value.
    pub fn get_value(&self, cs: &WitnessValues) -> (r: Option<Mersenne31Field>)
        requires
            all_wf(self@),
            poly_degree_le(self@, 2),
            cs.wf(),
        ensures
            exists|n: Seq<Term>| normalizes_to(self@, n) && value_matches(r, normal_form_value(n, *cs)),
    {
        let copy = Constraint { terms: copy_terms(&self.terms) };
        let (quad, linear, constant_term) = copy.split_max_quadratic();
        let ghost n = choose|n: Seq<Term>|
            normalizes_to(self@, n) && quad@ == quadratic_part(n) && linear@ == linear_part(n)
                && constant_term == constant_part(n);
        proof {
            lemma_constant_part_wf(n);
            lemma_parts_wf(n);
        }
        let mut result = constant_term;
        let mut i: usize = 0;
        assert(quad@.take(0) =~= Seq::<(Mersenne31Field, Variable, Variable)>::empty());
        while i < quad.len()
            invariant
                cs.wf(),
                normalizes_to(self@, n),
                quad@ == quadratic_part(n),
                linear@ == linear_part(n),
                constant_term == constant_part(n),
                0 <= i <= quad@.len(),
                result.wf(),
                constant_term.wf(),
                quadratic_value(quad@.take(i as int), *cs, constant_term.val()) == Some(result.val()),
                forall|k: int| 0 <= k < quad@.len() ==> (#[trigger] quad@[k]).0.wf(),
            decreases quad@.len() - i,
        {
            let (coeff, a, b) = quad[i];
            assert(quad@.take(i as int + 1).drop_last() =~= quad@.take(i as int));
            assert(quad@.take(i as int + 1).last() == quad@[i as int]);
            let va = cs.get_value(a);
            let vb = cs.get_value(b);
            match (va, vb) {
                (Some(x), Some(y)) => {
                    assert(x.wf() && y.wf());
                    let t = x.mul(&y).mul(&coeff);
                    result = result.add(&t);
                },
                _ => {
                    proof {
                        assert(quad@[i as int] == (coeff, a, b));
                        assert(cs.value_of(a) is None || cs.value_of(b) is None);
                        assert(quadratic_value(quad@.take(i as int + 1), *cs, constant_term.val()) is None);
                        lemma_quadratic_value_none(quad@, *cs, constant_term.val(), i as int + 1);
                        lemma_linear_value_none(linear@, *cs);
                        assert(normalizes_to(self@, n) && value_matches(None, normal_form_value(n, *cs)));
                    }
                    return None;
                },
            }
            i += 1;
        }
        assert(quad@.take(i as int) =~= quad@);
        let mut j: usize = 0;
        assert(linear@.take(0) =~= Seq::<(Mersenne31Field, Variable)>::empty());
        while j < linear.len()
            invariant
                cs.wf(),
                normalizes_to(self@, n),
                quad@ == quadratic_part(n),
                linear@ == linear_part(n),
                constant_term == constant_part(n),
                0 <= j <= linear@.len(),
                result.wf(),
                linear_value(linear@.take(j as int), *cs, quadratic_value(quad@, *cs, constant_term.val()))
                    == Some(result.val()),
                forall|k: int| 0 <= k < linear@.len() ==> (#[trigger] linear@[k]).0.wf(),
            decreases linear@.len() - j,
        {
            let (coeff, a) = linear[j];
            assert(linear@.take(j as int + 1).drop_last() =~= linear@.take(j as int));
            assert(linear@.take(j as int + 1).last() == linear@[j as int]);
            match cs.get_value(a) {
                Some(x) => {
                    let t = x.mul(&coeff);
                    result = result.add(&t);
                },
                None => {
                    proof {
                        assert(linear@[j as int] == (coeff, a));
                        assert(linear_value(linear@.take(j as int + 1), *cs, quadratic_value(quad@, *cs, constant_term.val())) is None);
                        lemma_linear_value_suffix_none(linear@, *cs, quadratic_value(quad@, *cs, constant_term.val()), j as int + 1);
                        assert(normalizes_to(self@, n) && value_matches(None, normal_form_value(n, *cs)));
                    }
                    return None;
                },
            }
            j += 1;
        }
        assert(linear@.take(j as int) =~= linear@);
        assert(normalizes_to(self@, n) && value_matches(Some(result), normal_form_value(n, *cs)));
        Some(result)
    }
}

proof fn lemma_parts_wf(n: Seq<Term>)
    requires
        all_wf(n),
    ensures
        forall|k: int| 0 <= k < quadratic_part(n).len() ==> (#[trigger] quadratic_part(n)[k]).0.wf(),
        forall|k: int| 0 <= k < linear_part(n).len() ==> (#[trigger] linear_part(n)[k]).0.wf(),
    decreases n.len(),
{
    if n.len() > 0 {
        assert(n[n.len() - 1] == n.last());
        let d = n.drop_last();
        assert forall|k: int| 0 <= k < d.len() implies (#[trigger] d[k]).wf() by {
            assert(d[k] == n[k]);
        }
        lemma_parts_wf(d);
        let qd = quadratic_part(d);
        let ld = linear_part(d);
        assert forall|k: int| 0 <= k < quadratic_part(n).len() implies (#[trigger] quadratic_part(n)[k]).0.wf() by {
            if k < qd.len() {
                assert(quadratic_part(n)[k] == qd[k]);
            }
        }
        assert forall|k: int| 0 <= k < linear_part(n).len() implies (#[trigger] linear_part(n)[k]).0.wf() by {
            if k < ld.len() {
                assert(linear_part(n)[k] == ld[k]);
            }
        }
    }
}

proof fn lemma_constant_part_wf(n: Seq<Term>)
    requires
        canonical(n),
    ensures
        constant_part(n).wf(),
    decreases n.len(),
{
    if n.len() > 0 {
        assert(n[n.len() - 1] == n.last());
        lemma_canonical_sub(n, 0);
        lemma_constant_part_wf(n.drop_last());
    }
}

proof fn lemma_quadratic_value_none(
    q: Seq<(Mersenne31Field, Variable, Variable)>,
    w: WitnessValues,
    acc: int,
    k: int,
)
    requires
        0 <= k <= q.len(),
        quadratic_value(q.take(k), w, acc) is None,
    ensures
        quadratic_value(q, w, acc) is None,
    decreases q.len() - k,
{
    if k < q.len() {
        assert(q.take(k + 1).drop_last() =~= q.take(k));
        lemma_quadratic_value_none(q, w, acc, k + 1);
    } else {
        assert(q.take(k) =~= q);
    }
}

proof fn lemma_linear_value_none(q: Seq<(Mersenne31Field, Variable)>, w: WitnessValues)
    ensures
        linear_value(q, w, None) is None,
    decreases q.len(),
{
    if q.len() > 0 {
        lemma_linear_value_none(q.drop_last(), w);
    }
}

proof fn lemma_linear_value_suffix_none(
    q: Seq<(Mersenne31Field, Variable)>,
    w: WitnessValues,
    acc: Option<int>,
    k: int,
)
    requires
        0 <= k <= q.len(),
        linear_value(q.take(k), w, acc) is None,
    ensures
        linear_value(q, w, acc) is None,
    decreases q.len() - k,
{
    if k < q.len() {
        assert(q.take(k + 1).drop_last() =~= q.take(k));
        lemma_linear_value_suffix_none(q, w, acc, k + 1);
    } else {
        assert(q.take(k) =~= q);
    }
}

/// Exactly one term holds `v`, and it is linear in it.
pub open spec fn single_linear_occurrence(ts: Seq<Term>, v: u64, k: int) -> bool {
    &&& 0 <= k < ts.len()
    &&& ts[k].vars().contains(v)
    &&& ts[k].deg() == 1
    &&& forall|i: int| 0 <= i < ts.len() && i != k ==> !(#[trigger] ts[i]).vars().contains(v)
}

proof fn lemma_no_occurrence(ts: Seq<Term>, v: u64, e: Seq<Term>)
    requires
        forall|i: int| 0 <= i < ts.len() ==> !(#[trigger] ts[i]).vars().contains(v),
    ensures
        replacements(ts, v, e) == Seq::<Term>::empty(),
    decreases ts.len(),
{
    if ts.len() > 0 {
        assert(ts[ts.len() - 1] == ts.last());
        lemma_no_occurrence(ts.drop_last(), v, e);
    }
}

proof fn lemma_single_occurrence(ts: Seq<Term>, v: u64, k: int, e: Seq<Term>)
    requires
        single_linear_occurrence(ts, v, k),
    ensures
        last_prefactor(ts, v) == ts[k].coef_val(),
        replacements(ts, v, e) == scaled_terms(e, ts[k].coef_val()),
    decreases ts.len(),
{
    let d = ts.drop_last();
    assert(ts[ts.len() - 1] == ts.last());
    if k == ts.len() - 1 {
        assert forall|i: int| 0 <= i < d.len() implies !(#[trigger] d[i]).vars().contains(v) by {
            assert(d[i] == ts[i]);
        }
        lemma_no_occurrence(d, v, e);
        assert(Seq::<Term>::empty() + scaled_terms(e, ts[k].coef_val()) =~= scaled_terms(
            e,
            ts[k].coef_val(),
        ));
    } else {
        assert forall|i: int| 0 <= i < d.len() && i != k implies !(#[trigger] d[i]).vars().contains(v) by {
            assert(d[i] == ts[i]);
        }
        assert(d[k] == ts[k]);
        lemma_single_occurrence(d, v, k, e);
    }
}

/// `x + (x * (-y) % p) * a` vanishes modulo `p` when `a * y == 1`.
proof fn lemma_cancel(x: int, big_a: int, e: int, f: int, a: int, y: int)
    requires
        0 <= y < modulus(),
        (a * y) % modulus() == 1,
        f == (modulus() - y) % modulus(),
        e == (x * f) % modulus(),
        big_a % modulus() == (e * a) % modulus(),
    ensures
        (x + big_a) % modulus() == 0,
{
    let p = modulus();
    vstd::arithmetic::div_mod::lemma_mul_mod_noop_left(x * f, a, p);
    vstd::arithmetic::div_mod::lemma_mul_mod_noop_right(x, p - y, p);
    vstd::arithmetic::div_mod::lemma_mul_mod_noop_left(x * (p - y), a, p);
    assert((x * f) % p == (x * (p - y)) % p);
    vstd::arithmetic::div_mod::lemma_fundamental_div_mod(a * y, p);
    let t = (a * y) / p;
    assert(a * y == p * t + 1);
    assert((x * (p - y)) * a == p * (x * a - x * t) + (-x)) by (nonlinear_arith)
        requires
            a * y == p * t + 1,
    ;
    vstd::arithmetic::div_mod::lemma_mod_multiples_vanish(x * a - x * t, -x, p);
    assert(big_a % p == (-x) % p);
    vstd::arithmetic::div_mod::lemma_add_mod_noop(x, big_a, p);
    vstd::arithmetic::div_mod::lemma_add_mod_noop(x, -x, p);
    vstd::arithmetic::div_mod::lemma_small_mod(0, p as nat);
}

/// Substituting a variable by its own expression leaves nothing: when the
/// variable occurs in exactly one term, linearly, the normal form of
/// `c[v := express(c, v)]` is empty, the zero polynomial.
pub proof fn law_substitute_expression_vanishes(
    c: Seq<Term>,
    v: u64,
    k: int,
    expressed: Seq<Term>,
    result: Seq<Term>,
)
    requires
        all_wf(c),
        single_linear_occurrence(c, v, k),
        has_inverse(last_prefactor(c, v)),
        normalizes_to(scaled_terms(without_var(c, v), neg_inverse_of(last_prefactor(c, v))), expressed),
        normalizes_to(substituted(c, v, expressed), result),
    ensures
        result.len() == 0,
{
    let p = modulus();
    let r = without_var(c, v);
    let a = last_prefactor(c, v);
    let y = inverse_of(a);
    let f = neg_inverse_of(a);
    lemma_single_occurrence(c, v, k, expressed);
    lemma_without_var_wf(c, v);
    assert(0 <= y < p && (a * y) % p == 1);
    assert forall|m: Multiset<u64>| #[trigger] coef(substituted(c, v, expressed), m) % p == 0 by {
        lemma_coef_append(r, scaled_terms(expressed, a), m);
        lemma_coef_scaled(expressed, a, m);
        lemma_coef_scaled(r, f, m);
        lemma_canonical_coef_range(expressed, m);
        assert(coef(expressed, m) == (coef(r, m) * f) % p);
        lemma_cancel(coef(r, m), coef(scaled_terms(expressed, a), m), coef(expressed, m), f, a, y);
    }
    law_normalize_zero(substituted(c, v, expressed), result);
}

/// Normalizing twice gives what normalizing once gives.
pub proof fn law_normalize_idempotent(c: Seq<Term>, once: Seq<Term>, twice: Seq<Term>)
    requires
        normalizes_to(c, once),
        normalizes_to(once, twice),
    ensures
        twice == once,
{
    lemma_canonical_unique(twice, once);
}

/// Normalization never raises the degree.
pub proof fn law_normalize_degree_monotone(c: Seq<Term>, out: Seq<Term>)
    requires
        normalizes_to(c, out),
    ensures
        max_deg(out) <= max_deg(c),
{
    lemma_normal_form_degree_monotone(c, out);
}

/// The normal form of the zero polynomial is the empty sequence.
pub proof fn law_normalize_zero(c: Seq<Term>, out: Seq<Term>)
    requires
        normalizes_to(c, out),
        forall|m: Multiset<u64>| #[trigger] coef(c, m) % modulus() == 0,
    ensures
        out.len() == 0,
{
    if out.len() > 0 {
        lemma_canonical_coef_at(out, 0);
        lemma_canonical_coef_range(out, out[0].monomial());
        assert(coef(c, out[0].monomial()) % modulus() == 0);
    }
}

/// Addition commutes: the normal forms of `c + d` and `d + c` are equal.
pub proof fn law_add_commutative(c: Seq<Term>, d: Seq<Term>, cd: Seq<Term>, dc: Seq<Term>)
    requires
        normalizes_to(c + d, cd),
        normalizes_to(d + c, dc),
    ensures
        cd == dc,
{
    assert forall|m: Multiset<u64>| #![trigger coef(cd, m)] #![trigger coef(dc, m)]
        coef(cd, m) % modulus() == coef(dc, m) % modulus() by {
        lemma_coef_append(c, d, m);
        lemma_coef_append(d, c, m);
        assert(coef(cd, m) % modulus() == coef(c + d, m) % modulus());
        assert(coef(dc, m) % modulus() == coef(d + c, m) % modulus());
    }
    lemma_canonical_unique(cd, dc);
}

/// Addition associates: `(c + d) + e` and `c + (d + e)` normalize alike.
pub proof fn law_add_associative(
    c: Seq<Term>,
    d: Seq<Term>,
    e: Seq<Term>,
    cd: Seq<Term>,
    cd_e: Seq<Term>,
    de: Seq<Term>,
    c_de: Seq<Term>,
)
    requires
        normalizes_to(c + d, cd),
        normalizes_to(cd + e, cd_e),
        normalizes_to(d + e, de),
        normalizes_to(c + de, c_de),
    ensures
        cd_e == c_de,
{
    lemma_poly_eq_append(cd, e, c + d, e);
    lemma_poly_eq_append(c, de, c, d + e);
    assert((c + d) + e =~= c + (d + e));
    assert forall|m: Multiset<u64>| #![trigger coef(cd_e, m)] #![trigger coef(c_de, m)]
        coef(cd_e, m) % modulus() == coef(c_de, m) % modulus() by {
        assert(coef(cd_e, m) % modulus() == coef(cd + e, m) % modulus());
        assert(coef(cd + e, m) % modulus() == coef((c + d) + e, m) % modulus());
        assert(coef(c_de, m) % modulus() == coef(c + de, m) % modulus());
        assert(coef(c + de, m) % modulus() == coef(c + (d + e), m) % modulus());
    }
    lemma_canonical_unique(cd_e, c_de);
}

} // verus!
