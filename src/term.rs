//! Terms: a constant, or a monomial `coeff * x1 * ... * xd` of degree at most 4.

use vstd::prelude::*;
use vstd::relations::sorted_by;
use vstd::multiset::Multiset;
use crate::field::{Mersenne31Field, modulus};

verus! {

/// Slots in a term for the variables of its monomial.
pub const TERM_INNER_CAPACITY: usize = 4;

/// Identifier of the placeholder variable that fills unused slots.
pub const PLACEHOLDER_ID: u64 = 0xffff_ffff_ffff_ffff;

/// An opaque circuit variable.
#[derive(Clone, Copy, Debug, PartialEq, Eq, Structural, Hash, PartialOrd, Ord)]
pub struct Variable(pub u64);

impl Variable {
    pub fn placeholder_variable() -> (r: Variable)
        ensures
            r.0 == PLACEHOLDER_ID,
    {
        Variable(PLACEHOLDER_ID)
    }

    pub fn is_placeholder(&self) -> (r: bool)
        ensures
            r == (self.0 == PLACEHOLDER_ID),
    {
        self.0 == PLACEHOLDER_ID
    }
}

/// A number in a circuit: a constant or a variable.
#[derive(Clone, Copy, Debug, PartialEq, Eq, Structural)]
pub enum Num {
    Constant(Mersenne31Field),
    Var(Variable),
}

/// A boolean in a circuit: a constant, a variable, or a negated variable.
#[derive(Clone, Copy, Debug, PartialEq, Eq, Structural)]
pub enum Boolean {
    Constant(bool),
    Is(Variable),
    Not(Variable),
}

/// `Expression` is `coeff * inner[0] * ... * inner[degree - 1]`; the slots
/// from `degree` on hold the placeholder.
#[derive(Clone, Copy, Debug, Eq)]
pub enum Term {
    Constant(Mersenne31Field),
    Expression { coeff: Mersenne31Field, inner: [Variable; 4], degree: usize },
}

impl PartialEq for Term {
    fn eq(&self, o: &Term) -> (r: bool) {
        match (self, o) {
            (Term::Constant(a), Term::Constant(b)) => a.v == b.v,
            (
                Term::Expression { coeff: c1, inner: i1, degree: d1 },
                Term::Expression { coeff: c2, inner: i2, degree: d2 },
            ) => {
                let same = c1.v == c2.v && *d1 == *d2 && i1[0].0 == i2[0].0 && i1[1].0 == i2[1].0
                    && i1[2].0 == i2[2].0 && i1[3].0 == i2[3].0;
                proof {
                    if same {
                        assert(i1@ =~= i2@);
                        assert(i1 =~= i2);
                    }
                }
                same
            },
            _ => false,
        }
    }
}

impl vstd::std_specs::cmp::PartialEqSpecImpl for Term {
    open spec fn obeys_eq_spec() -> bool {
        true
    }

    open spec fn eq_spec(&self, o: &Term) -> bool {
        *self == *o
    }
}

/// The placeholder variable.
pub open spec fn placeholder() -> Variable {
    Variable(PLACEHOLDER_ID)
}

/// The zero constant.
pub open spec fn zero_term() -> Term {
    Term::Constant(Mersenne31Field { v: 0 })
}

/// The single variable of `1 * v`, or none.
pub open spec fn single_variable(t: Term) -> Option<Variable> {
    match t {
        Term::Constant(_) => None,
        Term::Expression { coeff, inner, degree } => if coeff.val() == 1 && degree == 1 {
            Some(inner[0])
        } else {
            None
        },
    }
}

impl Term {
    pub fn is_constant(&self) -> (r: bool)
        ensures
            r == (*self is Constant),
    {
        match self {
            Term::Constant(_) => true,
            Term::Expression { .. } => false,
        }
    }

    pub fn get_coef(&self) -> (r: Mersenne31Field)
        ensures
            r == self.get_coef_spec(),
            r.val() == self.coef_val(),
    {
        match self {
            Term::Constant(f) => *f,
            Term::Expression { coeff, .. } => *coeff,
        }
    }

    pub open spec fn get_coef_spec(self) -> Mersenne31Field {
        match self {
            Term::Constant(f) => f,
            Term::Expression { coeff, .. } => coeff,
        }
    }

    pub fn degree(&self) -> (r: usize)
        ensures
            r == self.deg(),
    {
        match self {
            Term::Constant(_) => 0,
            Term::Expression { degree, .. } => *degree,
        }
    }

    /// Identifier of the variable in slot `i` of the monomial.
    fn var_at(&self, i: usize) -> (r: u64)
        requires
            i < self.deg(),
            self.wf(),
        ensures
            r == self.vars()[i as int],
    {
        match self {
            Term::Constant(_) => 0,
            Term::Expression { inner, .. } => inner[i].0,
        }
    }

    /// Normalizes in place: a zero coefficient collapses to the zero
    /// constant; otherwise the variables are sorted, so that equal monomials
    /// have equal representations.
    pub fn normalize(&mut self)
        requires
            old(self).wf(),
        ensures
            final(self).wf(),
            final(self).coef_val() == old(self).coef_val(),
            old(self).coef_val() == 0 ==> *final(self) == zero_term(),
            old(self).coef_val() != 0 ==> {
                &&& final(self).normalized()
                &&& final(self).deg() == old(self).deg()
                &&& final(self).monomial() == old(self).monomial()
                &&& (*old(self) is Constant ==> *final(self) == *old(self))
            },
    {
        match *self {
            Term::Constant(c) => {
                if c.v == 0 {
                    *self = Term::Constant(Mersenne31Field { v: 0 });
                }
            },
            Term::Expression { coeff, inner, degree } => {
                if coeff.v == 0 {
                    *self = Term::Constant(Mersenne31Field { v: 0 });
                } else {
                    let mut ids: Vec<u64> = Vec::new();
                    let mut i: usize = 0;
                    while i < degree
                        invariant
                            *self == (Term::Expression { coeff, inner, degree }),
                            self.wf(),
                            0 <= i <= degree,
                            ids@ == self.vars().take(i as int),
                        decreases degree - i,
                    {
                        ids.push(inner[i].0);
                        assert(ids@ =~= self.vars().take(i as int + 1));
                        i += 1;
                    }
                    assert(ids@ =~= self.vars());
                    let ghost before = ids@;
                    sort_ids(&mut ids);
                    let p = Variable(PLACEHOLDER_ID);
                    let v0 = Variable(ids[0]);
                    let v1 = if 1 < degree { Variable(ids[1]) } else { p };
                    let v2 = if 2 < degree { Variable(ids[2]) } else { p };
                    let v3 = if 3 < degree { Variable(ids[3]) } else { p };
                    let new_inner = [v0, v1, v2, v3];
                    let t = Term::Expression { coeff, inner: new_inner, degree };
                    assert(t.vars() =~= ids@);
                    *self = t;
                }
            },
        }
    }

    /// The two terms have the same monomial, up to the coefficient.
    pub fn same_multiple(&self, other: &Self) -> (r: bool)
        requires
            self.wf(),
            other.wf(),
        ensures
            r == same_key(*self, *other),
    {
        if self.degree() != other.degree() {
            return false;
        }
        let d = self.degree();
        let mut i: usize = 0;
        while i < d
            invariant
                self.wf(),
                other.wf(),
                d == self.deg() == other.deg(),
                0 <= i <= d,
                forall|k: int| 0 <= k < i ==> self.vars()[k] == other.vars()[k],
            decreases d - i,
        {
            if self.var_at(i) != other.var_at(i) {
                return false;
            }
            i += 1;
        }
        assert(self.vars() =~= other.vars());
        true
    }

    /// Key order: higher degree first, then variables lexicographically.
    pub fn precedes(&self, other: &Self) -> (r: bool)
        requires
            self.wf(),
            other.wf(),
        ensures
            r == key_lt(*self, *other),
    {
        if self.degree() != other.degree() {
            return self.degree() > other.degree();
        }
        let d = self.degree();
        let mut i: usize = 0;
        assert(self.vars().skip(0) =~= self.vars());
        assert(other.vars().skip(0) =~= other.vars());
        while i < d
            invariant
                self.wf(),
                other.wf(),
                d == self.deg() == other.deg(),
                0 <= i <= d,
                lex_lt(self.vars(), other.vars()) == lex_lt(
                    self.vars().skip(i as int),
                    other.vars().skip(i as int),
                ),
            decreases d - i,
        {
            let a = self.var_at(i);
            let b = other.var_at(i);
            if a != b {
                return a < b;
            }
            assert(self.vars().skip(i as int).drop_first() =~= self.vars().skip(i as int + 1));
            assert(other.vars().skip(i as int).drop_first() =~= other.vars().skip(i as int + 1));
            i += 1;
        }
        false
    }

    /// Adds `other` into `self` if both have the same monomial, and says whether it did.
    pub fn combine(&mut self, other: &Self) -> (r: bool)
        requires
            old(self).wf(),
            other.wf(),
        ensures
            r == same_key(*old(self), *other),
            r ==> *final(self) == old(self).with_coef(
                Mersenne31Field::spec_from_int((old(self).coef_val() + other.coef_val()) % modulus()),
            ),
            !r ==> *final(self) == *old(self),
            final(self).wf(),
    {
        if !self.same_multiple(other) {
            return false;
        }
        let sum = self.get_coef().add(&other.get_coef());
        self.set_coef(sum);
        true
    }

    /// Replaces the coefficient (or the constant).
    fn set_coef(&mut self, c: Mersenne31Field)
        requires
            old(self).wf(),
            c.wf(),
        ensures
            *final(self) == old(self).with_coef(c),
            final(self).wf(),
    {
        *self = match *self {
            Term::Constant(_) => Term::Constant(c),
            Term::Expression { inner, degree, .. } => Term::Expression { coeff: c, inner, degree },
        };
    }

    /// Adds a scalar to the coefficient (or to the constant).
    pub fn add_constant_multiple(&mut self, to_add: &Mersenne31Field)
        requires
            old(self).wf(),
            to_add.wf(),
        ensures
            *final(self) == old(self).with_coef(
                Mersenne31Field::spec_from_int((old(self).coef_val() + to_add.val()) % modulus()),
            ),
            final(self).wf(),
    {
        let c = self.get_coef().add(to_add);
        self.set_coef(c);
    }

    /// Multiplies the coefficient (or the constant) by a scalar.
    pub fn scale(&mut self, scaling_factor: &Mersenne31Field)
        requires
            old(self).wf(),
            scaling_factor.wf(),
        ensures
            *final(self) == old(self).with_coef(
                Mersenne31Field::spec_from_int(
                    (old(self).coef_val() * scaling_factor.val()) % modulus(),
                ),
            ),
            final(self).wf(),
    {
        let c = self.get_coef().mul(scaling_factor);
        self.set_coef(c);
    }

    pub fn is_zero(&self) -> (r: bool)
        ensures
            r == (self.coef_val() == 0),
    {
        self.get_coef().is_zero()
    }

    /// The monomial holds the variable.
    pub fn contains_var(&self, variable: &Variable) -> (r: bool)
        requires
            self.wf(),
        ensures
            r == self.vars().contains(variable.0),
    {
        let d = self.degree();
        let mut i: usize = 0;
        while i < d
            invariant
                self.wf(),
                d == self.deg(),
                0 <= i <= d,
                forall|k: int| 0 <= k < i ==> self.vars()[k] != variable.0,
            decreases d - i,
        {
            if self.var_at(i) == variable.0 {
                assert(self.vars()[i as int] == variable.0);
                return true;
            }
            i += 1;
        }
        false
    }

    /// The multiplicity of the variable in the monomial.
    pub fn degree_for_var(&self, variable: &Variable) -> (r: usize)
        requires
            self.wf(),
        ensures
            r == self.monomial().count(variable.0),
    {
        broadcast use vstd::seq_lib::group_to_multiset_ensures;

        let d = self.degree();
        let mut count: usize = 0;
        let mut i: usize = 0;
        assert(self.vars().take(0) =~= Seq::<u64>::empty());
        while i < d
            invariant
                self.wf(),
                d == self.deg(),
                0 <= i <= d,
                count <= i,
                count == self.vars().take(i as int).to_multiset().count(variable.0),
            decreases d - i,
        {
            assert(self.vars().take(i as int + 1) =~= self.vars().take(i as int).push(
                self.vars()[i as int],
            ));
            let x = self.var_at(i);
            proof {
                broadcast use vstd::multiset::group_multiset_axioms;

                let pre = self.vars().take(i as int);
                pre.to_multiset_ensures();
                assert(pre.push(x).to_multiset() =~= pre.to_multiset().insert(x));
            }
            if x == variable.0 {
                count += 1;
            }
            i += 1;
        }
        assert(self.vars().take(d as int) =~= self.vars());
        count
    }

    /// The variable `v` if this term is exactly `1 * v`.
    pub fn get_variable(&self) -> (r: Option<Variable>)
        ensures
            r == single_variable(*self),
    {
        match self {
            Term::Constant(_) => None,
            Term::Expression { coeff, inner, degree } => {
                if coeff.v != 1 {
                    return None;
                }
                if *degree != 1 {
                    return None;
                }
                Some(inner[0])
            },
        }
    }

    /// The coefficient of a term that holds the variable.
    pub fn prefactor_for_var(&self, variable: &Variable) -> (r: Mersenne31Field)
        requires
            self.wf(),
            self.vars().contains(variable.0),
        ensures
            r == self.get_coef_spec(),
            *self is Expression,
    {
        match self {
            Term::Constant(_) => {
                assert(self.vars().len() == 0);
                Mersenne31Field { v: 0 }
            },
            Term::Expression { coeff, .. } => *coeff,
        }
    }

    /// The variables of the monomial.
    pub fn as_slice(&self) -> (r: &[Variable])
        requires
            self.wf(),
        ensures
            r@.len() == self.deg(),
            forall|i: int| 0 <= i < r@.len() ==> (#[trigger] r@[i]).0 == self.vars()[i],
    {
        match self {
            Term::Constant(_) => {
                let e: &[Variable] = &[];
                e
            },
            Term::Expression { inner, degree, .. } => vstd::slice::slice_subrange(
                inner.as_slice(),
                0,
                *degree,
            ),
        }
    }

    /// A constant term.
    pub fn from_field(value: Mersenne31Field) -> (r: Term)
        ensures
            r == Term::Constant(value),
    {
        Term::Constant(value)
    }

    /// The constant term congruent to `value`.
    pub fn from_u64(value: u64) -> (r: Term)
        ensures
            r == Term::Constant(Mersenne31Field::spec_from_int(value as int % modulus())),
    {
        Term::Constant(Mersenne31Field::from_u64(value))
    }

    /// The linear term `coeff * variable`.
    pub fn from_coeff_and_variable(coeff: Mersenne31Field, variable: Variable) -> (r: Term)
        ensures
            r == (Term::Expression {
                coeff,
                inner: [variable, placeholder(), placeholder(), placeholder()],
                degree: 1,
            }),
    {
        let p = Variable(PLACEHOLDER_ID);
        Term::Expression { coeff, inner: [variable, p, p, p], degree: 1 }
    }

    /// The linear term `1 * variable`.
    pub fn from_variable(variable: Variable) -> (r: Term)
        ensures
            r == (Term::Expression {
                coeff: Mersenne31Field { v: 1 },
                inner: [variable, placeholder(), placeholder(), placeholder()],
                degree: 1,
            }),
    {
        Term::from_coeff_and_variable(Mersenne31Field { v: 1 }, variable)
    }

    pub open spec fn from_num_spec(value: Num) -> Term {
        match value {
            Num::Constant(c) => Term::Constant(c),
            Num::Var(v) => Term::Expression {
                coeff: Mersenne31Field { v: 1 },
                inner: [v, placeholder(), placeholder(), placeholder()],
                degree: 1,
            },
        }
    }

    pub open spec fn from_boolean_spec(value: Boolean) -> Term {
        match value {
            Boolean::Constant(b) => Term::Constant(Mersenne31Field { v: if b { 1 } else { 0 } }),
            Boolean::Is(v) => Term::Expression {
                coeff: Mersenne31Field { v: 1 },
                inner: [v, placeholder(), placeholder(), placeholder()],
                degree: 1,
            },
            Boolean::Not(_) => Term::Constant(Mersenne31Field { v: 0 }),
        }
    }

    /// The constant, or `1 * v` for a variable.
    pub fn from_num(value: Num) -> (r: Term)
        ensures
            r == Term::from_num_spec(value),
    {
        match value {
            Num::Constant(c) => Term::from_field(c),
            Num::Var(v) => Term::from_variable(v),
        }
    }

    /// The constant 0 or 1, or `1 * v` for a variable; a negated variable is
    /// not a term.
    pub fn from_boolean(value: Boolean) -> (r: Term)
        requires
            !(value is Not),
        ensures
            r == Term::from_boolean_spec(value),
    {
        match value {
            Boolean::Constant(b) => Term::Constant(Mersenne31Field { v: if b { 1 } else { 0 } }),
            Boolean::Is(v) => Term::from_variable(v),
            Boolean::Not(_) => Term::Constant(Mersenne31Field { v: 0 }),
        }
    }

    /// Equality that ignores the coefficient: both constants, or the same monomial.
    pub fn are_equal_terms(left: &Self, right: &Self) -> (r: bool)
        requires
            left.wf(),
            right.wf(),
        ensures
            r == same_key(*left, *right),
    {
        left.same_multiple(right)
    }
}

/// The total order of terms: by key, then by coefficient.
pub open spec fn term_lt(a: Term, b: Term) -> bool {
    key_lt(a, b) || (same_key(a, b) && a.coef_val() < b.coef_val())
}

impl Term {
    /// Compares by degree (higher first), then constants before
    /// expressions, then variables lexicographically, then coefficients.
    pub fn cmp(&self, other: &Self) -> (r: std::cmp::Ordering)
        requires
            self.wf(),
            other.wf(),
        ensures
            (r == std::cmp::Ordering::Less) == term_lt(*self, *other),
            (r == std::cmp::Ordering::Greater) == term_lt(*other, *self),
            (r == std::cmp::Ordering::Equal) == (same_key(*self, *other) && self.coef_val()
                == other.coef_val()),
    {
        proof {
            if key_lt(*self, *other) {
                lemma_key_asymmetric(*self, *other);
                if same_key(*self, *other) {
                    lemma_key_lt_same_key(*self, *other, *other);
                    lemma_key_irreflexive(*other);
                }
            }
            if key_lt(*other, *self) {
                lemma_key_asymmetric(*other, *self);
                if same_key(*other, *self) {
                    lemma_key_lt_same_key(*other, *self, *self);
                    lemma_key_irreflexive(*self);
                }
            }
        }
        if self.precedes(other) {
            std::cmp::Ordering::Less
        } else if other.precedes(self) {
            std::cmp::Ordering::Greater
        } else {
            proof {
                lemma_key_total(*self, *other);
            }
            let a = self.get_coef().v;
            let b = other.get_coef().v;
            if a < b {
                std::cmp::Ordering::Less
            } else if a > b {
                std::cmp::Ordering::Greater
            } else {
                std::cmp::Ordering::Equal
            }
        }
    }
}

/// Ascending order of variable identifiers.
pub open spec fn id_leq() -> spec_fn(u64, u64) -> bool {
    |a: u64, b: u64| a <= b
}

/// Lexicographic order on sequences of equal length.
pub open spec fn lex_lt(a: Seq<u64>, b: Seq<u64>) -> bool
    decreases a.len(),
{
    if a.len() == 0 || b.len() == 0 {
        false
    } else if a[0] != b[0] {
        a[0] < b[0]
    } else {
        lex_lt(a.drop_first(), b.drop_first())
    }
}

impl Term {
    pub open spec fn deg(self) -> nat {
        match self {
            Term::Constant(_) => 0,
            Term::Expression { degree, .. } => degree as nat,
        }
    }

    /// The coefficient (or the constant) as an integer.
    pub open spec fn coef_val(self) -> int {
        match self {
            Term::Constant(c) => c.val(),
            Term::Expression { coeff, .. } => coeff.val(),
        }
    }

    /// The identifiers of the monomial's variables, in slot order.
    pub open spec fn vars(self) -> Seq<u64> {
        match self {
            Term::Constant(_) => Seq::empty(),
            Term::Expression { inner, degree, .. } => Seq::new(degree as nat, |i: int| inner[i].0),
        }
    }

    /// The monomial as a multiset of variables.
    pub open spec fn monomial(self) -> Multiset<u64> {
        self.vars().to_multiset()
    }

    pub open spec fn wf(self) -> bool {
        match self {
            Term::Constant(c) => c.wf(),
            Term::Expression { coeff, inner, degree } => {
                &&& coeff.wf()
                &&& 1 <= degree <= 4
                &&& forall|i: int| degree <= i < 4 ==> (#[trigger] inner[i]).0 == PLACEHOLDER_ID
            },
        }
    }

    /// Well formed, with sorted variables, and a non-zero coefficient unless constant.
    pub open spec fn normalized(self) -> bool {
        &&& self.wf()
        &&& sorted_by(self.vars(), id_leq())
        &&& (self is Expression ==> self.coef_val() != 0)
    }

    /// The term with its coefficient replaced.
    pub open spec fn with_coef(self, c: Mersenne31Field) -> Term {
        match self {
            Term::Constant(_) => Term::Constant(c),
            Term::Expression { inner, degree, .. } => Term::Expression { coeff: c, inner, degree },
        }
    }
}

/// Order of terms in a normalized constraint: higher degree first, then
/// variables in lexicographic order.
pub open spec fn key_lt(a: Term, b: Term) -> bool {
    a.deg() > b.deg() || (a.deg() == b.deg() && lex_lt(a.vars(), b.vars()))
}

/// Same monomial up to the coefficient.
pub open spec fn same_key(a: Term, b: Term) -> bool {
    a.deg() == b.deg() && a.vars() == b.vars()
}

pub proof fn lemma_lex_irreflexive(a: Seq<u64>)
    ensures
        !lex_lt(a, a),
    decreases a.len(),
{
    if a.len() > 0 {
        lemma_lex_irreflexive(a.drop_first());
    }
}

pub proof fn lemma_lex_asymmetric(a: Seq<u64>, b: Seq<u64>)
    requires
        lex_lt(a, b),
    ensures
        !lex_lt(b, a),
    decreases a.len(),
{
    if a.len() > 0 && b.len() > 0 && a[0] == b[0] {
        lemma_lex_asymmetric(a.drop_first(), b.drop_first());
    }
}

pub proof fn lemma_lex_transitive(a: Seq<u64>, b: Seq<u64>, c: Seq<u64>)
    requires
        lex_lt(a, b),
        lex_lt(b, c),
    ensures
        lex_lt(a, c),
    decreases a.len(),
{
    if a[0] == b[0] && b[0] == c[0] {
        lemma_lex_transitive(a.drop_first(), b.drop_first(), c.drop_first());
    }
}

pub proof fn lemma_lex_total(a: Seq<u64>, b: Seq<u64>)
    requires
        a.len() == b.len(),
        !lex_lt(a, b),
        !lex_lt(b, a),
    ensures
        a == b,
    decreases a.len(),
{
    if a.len() > 0 {
        lemma_lex_total(a.drop_first(), b.drop_first());
        assert(a =~= seq![a[0]] + a.drop_first());
        assert(b =~= seq![b[0]] + b.drop_first());
    } else {
        assert(a =~= b);
    }
}

pub proof fn lemma_key_irreflexive(a: Term)
    ensures
        !key_lt(a, a),
{
    lemma_lex_irreflexive(a.vars());
}

pub proof fn lemma_key_asymmetric(a: Term, b: Term)
    requires
        key_lt(a, b),
    ensures
        !key_lt(b, a),
{
    if a.deg() == b.deg() {
        lemma_lex_asymmetric(a.vars(), b.vars());
    }
}

pub proof fn lemma_key_transitive(a: Term, b: Term, c: Term)
    requires
        key_lt(a, b),
        key_lt(b, c),
    ensures
        key_lt(a, c),
{
    if a.deg() == b.deg() && b.deg() == c.deg() {
        lemma_lex_transitive(a.vars(), b.vars(), c.vars());
    }
}

pub proof fn lemma_key_total(a: Term, b: Term)
    requires
        !key_lt(a, b),
        !key_lt(b, a),
    ensures
        same_key(a, b),
{
    lemma_lex_total(a.vars(), b.vars());
}

pub proof fn lemma_key_lt_same_key(a: Term, b: Term, c: Term)
    requires
        same_key(a, b),
    ensures
        key_lt(a, c) == key_lt(b, c),
        key_lt(c, a) == key_lt(c, b),
{
}

/// Terms of distinct keys have distinct monomials.
pub proof fn lemma_distinct_monomials(a: Term, b: Term)
    requires
        sorted_by(a.vars(), id_leq()),
        sorted_by(b.vars(), id_leq()),
        !same_key(a, b),
    ensures
        a.monomial() != b.monomial(),
{
    broadcast use vstd::seq_lib::group_to_multiset_ensures;

    if a.monomial() == b.monomial() {
        assert(a.vars().len() == a.deg());
        assert(b.vars().len() == b.deg());
        assert(a.vars().to_multiset().len() == a.vars().len());
        assert(b.vars().to_multiset().len() == b.vars().len());
        assert(vstd::relations::total_ordering(id_leq()));
        vstd::seq_lib::lemma_sorted_unique(a.vars(), b.vars(), id_leq());
    }
}

/// Well-formed terms with the same key and coefficient are equal.
pub proof fn lemma_term_ext(a: Term, b: Term)
    requires
        a.wf(),
        b.wf(),
        same_key(a, b),
        a.coef_val() == b.coef_val(),
    ensures
        a == b,
{
    match (a, b) {
        (Term::Constant(x), Term::Constant(y)) => {
            assert(x == y);
        },
        (
            Term::Expression { coeff: c1, inner: i1, degree: d1 },
            Term::Expression { coeff: c2, inner: i2, degree: d2 },
        ) => {
            assert(c1 == c2);
            assert forall|i: int| 0 <= i < 4 implies i1[i] == i2[i] by {
                if i < d1 {
                    assert(a.vars()[i] == b.vars()[i]);
                } else {
                    assert(i1[i].0 == PLACEHOLDER_ID);
                    assert(i2[i].0 == PLACEHOLDER_ID);
                }
            }
            assert(i1 =~= i2);
        },
        _ => {},
    }
}

/// Ascending insertion sort of variable identifiers.
fn sort_ids(v: &mut Vec<u64>)
    ensures
        final(v)@.len() == old(v)@.len(),
        final(v)@.to_multiset() == old(v)@.to_multiset(),
        sorted_by(final(v)@, id_leq()),
{
    let n = v.len();
    let mut i: usize = 1;
    if n == 0 {
        return;
    }
    while i < n
        invariant
            n == v@.len(),
            1 <= i <= n,
            v@.to_multiset() == old(v)@.to_multiset(),
            sorted_by(v@.take(i as int), id_leq()),
        decreases n - i,
    {
        let mut j: usize = i;
        assert forall|a: int, b: int| 0 <= a < b <= i && a != j && b != j implies v@[a] <= v@[b] by {
            assert(v@.take(i as int)[a] == v@[a]);
            assert(v@.take(i as int)[b] == v@[b]);
            assert(id_leq()(v@.take(i as int)[a], v@.take(i as int)[b]));
        }
        while j > 0 && v[j - 1] > v[j]
            invariant
                n == v@.len(),
                0 <= j <= i < n,
                v@.to_multiset() == old(v)@.to_multiset(),
                forall|a: int, b: int| 0 <= a < b <= i && a != j && b != j ==> v@[a] <= v@[b],
                forall|b: int| j < b <= i ==> v@[j as int] <= v@[b],
            decreases j,
        {
            let x = v[j - 1];
            let y = v[j];
            proof {
                lemma_swap_multiset(v@, j as int - 1, j as int);
            }
            v.set(j - 1, y);
            v.set(j, x);
            j -= 1;
        }
        assert(sorted_by(v@.take(i as int + 1), id_leq()));
        i += 1;
    }
    assert(v@.take(n as int) =~= v@);
}

/// Swapping two entries keeps the multiset.
pub proof fn lemma_swap_multiset(s: Seq<u64>, i: int, j: int)
    requires
        0 <= i < j < s.len(),
    ensures
        s.update(i, s[j]).update(j, s[i]).to_multiset() == s.to_multiset(),
{
    lemma_update_multiset(s, i, s[j]);
    let t = s.update(i, s[j]);
    lemma_update_multiset(t, j, s[i]);
    assert(t.to_multiset() =~= s.to_multiset().remove(s[i]).insert(s[j]));
    assert(t.update(j, s[i]).to_multiset() =~= t.to_multiset().remove(s[j]).insert(s[i]));
    assert(s.to_multiset().count(s[i]) > 0) by {
        broadcast use vstd::seq_lib::group_to_multiset_ensures;

        assert(s.contains(s[i]));
    }
    assert(t.update(j, s[i]).to_multiset() =~= s.to_multiset());
}

/// Replacing one entry swaps it in the multiset.
pub proof fn lemma_update_multiset(s: Seq<u64>, i: int, x: u64)
    requires
        0 <= i < s.len(),
    ensures
        s.update(i, x).to_multiset() == s.to_multiset().remove(s[i]).insert(x),
{
    broadcast use vstd::seq_lib::group_to_multiset_ensures;

    let a = s.take(i);
    let b = s.skip(i + 1);
    assert(s =~= a + seq![s[i]] + b);
    assert(s.update(i, x) =~= a + seq![x] + b);
    vstd::seq_lib::lemma_multiset_commutative(a + seq![s[i]], b);
    vstd::seq_lib::lemma_multiset_commutative(a, seq![s[i]]);
    vstd::seq_lib::lemma_multiset_commutative(a + seq![x], b);
    vstd::seq_lib::lemma_multiset_commutative(a, seq![x]);
    assert(seq![s[i]] =~= Seq::<u64>::empty().push(s[i]));
    assert(seq![x] =~= Seq::<u64>::empty().push(x));
    assert(s.update(i, x).to_multiset() =~= s.to_multiset().remove(s[i]).insert(x));
}

} // verus!
