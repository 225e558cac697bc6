use prover_core::constraint::{Constraint, WitnessValues};
use prover_core::field::{Mersenne31Field, MODULUS};
use prover_core::term::{Boolean, Num, Term, Variable, PLACEHOLDER_ID};

fn fe(v: u64) -> Mersenne31Field {
    Mersenne31Field::from_u64(v)
}

fn lin(c: u64, var: Variable) -> Term {
    Term::from_coeff_and_variable(fe(c), var)
}

fn quad(c: u64, a: Variable, b: Variable) -> Term {
    let p = Variable(PLACEHOLDER_ID);
    Term::Expression { coeff: fe(c), inner: [a, b, p, p], degree: 2 }
}

const X: Variable = Variable(0);
const Y: Variable = Variable(1);

#[test]
fn term_product_two_x_times_three_x() {
    let product = lin(2, X).mul(lin(3, X));
    assert_eq!(product.terms.len(), 1);
    assert_eq!(product.terms[0], quad(6, X, X));
    assert_eq!(product.degree(), 2);
    let c = product.sub(Constraint::from_term(quad(6, X, X)));
    assert!(c.is_empty());
}

#[test]
fn commutativity_through_sort_cancels() {
    let xy = Constraint::from_term(quad(1, X, Y));
    let yx = Constraint::from_term(quad(1, Y, X));
    let c = xy.sub(yx);
    assert!(c.is_empty());
}

#[test]
fn product_of_two_linear_factors() {
    let a = Constraint { terms: vec![Term::from_variable(X), Term::from_u64(1)] };
    let b = Constraint { terms: vec![Term::from_variable(Y), Term::from_u64(1)] };
    let c = a.mul(b);
    assert_eq!(
        c.terms,
        vec![quad(1, X, Y), lin(1, X), lin(1, Y), Term::Constant(fe(1))]
    );
}

#[test]
fn multiplication_commutes_on_example() {
    let a = Constraint { terms: vec![lin(3, X), Term::from_u64(5)] };
    let b = Constraint { terms: vec![lin(7, Y), Term::from_u64(2)] };
    let ab = a.clone().mul(b.clone());
    let ba = b.mul(a);
    assert_eq!(ab.terms, ba.terms);
}

#[test]
fn addition_commutes_and_associates_on_example() {
    let c = Constraint { terms: vec![lin(3, X), Term::from_u64(5)] };
    let d = Constraint { terms: vec![quad(2, X, Y), lin(4, Y)] };
    let e = Constraint { terms: vec![lin(MODULUS as u64 - 3, X), Term::from_u64(1)] };
    let cd = c.clone().add(d.clone());
    let dc = d.clone().add(c.clone());
    assert_eq!(cd.terms, dc.terms);
    let left = cd.add(e.clone());
    let right = c.add(d.add(e));
    assert_eq!(left.terms, right.terms);
    assert_eq!(left.terms, vec![quad(2, X, Y), lin(4, Y), Term::Constant(fe(6))]);
}

#[test]
fn normalize_is_idempotent_and_orders_terms() {
    let mut c = Constraint {
        terms: vec![Term::from_u64(4), lin(1, Y), quad(5, Y, X), lin(2, X), lin(3, Y)],
    };
    c.normalize();
    assert_eq!(c.terms, vec![quad(5, X, Y), lin(2, X), lin(4, Y), Term::Constant(fe(4))]);
    let once = c.terms.clone();
    c.normalize();
    assert_eq!(c.terms, once);
    assert!(c.degree() <= 2);
}

#[test]
fn normalize_of_zero_polynomial_is_empty() {
    let mut c = Constraint {
        terms: vec![lin(1, X), lin(MODULUS as u64 - 1, X), Term::from_u64(0), quad(0, X, Y)],
    };
    c.normalize();
    assert!(c.is_empty());
}

#[test]
fn normalize_lowers_degree_when_terms_cancel() {
    let mut c = Constraint { terms: vec![quad(1, X, Y), lin(1, X), quad(MODULUS as u64 - 1, Y, X)] };
    assert_eq!(c.degree(), 2);
    c.normalize();
    assert_eq!(c.terms, vec![lin(1, X)]);
    assert_eq!(c.degree(), 1);
}

#[test]
fn substitution_of_expressed_variable_vanishes() {
    let c = Constraint { terms: vec![lin(2, X), lin(3, Y), Term::from_u64(7)] };
    let e = c.express_variable(X);
    let inv2 = fe(2).inverse().unwrap();
    let minus_inv2 = inv2.negate();
    assert_eq!(
        e.terms,
        vec![lin(3 * minus_inv2.as_u64_reduced() % MODULUS as u64, Y), Term::Constant(fe(7 * minus_inv2.as_u64_reduced() % MODULUS as u64))]
    );
    let s = c.substitute_variable(X, e);
    assert!(s.is_empty());
}

#[test]
fn substitution_of_a_constant_in_a_product() {
    let a = Constraint { terms: vec![Term::from_variable(X), Term::from_u64(1)] };
    let b = Constraint { terms: vec![Term::from_variable(Y), Term::from_u64(1)] };
    let c = a.mul(b);
    let s = c.substitute_variable(X, Constraint::from_u64(2));
    assert_eq!(s.terms, vec![lin(3, Y), Term::Constant(fe(3))]);
}

#[test]
fn substitution_of_a_constant_in_a_linear_constraint() {
    let c = Constraint { terms: vec![lin(1, X), Term::from_u64(1)] };
    let squared = c.clone().mul(Constraint { terms: vec![Term::from_variable(Y), Term::from_u64(1)] });
    let s = squared.substitute_variable(Y, Constraint::from_u64(2));
    assert_eq!(s.terms, vec![lin(3, X), Term::Constant(fe(3))]);
    let t = c.substitute_variable(X, Constraint::from_u64(2));
    assert_eq!(t.terms, vec![Term::Constant(fe(3))]);
    assert_eq!(t.as_constant(), fe(3));
}

#[test]
fn split_max_quadratic_parts() {
    let c = Constraint { terms: vec![Term::from_u64(9), lin(4, Y), quad(5, Y, X), lin(2, X)] };
    let (q, l, k) = c.split_max_quadratic();
    assert_eq!(q, vec![(fe(5), X, Y)]);
    assert_eq!(l, vec![(fe(2), X), (fe(4), Y)]);
    assert_eq!(k, fe(9));
}

#[test]
fn split_max_quadratic_without_constant() {
    let c = Constraint { terms: vec![lin(4, Y)] };
    let (q, l, k) = c.split_max_quadratic();
    assert!(q.is_empty());
    assert_eq!(l, vec![(fe(4), Y)]);
    assert_eq!(k, fe(0));
}

#[test]
fn value_under_assignment() {
    let c = Constraint { terms: vec![quad(5, X, Y), lin(2, X), Term::from_u64(9)] };
    let full = WitnessValues { values: vec![Some(fe(3)), Some(fe(4))] };
    assert_eq!(c.get_value(&full), Some(fe(5 * 12 + 6 + 9)));
    let partial = WitnessValues { values: vec![Some(fe(3))] };
    assert_eq!(c.get_value(&partial), None);
}

#[test]
fn contains_and_degree_for_var() {
    let c = Constraint { terms: vec![quad(5, X, X), lin(2, Y)] };
    assert!(c.contains_var(&X));
    assert!(!c.contains_var(&Variable(7)));
    assert_eq!(c.degree_for_var(&X), 2);
    assert_eq!(c.degree_for_var(&Y), 1);
}

#[test]
fn scale_multiplies_coefficients() {
    let mut c = Constraint { terms: vec![lin(2, X), Term::from_u64(3)] };
    c.scale(fe(5));
    assert_eq!(c.terms, vec![lin(10, X), Term::Constant(fe(15))]);
}

#[test]
fn term_queries() {
    let t = quad(5, Y, X);
    let mut n = t;
    n.normalize();
    assert_eq!(n, quad(5, X, Y));
    assert!(t.contains_var(&X));
    assert_eq!(t.degree_for_var(&X), 1);
    assert_eq!(t.degree(), 2);
    assert_eq!(t.prefactor_for_var(&X), fe(5));
    assert_eq!(Term::from_variable(X).get_variable(), Some(X));
    assert_eq!(lin(2, X).get_variable(), None);
    assert!(Term::are_equal_terms(&quad(1, X, Y), &quad(9, X, Y)));
    assert!(!Term::are_equal_terms(&quad(1, X, Y), &lin(1, X)));
    assert_eq!(n.as_slice(), &[X, Y]);
    let mut z = lin(0, X);
    z.normalize();
    assert_eq!(z, Term::Constant(fe(0)));
    assert!(z.is_zero());
}

#[test]
fn term_combine_and_order() {
    let mut a = lin(2, X);
    assert!(a.combine(&lin(3, X)));
    assert_eq!(a, lin(5, X));
    assert!(!a.combine(&lin(3, Y)));
    assert_eq!(a, lin(5, X));
    assert_eq!(quad(1, X, Y).cmp(&lin(1, X)), std::cmp::Ordering::Less);
    assert_eq!(lin(1, X).cmp(&lin(1, Y)), std::cmp::Ordering::Less);
    assert_eq!(lin(2, X).cmp(&lin(1, X)), std::cmp::Ordering::Greater);
    assert_eq!(lin(2, X).cmp(&lin(2, X)), std::cmp::Ordering::Equal);
    assert_eq!(Term::from_u64(1).cmp(&lin(1, X)), std::cmp::Ordering::Greater);
}

#[test]
fn field_arithmetic() {
    let p = MODULUS as u64;
    assert_eq!(fe(p + 5), fe(5));
    assert_eq!(fe(p - 1).add(&fe(2)), fe(1));
    assert_eq!(fe(3).sub(&fe(5)), fe(p - 2));
    assert_eq!(fe(0).negate(), fe(0));
    assert_eq!(fe(1 << 20).mul(&fe(1 << 20)), fe((1u64 << 40) % p));
    let inv = fe(12345).inverse().unwrap();
    assert_eq!(inv.mul(&fe(12345)), fe(1));
    assert_eq!(fe(0).inverse(), None);
    assert_eq!(Mersenne31Field::minus_one().add(&Mersenne31Field::one()), Mersenne31Field::zero());
}

#[test]
fn constraint_constructors() {
    assert_eq!(Constraint::from_bool(true).terms, vec![Term::Constant(fe(1))]);
    assert_eq!(Constraint::from_variable(X).terms, vec![lin(1, X)]);
    assert_eq!(Constraint::constant(fe(4)).terms, vec![Term::Constant(fe(4))]);
    let c = Constraint::empty().add_term(lin(1, X)).sub_term(lin(1, Y));
    assert_eq!(c.terms, vec![lin(1, X), lin(MODULUS as u64 - 1, Y)]);
}

#[test]
fn constraints_from_numbers_and_booleans() {
    assert_eq!(Constraint::from_num(Num::Var(X)).terms, vec![lin(1, X)]);
    assert_eq!(Constraint::from_num(Num::Constant(fe(8))).terms, vec![Term::Constant(fe(8))]);
    assert_eq!(Constraint::from_boolean(Boolean::Is(Y)).terms, vec![lin(1, Y)]);
    assert_eq!(Constraint::from_boolean(Boolean::Constant(false)).terms, vec![Term::Constant(fe(0))]);
    let sum = Term::from_num(Num::Var(X)).add(Term::from_u64(2));
    assert_eq!(sum.terms, vec![lin(1, X), Term::Constant(fe(2))]);
    let diff = lin(3, X).sub(lin(3, X));
    assert_eq!(diff.terms.len(), 2);
    let scaled = Constraint { terms: vec![lin(2, X), Term::from_u64(1)] }.mul_term(lin(3, Y));
    assert_eq!(scaled.terms, vec![quad(6, X, Y), lin(3, Y)]);
    let other = lin(3, Y).mul_constraint(Constraint { terms: vec![lin(2, X), Term::from_u64(1)] });
    assert_eq!(other.terms, scaled.terms);
}
