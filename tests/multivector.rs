use symbolic_ga::basis::{Basis, BasisError, Vector};
use symbolic_ga::element::Element;
use symbolic_ga::multivector::MultiVector;
use symbolic_ga::rational::lift_integer;
use symbolic_ga::symbols::{multiply_symbol_powers, SymbolPowers, Symbols};

const G2: Basis = Basis {
    zero: 0,
    positive: 2,
    negative: 0,
};

fn blade(vs: Vec<usize>) -> Element {
    Element::from_vectors(vs.into_iter().map(Vector).collect())
}

fn powers(ps: Vec<(&str, usize)>) -> SymbolPowers {
    ps.into_iter().fold(SymbolPowers::one(), |acc, (name, exp)| {
        multiply_symbol_powers(&acc, &SymbolPowers::symbol(name.to_string(), exp))
    })
}

fn poly(terms: Vec<(Vec<(&str, usize)>, isize)>) -> Symbols {
    terms.into_iter().fold(Symbols::zero(), |acc, (ps, c)| {
        acc.add_scaled_power(lift_integer(c), powers(ps))
    })
}

fn mv(terms: Vec<(Vec<usize>, Symbols)>) -> MultiVector {
    terms
        .into_iter()
        .fold(MultiVector::zero(), |acc, (b, s)| acc.add_blade(blade(b), s))
}

#[test]
fn multivector_test_simple_mult() {
    // (5 e2) (3a e2 + bb e1) = 15a - 5 bb e12
    let lhs = mv(vec![(vec![1], poly(vec![(vec![], 5)]))]);
    let rhs = mv(vec![
        (vec![1], poly(vec![(vec![("a", 1)], 3)])),
        (vec![0], poly(vec![(vec![("b", 2)], 1)])),
    ]);

    let expected = mv(vec![
        (vec![], poly(vec![(vec![("a", 1)], 15)])),
        (vec![0, 1], poly(vec![(vec![("b", 2)], -5)])),
    ]);

    assert_eq!(lhs.multiply(&G2, &rhs).unwrap(), expected);
}

#[test]
fn addition_is_commutative_with_identity() {
    let x = mv(vec![
        (vec![0], poly(vec![(vec![("a", 1)], 2)])),
        (vec![0, 1], poly(vec![(vec![], 7)])),
    ]);
    let y = mv(vec![
        (vec![1], poly(vec![(vec![("b", 1)], 1)])),
        (vec![0], poly(vec![(vec![("a", 1)], 1)])),
    ]);
    assert_eq!(x.clone().add(y.clone()), y.clone().add(x.clone()));
    assert_eq!(x.clone().add(MultiVector::zero()), x.clone());
    assert_eq!(MultiVector::zero().add(x.clone()), x.clone());
    let z = mv(vec![(vec![0, 1], poly(vec![(vec![], -7)]))]);
    assert_eq!(
        x.clone().add(y.clone()).add(z.clone()),
        x.clone().add(y.clone().add(z.clone()))
    );
}

#[test]
fn addition_with_negation_is_zero() {
    let x = mv(vec![
        (vec![0], poly(vec![(vec![("a", 1)], 2), (vec![], 1)])),
        (vec![0, 1], poly(vec![(vec![], 7)])),
    ]);
    let negated = mv(vec![
        (vec![0], poly(vec![(vec![("a", 1)], 2), (vec![], 1)]).invert()),
        (vec![0, 1], poly(vec![(vec![], 7)]).invert()),
    ]);
    assert_eq!(x.add(negated), MultiVector::zero());
}

#[test]
fn cancelling_blades_are_dropped() {
    // e1 * e2 + e2 * e1 = 0
    let e1 = mv(vec![(vec![0], poly(vec![(vec![], 1)]))]);
    let e2 = mv(vec![(vec![1], poly(vec![(vec![], 1)]))]);
    let sum = e1.multiply(&G2, &e2).unwrap().add(e2.multiply(&G2, &e1).unwrap());
    assert_eq!(sum, MultiVector::zero());
}

#[test]
fn null_vectors_annihilate() {
    let basis = Basis {
        zero: 1,
        positive: 1,
        negative: 0,
    };
    let e0 = mv(vec![(vec![0], poly(vec![(vec![("a", 1)], 3)]))]);
    assert_eq!(e0.multiply(&basis, &e0).unwrap(), MultiVector::zero());
}

#[test]
fn negative_vectors_square_to_minus_one() {
    let basis = Basis {
        zero: 0,
        positive: 0,
        negative: 1,
    };
    let e = mv(vec![(vec![0], poly(vec![(vec![("a", 1)], 2)]))]);
    let expected = mv(vec![(vec![], poly(vec![(vec![("a", 2)], -4)]))]);
    assert_eq!(e.multiply(&basis, &e).unwrap(), expected);
}

#[test]
fn out_of_range_blades_fail() {
    let e5 = mv(vec![(vec![5], poly(vec![(vec![], 1)]))]);
    assert_eq!(e5.multiply(&G2, &e5), Err(BasisError::IndexOutOfRange(5)));
}
