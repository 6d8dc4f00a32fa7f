use symbolic_ga::rational::lift_integer;
use symbolic_ga::symbols::{multiply_symbol_powers, SymbolPowers, Symbols};

fn powers(ps: Vec<(&str, usize)>) -> SymbolPowers {
    ps.into_iter().fold(SymbolPowers::one(), |acc, (name, exp)| {
        multiply_symbol_powers(&acc, &SymbolPowers::symbol(name.to_string(), exp))
    })
}

fn poly(terms: Vec<(Vec<(&str, usize)>, isize)>) -> Symbols {
    terms.into_iter().fold(Symbols::zero(), |acc, (ps, c)| {
        acc.add_scaled_power(lift_integer(c), powers(ps))
    })
}

#[test]
fn test_simple_mult_symbol_powers() {
    let lhs: SymbolPowers = powers(vec![("x", 2), ("y", 3)]);
    let rhs: SymbolPowers = powers(vec![("y", 4), ("z", 5)]);

    assert_eq!(
        multiply_symbol_powers(&lhs, &rhs),
        powers(vec![("x", 2), ("y", 3 + 4), ("z", 5)])
    );
}

#[test]
fn test_mult_power_increase() {
    // (2 + x) * (3 + xx) = 6 + 2xx + 3x + xxx
    let lhs = poly(vec![(vec![("x", 1)], 1), (vec![], 2)]);
    let rhs = poly(vec![(vec![("x", 2)], 1), (vec![], 3)]);

    let expected = poly(vec![
        (vec![("x", 3)], 1),
        (vec![("x", 2)], 2),
        (vec![("x", 1)], 3),
        (vec![], 6),
    ]);

    assert_eq!(lhs.multiply(&rhs), expected);
}

#[test]
fn symbol_order_does_not_matter() {
    assert_eq!(
        powers(vec![("y", 1), ("x", 1)]),
        powers(vec![("x", 1), ("y", 1)])
    );
    assert!(powers(vec![("y", 1), ("x", 2)]).same_as(&powers(vec![("x", 2), ("y", 1)])));
    assert!(!powers(vec![("x", 1)]).same_as(&powers(vec![("x", 2)])));
}

#[test]
fn zero_exponent_is_one() {
    assert_eq!(SymbolPowers::symbol("x".to_string(), 0), SymbolPowers::one());
}

#[test]
fn addition_cancels_terms() {
    let a = poly(vec![(vec![("x", 1)], 3), (vec![], 1)]);
    let b = poly(vec![(vec![("x", 1)], -3), (vec![("y", 1)], 2)]);
    let expected = poly(vec![(vec![], 1), (vec![("y", 1)], 2)]);
    assert_eq!(a.add(b), expected);
}

#[test]
fn addition_with_zero_and_itself() {
    let a = poly(vec![(vec![("x", 1)], 3)]);
    assert_eq!(a.clone().add(Symbols::zero()), a);
    assert_eq!(a.clone().add(a.clone()), poly(vec![(vec![("x", 1)], 6)]));
}

#[test]
fn invert_negates_every_coefficient() {
    let a = poly(vec![(vec![("x", 2)], 3), (vec![], -4)]);
    let expected = poly(vec![(vec![("x", 2)], -3), (vec![], 4)]);
    assert_eq!(a.invert(), expected);
    assert!(a.clone().add(a.invert()).is_zero());
}

#[test]
fn adding_a_zero_term_changes_nothing() {
    let a = poly(vec![(vec![("x", 1)], 3)]);
    assert_eq!(
        a.clone().add_scaled_power(lift_integer(0), powers(vec![("y", 1)])),
        a
    );
}

#[test]
fn product_with_zero_is_zero() {
    let a = poly(vec![(vec![("x", 1)], 3)]);
    assert!(a.multiply(&Symbols::zero()).is_zero());
}

#[test]
fn coefficient_products_are_exact() {
    // (x + y)(x - y) = xx - yy
    let a = poly(vec![(vec![("x", 1)], 1), (vec![("y", 1)], 1)]);
    let b = poly(vec![(vec![("x", 1)], 1), (vec![("y", 1)], -1)]);
    let expected = poly(vec![(vec![("x", 2)], 1), (vec![("y", 2)], -1)]);
    assert_eq!(a.multiply(&b), expected);
}

#[test]
fn lift_integer_keeps_the_value() {
    let r = lift_integer(-1234567);
    let s = lift_integer(1234567);
    let p = poly(vec![(vec![], -1234567)]);
    assert!(p.add(poly(vec![(vec![], 1234567)])).is_zero());
    assert_ne!(r, s);
    assert_eq!(lift_integer(7), lift_integer(7));
}
