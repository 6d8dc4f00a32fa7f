use symbolic_ga::basis::{Basis, BasisError, Vector};
use symbolic_ga::element::{Element, SimplifiedElement};

const ONETWOONE: Basis = Basis {
    zero: 1,
    positive: 2,
    negative: 1,
};

const G3: Basis = Basis {
    zero: 0,
    positive: 3,
    negative: 0,
};

fn blade(vs: Vec<usize>) -> Element {
    Element::from_vectors(vs.into_iter().map(Vector).collect())
}

#[test]
fn element_test_bivector_squares_to_minus_one() {
    let e1 = Vector(1);
    let e2: Element = Element::from_vector(Vector(2));

    let e12 = e2.multiply_vector_left(&ONETWOONE, e1).unwrap();

    match e12 {
        SimplifiedElement::Positive(e12) => {
            assert_eq!(
                e12.multiply(&ONETWOONE, &e12).unwrap(),
                SimplifiedElement::Negative(Element::scalar())
            );
        }
        _ => panic!("Could not construct bivector"),
    }
}

#[test]
fn element_test_squares_to_zero() {
    let e0 = Vector(0);
    let e1: Element = Element::from_vector(Vector(1));
    let e2: Element = Element::from_vector(Vector(2));

    let e01 = e1.multiply_vector_left(&ONETWOONE, e0).unwrap();
    let e02 = e2.multiply_vector_left(&ONETWOONE, e0).unwrap();

    match (e01, e02) {
        (SimplifiedElement::Positive(e01), SimplifiedElement::Positive(e02)) => {
            assert_eq!(e01.multiply(&ONETWOONE, &e02).unwrap(), SimplifiedElement::Zero,);
        }
        _ => panic!("Could not construct bivectors"),
    }
}

#[test]
fn distinct_vectors_anticommute() {
    let e0 = blade(vec![0]);
    let e2 = blade(vec![2]);
    assert_eq!(
        e0.multiply(&G3, &e2),
        Ok(SimplifiedElement::Positive(blade(vec![0, 2])))
    );
    assert_eq!(
        e2.multiply(&G3, &e0),
        Ok(SimplifiedElement::Negative(blade(vec![0, 2])))
    );
}

#[test]
fn vectors_square_by_signature() {
    for (i, expected) in [
        (0, SimplifiedElement::Zero),
        (1, SimplifiedElement::Positive(Element::scalar())),
        (3, SimplifiedElement::Negative(Element::scalar())),
    ] {
        let e = blade(vec![i]);
        assert_eq!(e.multiply(&ONETWOONE, &e), Ok(expected));
    }
}

#[test]
fn scalar_is_identity() {
    let e = blade(vec![0, 2, 3]);
    assert_eq!(
        Element::scalar().multiply(&ONETWOONE, &e),
        Ok(SimplifiedElement::Positive(e.clone()))
    );
    assert_eq!(
        e.multiply(&ONETWOONE, &Element::scalar()),
        Ok(SimplifiedElement::Positive(e.clone()))
    );
}

#[test]
fn blade_products_are_associative_in_g3() {
    let all = G3.elements();
    for a in &all {
        for b in &all {
            for c in &all {
                let left = match a.multiply(&G3, b).unwrap() {
                    SimplifiedElement::Zero => SimplifiedElement::Zero,
                    SimplifiedElement::Positive(ab) => ab.multiply(&G3, c).unwrap(),
                    SimplifiedElement::Negative(ab) => ab.multiply(&G3, c).unwrap().flip(),
                };
                let right = match b.multiply(&G3, c).unwrap() {
                    SimplifiedElement::Zero => SimplifiedElement::Zero,
                    SimplifiedElement::Positive(bc) => a.multiply(&G3, &bc).unwrap(),
                    SimplifiedElement::Negative(bc) => a.multiply(&G3, &bc).unwrap().flip(),
                };
                assert_eq!(left, right);
            }
        }
    }
}

#[test]
fn out_of_range_collision_fails() {
    let e5 = blade(vec![5]);
    assert_eq!(
        e5.multiply(&ONETWOONE, &e5),
        Err(BasisError::IndexOutOfRange(5))
    );
    assert_eq!(
        Element::scalar().multiply_vector_left(&ONETWOONE, Vector(7)),
        Ok(SimplifiedElement::Positive(blade(vec![7])))
    );
}

#[test]
fn e1e2_product_with_e0() {
    // e1e2 * e2e3 = e1 (e2 e2) e3 = e1e3 in a positive basis
    let a = blade(vec![0, 1]);
    let b = blade(vec![1, 2]);
    assert_eq!(
        a.multiply(&G3, &b),
        Ok(SimplifiedElement::Positive(blade(vec![0, 2])))
    );
    // e2e3 * e1e2 = -e1e3
    assert_eq!(
        b.multiply(&G3, &a),
        Ok(SimplifiedElement::Negative(blade(vec![0, 2])))
    );
}

#[test]
fn simplified_element_helpers() {
    let e = blade(vec![1]);
    let (sign, elems) = SimplifiedElement::Negative(e.clone()).elems_and_sign();
    assert_eq!(sign, symbolic_ga::basis::SquaredElement::MinusOne);
    assert_eq!(elems, e);
    assert_eq!(SimplifiedElement::Zero.elems(), None);
    assert_eq!(SimplifiedElement::Positive(e.clone()).elems(), Some(e.clone()));
    assert_eq!(
        SimplifiedElement::Positive(e.clone()).flip(),
        SimplifiedElement::Negative(e.clone())
    );
    assert_eq!(
        SimplifiedElement::Negative(e.clone()).map(|_| Element::scalar()),
        SimplifiedElement::Negative(Element::scalar())
    );
}

#[test]
fn from_vectors_sorts_and_dedups() {
    let e = Element::from_vectors(vec![Vector(2), Vector(0), Vector(2)]);
    assert_eq!(e.indices(), vec![0, 2]);
}

#[test]
fn mult_of_valid_blades() {
    let a = blade(vec![1, 3]);
    let b = blade(vec![3]);
    // e1e3 * e3 = e1 * (e3 e3) = -e1 with e3 negative
    assert_eq!(a.mult(&ONETWOONE, &b), SimplifiedElement::Negative(blade(vec![1])));
    assert_eq!(b.mult(&ONETWOONE, &a), SimplifiedElement::Positive(blade(vec![1])));
}

#[test]
fn and_then_flips_negative_outcomes() {
    let e1 = blade(vec![1]);
    let r = SimplifiedElement::Negative(e1.clone())
        .and_then(|e| e.multiply_vector_left(&ONETWOONE, Vector(0)).unwrap());
    assert_eq!(r, SimplifiedElement::Negative(blade(vec![0, 1])));
    let z = SimplifiedElement::Zero.and_then(|e| SimplifiedElement::Positive(e));
    assert_eq!(z, SimplifiedElement::Zero);
}
