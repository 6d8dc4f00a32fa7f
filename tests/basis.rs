use symbolic_ga::basis::{Basis, BasisError, SquaredElement, Vector};
use symbolic_ga::element::Element;

const G3: Basis = Basis {
    zero: 0,
    positive: 3,
    negative: 0,
};

fn blade(vs: Vec<usize>) -> Element {
    Element::from_vectors(vs.into_iter().map(Vector).collect())
}

#[test]
fn test_grade_zero() {
    assert_eq!(G3.grade(0), vec![Element::scalar()]);
}

#[test]
fn test_grade_one() {
    assert_eq!(
        G3.grade(1),
        vec![0, 1, 2]
            .into_iter()
            .map(|v| blade(vec![v]))
            .collect::<Vec<Element>>()
    );
}

#[test]
fn test_grade_two() {
    assert_eq!(
        G3.grade(2),
        vec![vec![0, 1], vec![0, 2], vec![1, 2]]
            .into_iter()
            .map(blade)
            .collect::<Vec<Element>>()
    );
}

#[test]
fn test_grade_three() {
    assert_eq!(
        G3.grade(3),
        vec![vec![0, 1, 2]]
            .into_iter()
            .map(blade)
            .collect::<Vec<Element>>()
    );
}

#[test]
fn test_all_elements_for_g3() {
    let expected: Vec<Element> = vec![
        Element::scalar(),
        blade(vec![0]),
        blade(vec![1]),
        blade(vec![2]),
        blade(vec![0, 1]),
        blade(vec![0, 2]),
        blade(vec![1, 2]),
        blade(vec![0, 1, 2]),
    ];

    assert_eq!(G3.elements(), expected);
}

#[test]
fn elements_of_g3_by_grade() {
    let all = G3.elements();
    assert_eq!(all.len(), 8);
    let counts: Vec<usize> = (0..=3)
        .map(|g| all.iter().filter(|e| e.indices().len() == g).count())
        .collect();
    assert_eq!(counts, vec![1, 3, 3, 1]);
    for e in &all {
        let idx = e.indices();
        assert!(idx.windows(2).all(|w| w[0] < w[1]));
    }
}

#[test]
fn grade_above_dimension_is_empty() {
    assert!(G3.grade(4).is_empty());
}

#[test]
fn empty_basis_has_only_the_scalar() {
    let b = Basis {
        zero: 0,
        positive: 0,
        negative: 0,
    };
    assert!(b.vectors().is_empty());
    assert_eq!(b.elements(), vec![Element::scalar()]);
}

#[test]
fn vectors_are_all_indices() {
    let b = Basis {
        zero: 1,
        positive: 2,
        negative: 1,
    };
    assert_eq!(
        b.vectors(),
        vec![Vector(0), Vector(1), Vector(2), Vector(3)]
    );
    assert_eq!(b.elements().len(), 16);
}

#[test]
fn squares_follow_the_signature() {
    let b = Basis {
        zero: 1,
        positive: 2,
        negative: 1,
    };
    assert_eq!(Vector(0).square(&b), Ok(SquaredElement::Zero));
    assert_eq!(Vector(1).square(&b), Ok(SquaredElement::One));
    assert_eq!(Vector(2).square(&b), Ok(SquaredElement::One));
    assert_eq!(Vector(3).square(&b), Ok(SquaredElement::MinusOne));
    assert_eq!(Vector(4).square(&b), Err(BasisError::IndexOutOfRange(4)));
}

#[test]
fn from_index_checks_the_range() {
    let b = Basis {
        zero: 1,
        positive: 2,
        negative: 1,
    };
    assert_eq!(Vector::from_index(&b, 3), Some(Vector(3)));
    assert_eq!(Vector::from_index(&b, 4), None);
    let huge = Basis {
        zero: usize::MAX,
        positive: 0,
        negative: 0,
    };
    assert_eq!(Vector::from_index(&huge, usize::MAX - 1), Some(Vector(usize::MAX - 1)));
}
