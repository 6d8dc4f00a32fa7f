use vstd::prelude::*;

use crate::assoc::{
    keys_unique, lemma_to_map, lemma_to_map_insert, lemma_to_map_remove, lemma_to_map_update,
    to_map,
};
use crate::basis::{Basis, BasisError};
use crate::rational::{abs, gcd, rat_sum};
use crate::element::{product, Element, Signed, SimplifiedElement};
use crate::symbols::{
    lemma_poly_sum_associative, lemma_poly_sum_coef, lemma_poly_sum_empty,
    poly_neg, poly_product, poly_sum, poly_wf, products_fit, terms_seq, Monomial, Poly, Symbols,
};

verus! {

/// A multivector as a value: each blade with its polynomial coefficient.
pub type Blades = Map<Seq<usize>, Poly>;

/// A sum of blades, each weighted by a polynomial. The empty list is the
/// zero multivector.
#[derive(Debug, Clone, PartialEq)]
pub struct MultiVector(pub Vec<(Element, Symbols)>);

/// The terms of a multivector, as values.
pub open spec fn blade_terms(s: Seq<(Element, Symbols)>) -> Seq<(Seq<usize>, Poly)> {
    s.map_values(|t: (Element, Symbols)| (t.0@, t.1@))
}

impl View for MultiVector {
    type V = Blades;

    open spec fn view(&self) -> Blades {
        to_map(blade_terms(self.0@))
    }
}

/// `m` with `p * k` added: the coefficients of blade `k` are summed, and a
/// blade whose coefficient becomes the zero polynomial is dropped.
pub open spec fn add_blade_term(m: Blades, k: Seq<usize>, p: Poly) -> Blades {
    let s = if m.contains_key(k) {
        poly_sum(m[k], p)
    } else {
        p
    };
    if s == Poly::empty() {
        m.remove(k)
    } else {
        m.insert(k, s)
    }
}

/// The coefficient of blade `k` in `a + b`, before zero ones are dropped.
pub open spec fn blade_combined(a: Blades, b: Blades, k: Seq<usize>) -> Poly {
    if a.contains_key(k) && b.contains_key(k) {
        poly_sum(a[k], b[k])
    } else if a.contains_key(k) {
        a[k]
    } else {
        b[k]
    }
}

/// The sum of two multivectors: coefficients of the same blade are added,
/// and blades whose coefficients cancel are dropped.
pub open spec fn mv_sum(a: Blades, b: Blades) -> Blades {
    Map::new(
        |k: Seq<usize>|
            (a.contains_key(k) || b.contains_key(k)) && blade_combined(a, b, k) != Poly::empty(),
        |k: Seq<usize>| blade_combined(a, b, k),
    )
}

/// Every coefficient is a nonzero polynomial with nonzero coefficients in
/// lowest terms.
pub open spec fn blades_wf(m: Blades) -> bool {
    forall|k: Seq<usize>| #[trigger] m.contains_key(k) ==> poly_wf(m[k]) && m[k] != Poly::empty()
}

/// Whether two blades hold the same indices.
fn same_blade(a: &Element, b: &Element) -> (r: bool)
    ensures
        r == (a@ == b@),
{
    if a.0.len() != b.0.len() {
        return false;
    }
    let mut i: usize = 0;
    while i < a.0.len()
        invariant
            0 <= i <= a@.len(),
            a@.len() == b@.len(),
            forall|j: int| 0 <= j < i ==> a@[j] == b@[j],
        decreases a@.len() - i,
    {
        if a.0[i] != b.0[i] {
            return false;
        }
        i = i + 1;
    }
    assert(a@ =~= b@);
    true
}

/// Whether blade `a` comes before `b` in lexicographic order of indices (a
/// prefix first). This fixes the order of the terms of a multivector.
fn blade_less(a: &Element, b: &Element) -> bool {
    let mut i: usize = 0;
    while i < a.0.len() && i < b.0.len()
        decreases a@.len() - i,
    {
        if a.0[i] != b.0[i] {
            return a.0[i] < b.0[i];
        }
        i = i + 1;
    }
    a.0.len() < b.0.len()
}

/// The position of the term of blade `e`, if any.
fn find_blade(v: &Vec<(Element, Symbols)>, e: &Element) -> (r: Option<usize>)
    ensures
        match r {
            Some(k) => k < v@.len() && v@[k as int].0@ == e@,
            None => forall|i: int| 0 <= i < v@.len() ==> (#[trigger] v@[i]).0@ != e@,
        },
{
    let mut k: usize = 0;
    while k < v.len()
        invariant
            0 <= k <= v@.len(),
            forall|i: int| 0 <= i < k ==> (#[trigger] v@[i]).0@ != e@,
        decreases v@.len() - k,
    {
        if same_blade(&v[k].0, e) {
            return Some(k);
        }
        k = k + 1;
    }
    None
}

impl MultiVector {
    /// Distinct blades, each with ascending indices and a nonzero
    /// well-formed polynomial.
    pub open spec fn wf(&self) -> bool {
        &&& keys_unique(blade_terms(self.0@))
        &&& forall|i: int|
            0 <= i < self.0@.len() ==> {
                &&& (#[trigger] self.0@[i]).0.wf()
                &&& self.0@[i].1.wf()
                &&& self.0@[i].1@ != Poly::empty()
            }
    }

    /// The zero multivector.
    pub fn zero() -> (r: MultiVector)
        ensures
            r.wf(),
            r@ == Blades::empty(),
    {
        let r = MultiVector(Vec::new());
        assert(r@ =~= Blades::empty());
        r
    }

    /// The value of a well-formed multivector has well-formed, nonzero
    /// coefficients.
    pub proof fn lemma_wf(&self)
        requires
            self.wf(),
        ensures
            blades_wf(self@),
            forall|i: int| 0 <= i < self.0@.len() ==> #[trigger] self@[self.0@[i].0@] == self.0@[i].1@,
            forall|k: Seq<usize>|
                #[trigger] self@.contains_key(k) <==> exists|i: int|
                    0 <= i < self.0@.len() && self.0@[i].0@ == k,
    {
        let ts = blade_terms(self.0@);
        lemma_to_map(ts);
        assert forall|i: int| 0 <= i < self.0@.len() implies #[trigger] self@[self.0@[i].0@] == self.0@[i].1@ by {
            assert(ts[i].0 == self.0@[i].0@);
        }
        assert forall|k: Seq<usize>|
            #[trigger] self@.contains_key(k) <==> exists|i: int|
                0 <= i < self.0@.len() && self.0@[i].0@ == k by {
            if self@.contains_key(k) {
                let j = choose|j: int| 0 <= j < ts.len() && ts[j].0 == k;
                assert(self.0@[j].0@ == k);
            }
            if exists|i: int| 0 <= i < self.0@.len() && self.0@[i].0@ == k {
                let j = choose|i: int| 0 <= i < self.0@.len() && self.0@[i].0@ == k;
                assert(ts[j].0 == k);
            }
        }
        assert forall|k: Seq<usize>| #[trigger] self@.contains_key(k) implies poly_wf(self@[k])
            && self@[k] != Poly::empty() by {
            let j = choose|i: int| 0 <= i < self.0@.len() && self.0@[i].0@ == k;
            assert(self@[self.0@[j].0@] == self.0@[j].1@);
            self.0@[j].1.lemma_wf();
        }
    }

    /// Adds the term `sym * elem`: merged into the term of the same blade if
    /// there is one, and dropped when its coefficient becomes zero.
    pub fn add_blade(self, elem: Element, sym: Symbols) -> (r: MultiVector)
        requires
            self.wf(),
            elem.wf(),
            sym.wf(),
        ensures
            r.wf(),
            r@ == add_blade_term(self@, elem@, sym@),
    {
        proof {
            self.lemma_wf();
        }
        let ghost old_terms = blade_terms(self.0@);
        let ghost key = elem@;
        let mut v = self.0;
        match find_blade(&v, &elem) {
            Some(k) => {
                let existing = v[k].1.copy();
                proof {
                    assert(old_terms[k as int].0 == key);
                    assert(self@[key] == v@[k as int].1@);
                }
                let sum = existing.add(sym);
                if sum.is_zero() {
                    v.remove(k);
                    proof {
                        assert(blade_terms(v@) =~= old_terms.remove(k as int));
                        lemma_to_map_remove(old_terms, k as int);
                    }
                } else {
                    let ghost sv = sum@;
                    v.set(k, (elem, sum));
                    proof {
                        assert(blade_terms(v@) =~= old_terms.update(k as int, (old_terms[k as int].0, sv)));
                        lemma_to_map_update(old_terms, k as int, sv);
                    }
                }
                MultiVector(v)
            },
            None => {
                proof {
                    assert(!self@.contains_key(key));
                }
                if sym.is_zero() {
                    assert(self@.remove(key) =~= self@);
                    return MultiVector(v);
                }
                let mut p: usize = 0;
                while p < v.len() && blade_less(&v[p].0, &elem)
                    invariant
                        0 <= p <= v@.len(),
                    decreases v@.len() - p,
                {
                    p = p + 1;
                }
                let ghost sv = sym@;
                v.insert(p, (elem, sym));
                proof {
                    assert(blade_terms(v@) =~= old_terms.insert(p as int, (key, sv)));
                    assert forall|i: int| 0 <= i < old_terms.len() implies old_terms[i].0 != key by {
                        assert(old_terms[i].0 == self.0@[i].0@);
                    }
                    lemma_to_map_insert(old_terms, p as int, key, sv);
                }
                let r = MultiVector(v);
                proof {
                    assert forall|i: int| 0 <= i < r.0@.len() implies {
                        &&& (#[trigger] r.0@[i]).0.wf()
                        &&& r.0@[i].1.wf()
                        &&& r.0@[i].1@ != Poly::empty()
                    } by {
                        if i > p {
                            assert(r.0@[i] == self.0@[i - 1]);
                        } else if i < p {
                            assert(r.0@[i] == self.0@[i]);
                        }
                    }
                }
                r
            },
        }
    }
}

} // verus!

verus! {

proof fn lemma_mv_sum_empty(a: Blades)
    requires
        blades_wf(a),
    ensures
        mv_sum(a, Blades::empty()) == a,
{
    assert(mv_sum(a, Blades::empty()) =~= a);
}

proof fn lemma_mv_sum_step(a: Blades, b: Blades, k: Seq<usize>, p: Poly)
    requires
        blades_wf(a),
        !b.contains_key(k),
        p != Poly::empty(),
    ensures
        add_blade_term(mv_sum(a, b), k, p) == mv_sum(a, b.insert(k, p)),
{
    assert(add_blade_term(mv_sum(a, b), k, p) =~= mv_sum(a, b.insert(k, p)));
}

/// The contribution of one pair of terms to a product: the product of the
/// blades with the product of the coefficients, negated where the blade
/// product is negative; `None` where the blade product is zero (or fails).
pub open spec fn pair_term(basis: Basis, x: (Element, Symbols), y: (Element, Symbols)) -> Option<
    (Seq<usize>, Poly),
> {
    let p = poly_product(terms_seq(x.1.0@), terms_seq(y.1.0@));
    match product(basis, x.0@, y.0@) {
        Signed::Positive(b) => Some((b, p)),
        Signed::Negative(b) => Some((b, poly_neg(p))),
        _ => None,
    }
}

/// The contributions of term `x` with each term of `ys`.
pub open spec fn pair_row(basis: Basis, x: (Element, Symbols), ys: Seq<(Element, Symbols)>) -> Seq<
    Option<(Seq<usize>, Poly)>,
> {
    ys.map_values(|y: (Element, Symbols)| pair_term(basis, x, y))
}

/// The contributions of every pair of terms, row by row.
pub open spec fn pair_terms(
    basis: Basis,
    xs: Seq<(Element, Symbols)>,
    ys: Seq<(Element, Symbols)>,
) -> Seq<Option<(Seq<usize>, Poly)>>
    decreases xs.len(),
{
    if xs.len() == 0 {
        Seq::empty()
    } else {
        pair_terms(basis, xs.drop_last(), ys) + pair_row(basis, xs.last(), ys)
    }
}

/// `m` with the contributions `ts` added one after the other.
pub open spec fn add_blade_terms(m: Blades, ts: Seq<Option<(Seq<usize>, Poly)>>) -> Blades
    decreases ts.len(),
{
    if ts.len() == 0 {
        m
    } else {
        let prev = add_blade_terms(m, ts.drop_last());
        match ts.last() {
            Some(t) => add_blade_term(prev, t.0, t.1),
            None => prev,
        }
    }
}

/// The geometric product of two multivectors given by their terms.
pub open spec fn mv_product(basis: Basis, xs: Seq<(Element, Symbols)>, ys: Seq<(Element, Symbols)>) -> Blades {
    add_blade_terms(Blades::empty(), pair_terms(basis, xs, ys))
}

/// Some pair of blades has a product that meets a vector the basis does not
/// have.
pub open spec fn mv_fails(basis: Basis, xs: Seq<(Element, Symbols)>, ys: Seq<(Element, Symbols)>) -> bool {
    exists|i: int, j: int|
        0 <= i < xs.len() && 0 <= j < ys.len() && (#[trigger] product(basis, xs[i].0@, ys[j].0@)) is Fail
}

/// The exponents of every product of coefficients fit in a `usize`.
pub open spec fn coefficients_fit(a: Blades, b: Blades) -> bool {
    forall|p: Seq<usize>, q: Seq<usize>|
        a.contains_key(p) && b.contains_key(q) ==> #[trigger] products_fit(a[p], b[q])
}

impl MultiVector {
    /// The sum of two multivectors; blades whose coefficients cancel are
    /// dropped.
    pub fn add(self, rhs: MultiVector) -> (r: MultiVector)
        requires
            self.wf(),
            rhs.wf(),
        ensures
            r.wf(),
            r@ == mv_sum(self@, rhs@),
    {
        let ghost a = self@;
        let ghost ts = blade_terms(rhs.0@);
        proof {
            self.lemma_wf();
            rhs.lemma_wf();
            lemma_to_map(ts);
            lemma_mv_sum_empty(a);
            assert(ts.subrange(0, 0) =~= Seq::<(Seq<usize>, Poly)>::empty());
            assert(to_map(Seq::<(Seq<usize>, Poly)>::empty()) =~= Blades::empty());
        }
        let mut r = self;
        let mut j: usize = 0;
        while j < rhs.0.len()
            invariant
                0 <= j <= rhs.0@.len(),
                rhs.wf(),
                blades_wf(a),
                ts == blade_terms(rhs.0@),
                r.wf(),
                r@ == mv_sum(a, to_map(ts.subrange(0, j as int))),
            decreases rhs.0@.len() - j,
        {
            let e = Element(rhs.0[j].0.0.clone());
            let s = rhs.0[j].1.copy();
            proof {
                let pre = ts.subrange(0, j as int);
                assert(pre.insert(j as int, ts[j as int]) =~= ts.subrange(0, j + 1));
                assert forall|i: int| 0 <= i < pre.len() implies pre[i].0 != ts[j as int].0 by {
                    assert(ts[i].0 != ts[j as int].0);
                }
                lemma_to_map_insert(pre, j as int, ts[j as int].0, ts[j as int].1);
                lemma_to_map(pre);
                assert(!to_map(pre).contains_key(ts[j as int].0));
                lemma_mv_sum_step(a, to_map(pre), e@, s@);
            }
            r = r.add_blade(e, s);
            j = j + 1;
        }
        assert(ts.subrange(0, rhs.0@.len() as int) =~= ts);
        r
    }
}

} // verus!

verus! {

impl MultiVector {
    /// The geometric product: every pair of terms contributes the product of
    /// its blades with the product of its coefficients (negated for a
    /// negative blade product, nothing for a zero one), and the contributions
    /// are summed. Fails exactly when some pair of blades meets a vector that
    /// the basis does not have.
    pub fn multiply(&self, basis: &Basis, rhs: &MultiVector) -> (r: Result<MultiVector, BasisError>)
        requires
            self.wf(),
            rhs.wf(),
            coefficients_fit(self@, rhs@),
        ensures
            match r {
                Ok(m) => {
                    &&& m.wf()
                    &&& m@ == mv_product(*basis, self.0@, rhs.0@)
                    &&& !mv_fails(*basis, self.0@, rhs.0@)
                },
                Err(_) => mv_fails(*basis, self.0@, rhs.0@),
            },
    {
        let ghost xs = self.0@;
        let ghost ys = rhs.0@;
        proof {
            self.lemma_wf();
            rhs.lemma_wf();
            assert(xs.subrange(0, 0) =~= Seq::<(Element, Symbols)>::empty());
        }
        let mut result = MultiVector::zero();
        let mut i: usize = 0;
        while i < self.0.len()
            invariant
                0 <= i <= self.0@.len(),
                self.wf(),
                rhs.wf(),
                coefficients_fit(self@, rhs@),
                xs == self.0@,
                ys == rhs.0@,
                result.wf(),
                result@ == add_blade_terms(Blades::empty(), pair_terms(*basis, xs.subrange(0, i as int), ys)),
                forall|a: int, b: int|
                    0 <= a < i && 0 <= b < ys.len() ==> !(#[trigger] product(*basis, xs[a].0@, ys[b].0@) is Fail),
            decreases self.0@.len() - i,
        {
            let ghost pre = pair_terms(*basis, xs.subrange(0, i as int), ys);
            proof {
                assert(xs.subrange(0, i + 1).drop_last() =~= xs.subrange(0, i as int));
                assert(xs.subrange(0, i + 1).last() == xs[i as int]);
                assert(pair_row(*basis, xs[i as int], ys.subrange(0, 0)) =~= Seq::<Option<(Seq<usize>, Poly)>>::empty());
                assert(pre + pair_row(*basis, xs[i as int], ys.subrange(0, 0)) =~= pre);
            }
            let mut j: usize = 0;
            while j < rhs.0.len()
                invariant
                    0 <= i < self.0@.len(),
                    0 <= j <= rhs.0@.len(),
                    self.wf(),
                    rhs.wf(),
                    coefficients_fit(self@, rhs@),
                    xs == self.0@,
                    ys == rhs.0@,
                    result.wf(),
                    result@ == add_blade_terms(Blades::empty(), pre + pair_row(*basis, xs[i as int], ys.subrange(0, j as int))),
                    forall|a: int, b: int|
                        0 <= a < i && 0 <= b < ys.len() ==> !(#[trigger] product(*basis, xs[a].0@, ys[b].0@) is Fail),
                    forall|b: int| 0 <= b < j ==> !(#[trigger] product(*basis, xs[i as int].0@, ys[b].0@) is Fail),
                decreases rhs.0@.len() - j,
            {
                proof {
                    self.lemma_wf();
                    rhs.lemma_wf();
                    assert(self@.contains_key(xs[i as int].0@));
                    assert(rhs@.contains_key(ys[j as int].0@));
                    assert(products_fit(self@[xs[i as int].0@], rhs@[ys[j as int].0@]));
                }
                let sym = self.0[i].1.multiply(&rhs.0[j].1);
                let ghost s = pre + pair_row(*basis, xs[i as int], ys.subrange(0, j as int));
                let ghost s2 = pre + pair_row(*basis, xs[i as int], ys.subrange(0, j + 1));
                proof {
                    assert(s2.drop_last() =~= s);
                    assert(s2.last() == pair_term(*basis, xs[i as int], ys[j as int]));
                }
                match self.0[i].0.multiply(basis, &rhs.0[j].0) {
                    Err(e) => {
                        return Err(e);
                    },
                    Ok(SimplifiedElement::Zero) => {},
                    Ok(SimplifiedElement::Positive(es)) => {
                        result = result.add_blade(es, sym);
                    },
                    Ok(SimplifiedElement::Negative(es)) => {
                        let neg = sym.invert();
                        result = result.add_blade(es, neg);
                    },
                }
                j = j + 1;
            }
            proof {
                assert(ys.subrange(0, rhs.0@.len() as int) =~= ys);
            }
            i = i + 1;
        }
        assert(xs.subrange(0, self.0@.len() as int) =~= xs);
        Ok(result)
    }
}

} // verus!

verus! {

/// The multivector with every coefficient negated.
pub open spec fn mv_neg(m: Blades) -> Blades {
    Map::new(|k: Seq<usize>| m.contains_key(k), |k: Seq<usize>| poly_neg(m[k]))
}

proof fn lemma_rat_sum_commutative(p: (int, int), q: (int, int))
    ensures
        rat_sum(p, q) == rat_sum(q, p),
{
    assert(p.1 * q.1 == q.1 * p.1) by (nonlinear_arith);
}

proof fn lemma_poly_sum_commutative(a: Poly, b: Poly)
    ensures
        poly_sum(a, b) == poly_sum(b, a),
{
    assert forall|k: Monomial| a.contains_key(k) && b.contains_key(k) implies rat_sum(a[k], b[k])
        == rat_sum(b[k], a[k]) by {
        lemma_rat_sum_commutative(a[k], b[k]);
    }
    assert(poly_sum(a, b) =~= poly_sum(b, a));
}

proof fn lemma_poly_sum_neg(a: Poly)
    requires
        poly_wf(a),
    ensures
        poly_sum(a, poly_neg(a)) == Poly::empty(),
{
    assert forall|k: Monomial| a.contains_key(k) implies #[trigger] rat_sum(a[k], poly_neg(a)[k]).0 == 0 by {
        let c = a[k];
        assert(c.0 * c.1 + (-c.0) * c.1 == 0) by (nonlinear_arith);
        assert(c.1 * c.1 > 0) by (nonlinear_arith)
            requires
                c.1 > 0,
        ;
        let g = gcd(abs(0), (c.1 * c.1) as nat);
        assert(gcd(0, (c.1 * c.1) as nat) == (c.1 * c.1) as nat) by {
            assert(0nat % ((c.1 * c.1) as nat) == 0);
            assert(gcd((c.1 * c.1) as nat, 0) == (c.1 * c.1) as nat);
        }
        assert(0int / (c.1 * c.1) == 0);
    }
    assert(poly_sum(a, poly_neg(a)) =~= Poly::empty());
}

/// Adding multivectors does not depend on the order of the operands.
pub proof fn law_add_commutative(x: MultiVector, y: MultiVector)
    requires
        x.wf(),
        y.wf(),
    ensures
        mv_sum(x@, y@) == mv_sum(y@, x@),
{
    assert forall|k: Seq<usize>| x@.contains_key(k) && y@.contains_key(k) implies poly_sum(
        x@[k],
        y@[k],
    ) == poly_sum(y@[k], x@[k]) by {
        lemma_poly_sum_commutative(x@[k], y@[k]);
    }
    assert(mv_sum(x@, y@) =~= mv_sum(y@, x@));
}

/// The zero multivector (the empty map) is a two-sided identity of addition.
pub proof fn law_add_identity(x: MultiVector)
    requires
        x.wf(),
    ensures
        mv_sum(x@, Blades::empty()) == x@,
        mv_sum(Blades::empty(), x@) == x@,
{
    x.lemma_wf();
    assert(mv_sum(x@, Blades::empty()) =~= x@);
    assert(mv_sum(Blades::empty(), x@) =~= x@);
}

/// A multivector plus the same multivector with every coefficient inverted
/// is the zero multivector.
pub proof fn law_add_inverse(x: MultiVector)
    requires
        x.wf(),
    ensures
        mv_sum(x@, mv_neg(x@)) == Blades::empty(),
{
    x.lemma_wf();
    assert forall|k: Seq<usize>| x@.contains_key(k) implies #[trigger] poly_sum(x@[k], mv_neg(x@)[k])
        == Poly::empty() by {
        lemma_poly_sum_neg(x@[k]);
    }
    assert(mv_sum(x@, mv_neg(x@)) =~= Blades::empty());
}

} // verus!

verus! {

/// The coefficient of blade `k` in `m`; the zero polynomial where `m` has
/// no such term.
pub open spec fn blade_coef(m: Blades, k: Seq<usize>) -> Poly {
    if m.contains_key(k) {
        m[k]
    } else {
        Poly::empty()
    }
}

proof fn lemma_mv_sum_coef(a: Blades, b: Blades)
    requires
        blades_wf(a),
        blades_wf(b),
    ensures
        blades_wf(mv_sum(a, b)),
        forall|k: Seq<usize>| #[trigger] blade_coef(mv_sum(a, b), k) == poly_sum(blade_coef(a, k), blade_coef(b, k)),
{
    assert(poly_wf(Poly::empty()));
    assert(poly_sum(Poly::empty(), Poly::empty()) =~= Poly::empty());
    assert forall|k: Seq<usize>| #[trigger] mv_sum(a, b).contains_key(k) implies poly_wf(mv_sum(a, b)[k]) by {
        if a.contains_key(k) && b.contains_key(k) {
            lemma_poly_sum_coef(a[k], b[k]);
        }
    }
    assert forall|k: Seq<usize>| #[trigger] blade_coef(mv_sum(a, b), k) == poly_sum(blade_coef(a, k), blade_coef(b, k)) by {
        if a.contains_key(k) {
            lemma_poly_sum_empty(a[k]);
        }
        if b.contains_key(k) {
            lemma_poly_sum_empty(b[k]);
            lemma_poly_sum_commutative(Poly::empty(), b[k]);
        }
    }
}

proof fn lemma_blades_ext(m1: Blades, m2: Blades)
    requires
        blades_wf(m1),
        blades_wf(m2),
        forall|k: Seq<usize>| #[trigger] blade_coef(m1, k) == blade_coef(m2, k),
    ensures
        m1 == m2,
{
    assert forall|k: Seq<usize>| m1.contains_key(k) <==> m2.contains_key(k) by {
        assert(blade_coef(m1, k) == blade_coef(m2, k));
    }
    assert forall|k: Seq<usize>| m1.contains_key(k) implies m1[k] == m2[k] by {
        assert(blade_coef(m1, k) == blade_coef(m2, k));
    }
    assert(m1 =~= m2);
}

/// Adding multivectors is associative.
pub proof fn law_add_associative(x: MultiVector, y: MultiVector, z: MultiVector)
    requires
        x.wf(),
        y.wf(),
        z.wf(),
    ensures
        mv_sum(mv_sum(x@, y@), z@) == mv_sum(x@, mv_sum(y@, z@)),
{
    x.lemma_wf();
    y.lemma_wf();
    z.lemma_wf();
    let (a, b, c) = (x@, y@, z@);
    lemma_mv_sum_coef(a, b);
    lemma_mv_sum_coef(b, c);
    lemma_mv_sum_coef(mv_sum(a, b), c);
    lemma_mv_sum_coef(a, mv_sum(b, c));
    assert forall|k: Seq<usize>| #[trigger] blade_coef(mv_sum(mv_sum(a, b), c), k) == blade_coef(
        mv_sum(a, mv_sum(b, c)),
        k,
    ) by {
        assert(poly_wf(Poly::empty()));
        assert(poly_wf(blade_coef(a, k)) && poly_wf(blade_coef(b, k)) && poly_wf(blade_coef(c, k)));
        lemma_poly_sum_associative(blade_coef(a, k), blade_coef(b, k), blade_coef(c, k));
        assert(blade_coef(mv_sum(a, b), k) == poly_sum(blade_coef(a, k), blade_coef(b, k)));
        assert(blade_coef(mv_sum(b, c), k) == poly_sum(blade_coef(b, k), blade_coef(c, k)));
    }
    lemma_blades_ext(mv_sum(mv_sum(a, b), c), mv_sum(a, mv_sum(b, c)));
}

} // verus!
