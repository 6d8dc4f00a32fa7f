use vstd::prelude::*;

use crate::assoc::{
    keys_unique, lemma_to_map, lemma_to_map_insert, lemma_to_map_remove, lemma_to_map_update,
    to_map,
};
use crate::rational::{
    abs, gcd, is_lowest, lemma_gcd_one, lemma_lowest, lemma_lowest_zero, lemma_rat_sum_associative,
    lemma_rat_sum_zero, lift_integer, rat_product, rat_sum, rational_add, rational_is_zero,
    rational_mul, Rational,
};

verus! {

/// The name of an indeterminate.
pub type Symbol = String;

/// One monomial: each symbol that occurs in it with its (positive) exponent.
/// The empty list is the monomial 1.
#[derive(Debug, Clone, PartialEq, Eq)]
pub struct SymbolPowers(pub Vec<(Symbol, usize)>);

/// Exponents of a monomial, as (name, exponent) pairs.
pub open spec fn powers_seq(s: Seq<(Symbol, usize)>) -> Seq<(Seq<char>, nat)> {
    s.map_values(|p: (Symbol, usize)| (p.0@, p.1 as nat))
}

impl View for SymbolPowers {
    type V = Map<Seq<char>, nat>;

    /// Each symbol of the monomial, mapped to its exponent.
    open spec fn view(&self) -> Map<Seq<char>, nat> {
        to_map(powers_seq(self.0@))
    }
}

/// The product of two monomials: exponents of shared symbols add up.
pub open spec fn powers_product(p: Map<Seq<char>, nat>, q: Map<Seq<char>, nat>) -> Map<
    Seq<char>,
    nat,
> {
    Map::new(
        |k: Seq<char>| p.contains_key(k) || q.contains_key(k),
        |k: Seq<char>|
            (if p.contains_key(k) {
                p[k]
            } else {
                0
            }) + (if q.contains_key(k) {
                q[k]
            } else {
                0
            }),
    )
}

/// The exponents of the product of two monomials fit in a `usize`.
pub open spec fn powers_fit(p: Map<Seq<char>, nat>, q: Map<Seq<char>, nat>) -> bool {
    forall|k: Seq<char>|
        p.contains_key(k) && q.contains_key(k) ==> p[k] + q[k] <= usize::MAX
}

impl SymbolPowers {
    /// Each symbol occurs once, with a positive exponent.
    pub open spec fn wf(&self) -> bool {
        &&& keys_unique(powers_seq(self.0@))
        &&& forall|i: int| 0 <= i < self.0@.len() ==> self.0@[i].1 > 0
    }

    /// The monomial 1.
    pub fn one() -> (r: SymbolPowers)
        ensures
            r.wf(),
            r@ == Map::<Seq<char>, nat>::empty(),
    {
        let r = SymbolPowers(Vec::new());
        assert(r@ =~= Map::<Seq<char>, nat>::empty());
        r
    }

    /// A copy with the same symbols and exponents.
    pub fn copy(&self) -> (r: SymbolPowers)
        ensures
            r.0@.len() == self.0@.len(),
            powers_seq(r.0@) == powers_seq(self.0@),
            r@ == self@,
            self.wf() ==> r.wf(),
    {
        let mut v: Vec<(Symbol, usize)> = Vec::new();
        let mut i: usize = 0;
        while i < self.0.len()
            invariant
                0 <= i <= self.0@.len(),
                v@.len() == i,
                forall|j: int| 0 <= j < i ==> (#[trigger] v@[j]).0@ == self.0@[j].0@ && v@[j].1 == self.0@[j].1,
            decreases self.0@.len() - i,
        {
            let name = self.0[i].0.clone();
            v.push((name, self.0[i].1));
            i = i + 1;
        }
        let r = SymbolPowers(v);
        assert(powers_seq(r.0@) =~= powers_seq(self.0@));
        r
    }
}

/// Whether the characters of `a` come before those of `b` in lexicographic
/// order; this fixes the order in which monomials list their symbols.
fn name_less(a: &Symbol, b: &Symbol) -> bool {
    let sa = a.as_str();
    let sb = b.as_str();
    let la = sa.unicode_len();
    let lb = sb.unicode_len();
    let mut i: usize = 0;
    while i < la && i < lb
        invariant
            la == sa@.len(),
            lb == sb@.len(),
        decreases la - i,
    {
        let ca = sa.get_char(i);
        let cb = sb.get_char(i);
        if ca != cb {
            return ca < cb;
        }
        i = i + 1;
    }
    la < lb
}

/// The position of the entry named `name`, if any.
fn find_name(v: &Vec<(Symbol, usize)>, name: &Symbol) -> (r: Option<usize>)
    ensures
        match r {
            Some(k) => k < v@.len() && v@[k as int].0@ == name@,
            None => forall|i: int| 0 <= i < v@.len() ==> (#[trigger] v@[i]).0@ != name@,
        },
{
    let mut k: usize = 0;
    while k < v.len()
        invariant
            0 <= k <= v@.len(),
            forall|i: int| 0 <= i < k ==> (#[trigger] v@[i]).0@ != name@,
        decreases v@.len() - k,
    {
        if v[k].0 == *name {
            return Some(k);
        }
        k = k + 1;
    }
    None
}

/// The product of two monomials: the exponents of a symbol that both hold
/// are added, the other symbols are kept as they are.
pub fn multiply_symbol_powers(lhs: &SymbolPowers, rhs: &SymbolPowers) -> (r: SymbolPowers)
    requires
        lhs.wf(),
        rhs.wf(),
        powers_fit(lhs@, rhs@),
    ensures
        r.wf(),
        r@ == powers_product(lhs@, rhs@),
{
    let mut r = lhs.copy();
    let ghost rs = powers_seq(rhs.0@);
    proof {
        lemma_to_map(powers_seq(lhs.0@));
        lemma_to_map(rs);
        assert(rs.subrange(0, 0) =~= Seq::<(Seq<char>, nat)>::empty());
        assert(powers_product(lhs@, to_map(rs.subrange(0, 0))) =~= lhs@);
    }
    let mut j: usize = 0;
    while j < rhs.0.len()
        invariant
            0 <= j <= rhs.0@.len(),
            lhs.wf(),
            rhs.wf(),
            powers_fit(lhs@, rhs@),
            rs == powers_seq(rhs.0@),
            r.wf(),
            r@ == powers_product(lhs@, to_map(rs.subrange(0, j as int))),
        decreases rhs.0@.len() - j,
    {
        let ghost before = r@;
        let ghost part = to_map(rs.subrange(0, j as int));
        let name = &rhs.0[j].0;
        let exp = rhs.0[j].1;
        let ghost key = name@;
        proof {
            assert(rs.subrange(0, j as int).insert(j as int, rs[j as int]) =~= rs.subrange(0, j + 1));
            assert forall|i: int| 0 <= i < rs.subrange(0, j as int).len() implies rs.subrange(0, j as int)[i].0 != key by {
                assert(rs[i].0 != rs[j as int].0);
            }
            lemma_to_map_insert(rs.subrange(0, j as int), j as int, key, exp as nat);
            lemma_to_map(rs.subrange(0, j as int));
            lemma_to_map(rs);
            assert(rs[j as int] == (key, exp as nat));
            assert(rhs@.contains_key(key) && rhs@[key] == exp);
            assert(!part.contains_key(key));
        }
        let found_at = find_name(&r.0, name);
        let ghost old_seq = powers_seq(r.0@);
        proof {
            lemma_to_map(old_seq);
        }
        if let Some(k) = found_at {
            let ghost idx = k as int;
            assert(old_seq[idx].0 == key);
            assert(r@[key] == old_seq[idx].1);
            assert(lhs@.contains_key(key));
            let total = r.0[k].1 + exp;
            let entry = (name.clone(), total);
            r.0.set(k, entry);
            proof {
                assert(powers_seq(r.0@) =~= old_seq.update(idx, (old_seq[idx].0, total as nat)));
                lemma_to_map_update(old_seq, idx, total as nat);
            }
        } else {
            let mut p: usize = 0;
            while p < r.0.len() && name_less(&r.0[p].0, name)
                invariant
                    0 <= p <= r.0@.len(),
                decreases r.0@.len() - p,
            {
                p = p + 1;
            }
            r.0.insert(p, (name.clone(), exp));
            proof {
                assert(powers_seq(r.0@) =~= old_seq.insert(p as int, (key, exp as nat)));
                assert forall|i: int| 0 <= i < old_seq.len() implies old_seq[i].0 != key by {
                    assert(old_seq[i].0 == r.0@[if i < p { i } else { i + 1 }].0@);
                }
                lemma_to_map_insert(old_seq, p as int, key, exp as nat);
                assert(!to_map(old_seq).contains_key(key));
                assert(!before.contains_key(key));
                assert(!lhs@.contains_key(key));
            }
        }
        proof {
            assert(r@ =~= powers_product(lhs@, to_map(rs.subrange(0, j + 1))));
        }
        j = j + 1;
    }
    assert(rs.subrange(0, rhs.0@.len() as int) =~= rs);
    r
}

} // verus!

verus! {

impl SymbolPowers {
    /// The monomial `name^exp` (the monomial 1 when `exp` is zero).
    pub fn symbol(name: Symbol, exp: usize) -> (r: SymbolPowers)
        ensures
            r.wf(),
            r@ == (if exp == 0 {
                Map::<Seq<char>, nat>::empty()
            } else {
                Map::<Seq<char>, nat>::empty().insert(name@, exp as nat)
            }),
    {
        if exp == 0 {
            return SymbolPowers::one();
        }
        let ghost key = name@;
        let mut v: Vec<(Symbol, usize)> = Vec::new();
        v.push((name, exp));
        let r = SymbolPowers(v);
        proof {
            assert(powers_seq(r.0@) =~= Seq::<(Seq<char>, nat)>::empty().insert(0, (key, exp as nat)));
            lemma_to_map_insert(Seq::<(Seq<char>, nat)>::empty(), 0, key, exp as nat);
            assert(to_map(Seq::<(Seq<char>, nat)>::empty()) =~= Map::<Seq<char>, nat>::empty());
        }
        r
    }

    /// Whether two monomials have the same symbols with the same exponents.
    pub fn same_as(&self, other: &SymbolPowers) -> (r: bool)
        requires
            self.wf(),
            other.wf(),
        ensures
            r == (self@ == other@),
    {
        let r = self.covered_by(other) && other.covered_by(self);
        proof {
            lemma_to_map(powers_seq(self.0@));
            lemma_to_map(powers_seq(other.0@));
            if r {
                assert(self@ =~= other@);
            }
        }
        r
    }

    /// Whether every (symbol, exponent) entry of `self` is one of `other`.
    fn covered_by(&self, other: &SymbolPowers) -> (r: bool)
        requires
            self.wf(),
            other.wf(),
        ensures
            r == forall|k: Seq<char>| #[trigger]
                self@.contains_key(k) ==> other@.contains_key(k) && other@[k] == self@[k],
    {
        proof {
            lemma_to_map(powers_seq(self.0@));
            lemma_to_map(powers_seq(other.0@));
        }
        let mut i: usize = 0;
        while i < self.0.len()
            invariant
                0 <= i <= self.0@.len(),
                self.wf(),
                other.wf(),
                forall|j: int|
                    0 <= j < i ==> other@.contains_key(#[trigger] self.0@[j].0@) && other@[self.0@[j].0@]
                        == self.0@[j].1,
            decreases self.0@.len() - i,
        {
            proof {
                lemma_to_map(powers_seq(self.0@));
                lemma_to_map(powers_seq(other.0@));
                assert(powers_seq(self.0@)[i as int].0 == self.0@[i as int].0@);
                assert(self@[self.0@[i as int].0@] == self.0@[i as int].1);
                assert(self@.contains_key(self.0@[i as int].0@));
            }
            match find_name(&other.0, &self.0[i].0) {
                None => {
                    proof {
                        assert(!other@.contains_key(self.0@[i as int].0@)) by {
                            if other@.contains_key(self.0@[i as int].0@) {
                                let j = choose|j: int|
                                    0 <= j < powers_seq(other.0@).len() && powers_seq(other.0@)[j].0
                                        == self.0@[i as int].0@;
                                assert(other.0@[j].0@ == self.0@[i as int].0@);
                            }
                        }
                    }
                    return false;
                },
                Some(k) => {
                    proof {
                        assert(powers_seq(other.0@)[k as int].0 == other.0@[k as int].0@);
                        assert(other@[other.0@[k as int].0@] == other.0@[k as int].1);
                    }
                    if other.0[k].1 != self.0[i].1 {
                        assert(!(other@.contains_key(self.0@[i as int].0@) && other@[self.0@[i as int].0@] == self@[self.0@[i as int].0@]));
                        return false;
                    }
                },
            }
            i = i + 1;
        }
        proof {
            assert forall|k: Seq<char>| #[trigger]
                self@.contains_key(k) implies other@.contains_key(k) && other@[k] == self@[k] by {
                let j = choose|j: int|
                    0 <= j < powers_seq(self.0@).len() && powers_seq(self.0@)[j].0 == k;
                assert(self.0@[j].0@ == k);
            }
        }
        true
    }
}

} // verus!

verus! {

/// A monomial as a value: each symbol with its exponent.
pub type Monomial = Map<Seq<char>, nat>;

/// A polynomial as a value: each monomial with its coefficient, a fraction
/// `(numerator, denominator)`.
pub type Poly = Map<Monomial, (int, int)>;

/// A polynomial in named symbols with exact rational coefficients. The
/// empty list is the zero polynomial.
#[derive(Debug, Clone, PartialEq)]
pub struct Symbols(pub Vec<(SymbolPowers, Rational)>);

/// The terms of a polynomial, as values.
pub open spec fn terms_seq(s: Seq<(SymbolPowers, Rational)>) -> Seq<(Monomial, (int, int))> {
    s.map_values(|t: (SymbolPowers, Rational)| (t.0@, t.1@))
}

impl View for Symbols {
    type V = Poly;

    open spec fn view(&self) -> Poly {
        to_map(terms_seq(self.0@))
    }
}

/// `m` with `c * k` added: the coefficients of `k` are summed, and a
/// monomial whose coefficient becomes zero is dropped.
pub open spec fn add_term(m: Poly, k: Monomial, c: (int, int)) -> Poly {
    let s = if m.contains_key(k) {
        rat_sum(m[k], c)
    } else {
        c
    };
    if s.0 == 0 {
        m.remove(k)
    } else {
        m.insert(k, s)
    }
}

/// Every coefficient is nonzero, in lowest terms.
pub open spec fn poly_wf(m: Poly) -> bool {
    forall|k: Monomial| #[trigger] m.contains_key(k) ==> is_lowest(m[k]) && m[k].0 != 0
}

/// Whether the monomial `a` comes before `b`: by their (symbol, exponent)
/// entries in turn, a prefix first. This fixes the order of the terms of a
/// polynomial.
fn powers_less(a: &SymbolPowers, b: &SymbolPowers) -> bool {
    let mut i: usize = 0;
    while i < a.0.len() && i < b.0.len()
        decreases a.0@.len() - i,
    {
        if a.0[i].0 != b.0[i].0 {
            return name_less(&a.0[i].0, &b.0[i].0);
        }
        if a.0[i].1 != b.0[i].1 {
            return a.0[i].1 < b.0[i].1;
        }
        i = i + 1;
    }
    a.0.len() < b.0.len()
}

/// The position of the term whose monomial is `p`, if any.
fn find_powers(v: &Vec<(SymbolPowers, Rational)>, p: &SymbolPowers) -> (r: Option<usize>)
    requires
        p.wf(),
        forall|i: int| 0 <= i < v@.len() ==> (#[trigger] v@[i]).0.wf(),
    ensures
        match r {
            Some(k) => k < v@.len() && v@[k as int].0@ == p@,
            None => forall|i: int| 0 <= i < v@.len() ==> (#[trigger] v@[i]).0@ != p@,
        },
{
    let mut k: usize = 0;
    while k < v.len()
        invariant
            0 <= k <= v@.len(),
            p.wf(),
            forall|i: int| 0 <= i < v@.len() ==> (#[trigger] v@[i]).0.wf(),
            forall|i: int| 0 <= i < k ==> (#[trigger] v@[i]).0@ != p@,
        decreases v@.len() - k,
    {
        if v[k].0.same_as(p) {
            return Some(k);
        }
        k = k + 1;
    }
    None
}

impl Symbols {
    /// Distinct monomials, each in canonical form, with nonzero coefficients
    /// in lowest terms.
    pub open spec fn wf(&self) -> bool {
        &&& keys_unique(terms_seq(self.0@))
        &&& forall|i: int|
            0 <= i < self.0@.len() ==> {
                &&& (#[trigger] self.0@[i]).0.wf()
                &&& self.0@[i].1.wf()
                &&& self.0@[i].1@.0 != 0
            }
    }

    /// The zero polynomial.
    pub fn zero() -> (r: Symbols)
        ensures
            r.wf(),
            r@ == Poly::empty(),
    {
        let r = Symbols(Vec::new());
        assert(r@ =~= Poly::empty());
        r
    }

    /// The value of a well-formed polynomial has nonzero coefficients in
    /// lowest terms.
    pub proof fn lemma_wf(&self)
        requires
            self.wf(),
        ensures
            poly_wf(self@),
            forall|i: int| 0 <= i < self.0@.len() ==> #[trigger] self@[self.0@[i].0@] == self.0@[i].1@,
            forall|k: Monomial|
                #[trigger] self@.contains_key(k) <==> exists|i: int|
                    0 <= i < self.0@.len() && self.0@[i].0@ == k,
    {
        let ts = terms_seq(self.0@);
        lemma_to_map(ts);
        assert forall|i: int| 0 <= i < self.0@.len() implies #[trigger] self@[self.0@[i].0@] == self.0@[i].1@ by {
            assert(ts[i].0 == self.0@[i].0@);
        }
        assert forall|k: Monomial|
            #[trigger] self@.contains_key(k) <==> exists|i: int|
                0 <= i < self.0@.len() && self.0@[i].0@ == k by {
            if self@.contains_key(k) {
                let j = choose|j: int| 0 <= j < ts.len() && ts[j].0 == k;
                assert(self.0@[j].0@ == k);
            }
            if exists|i: int| 0 <= i < self.0@.len() && self.0@[i].0@ == k {
                let j = choose|i: int| 0 <= i < self.0@.len() && self.0@[i].0@ == k;
                assert(ts[j].0 == k);
            }
        }
        assert forall|k: Monomial| #[trigger] self@.contains_key(k) implies is_lowest(self@[k])
            && self@[k].0 != 0 by {
            let j = choose|i: int| 0 <= i < self.0@.len() && self.0@[i].0@ == k;
            assert(self@[self.0@[j].0@] == self.0@[j].1@);
        }
    }

    /// Adds the term `scale * power`: merged into the term of the same
    /// monomial if there is one, and dropped when the sum is zero.
    pub fn add_scaled_power(self, scale: Rational, power: SymbolPowers) -> (r: Symbols)
        requires
            self.wf(),
            scale.wf(),
            power.wf(),
        ensures
            r.wf(),
            r@ == add_term(self@, power@, scale@),
    {
        proof {
            self.lemma_wf();
        }
        let ghost old_terms = terms_seq(self.0@);
        let ghost key = power@;
        let mut v = self.0;
        match find_powers(&v, &power) {
            Some(k) => {
                let sum = rational_add(&v[k].1, &scale);
                proof {
                    assert(old_terms[k as int].0 == key);
                    assert(self@[key] == v@[k as int].1@);
                }
                if rational_is_zero(&sum) {
                    v.remove(k);
                    proof {
                        assert(terms_seq(v@) =~= old_terms.remove(k as int));
                        lemma_to_map_remove(old_terms, k as int);
                    }
                } else {
                    v.set(k, (power, sum));
                    proof {
                        assert(terms_seq(v@) =~= old_terms.update(k as int, (old_terms[k as int].0, sum@)));
                        lemma_to_map_update(old_terms, k as int, sum@);
                    }
                }
                let r = Symbols(v);
                r
            },
            None => {
                proof {
                    assert(!self@.contains_key(key));
                }
                if rational_is_zero(&scale) {
                    assert(self@.remove(key) =~= self@);
                    return Symbols(v);
                }
                let mut p: usize = 0;
                while p < v.len() && powers_less(&v[p].0, &power)
                    invariant
                        0 <= p <= v@.len(),
                    decreases v@.len() - p,
                {
                    p = p + 1;
                }
                v.insert(p, (power, scale));
                proof {
                    assert(terms_seq(v@) =~= old_terms.insert(p as int, (key, scale@)));
                    assert forall|i: int| 0 <= i < old_terms.len() implies old_terms[i].0 != key by {
                        assert(old_terms[i].0 == self.0@[i].0@);
                    }
                    lemma_to_map_insert(old_terms, p as int, key, scale@);
                }
                let r = Symbols(v);
                proof {
                    assert forall|i: int| 0 <= i < r.0@.len() implies {
                        &&& (#[trigger] r.0@[i]).0.wf()
                        &&& r.0@[i].1.wf()
                        &&& r.0@[i].1@.0 != 0
                    } by {
                        if i > p {
                            assert(r.0@[i] == self.0@[i - 1]);
                        } else if i < p {
                            assert(r.0@[i] == self.0@[i]);
                        }
                    }
                }
                r
            },
        }
    }
}

} // verus!

verus! {

/// The coefficient of `k` in `a + b`, before zero coefficients are dropped.
pub open spec fn combined(a: Poly, b: Poly, k: Monomial) -> (int, int) {
    if a.contains_key(k) && b.contains_key(k) {
        rat_sum(a[k], b[k])
    } else if a.contains_key(k) {
        a[k]
    } else {
        b[k]
    }
}

/// The sum of two polynomials: coefficients of the same monomial are added,
/// and monomials whose coefficients cancel are dropped.
pub open spec fn poly_sum(a: Poly, b: Poly) -> Poly {
    Map::new(
        |k: Monomial| (a.contains_key(k) || b.contains_key(k)) && combined(a, b, k).0 != 0,
        |k: Monomial| combined(a, b, k),
    )
}

/// The product of two terms.
pub open spec fn term_product(x: (Monomial, (int, int)), y: (Monomial, (int, int))) -> (
    Monomial,
    (int, int),
) {
    (powers_product(x.0, y.0), rat_product(x.1, y.1))
}

/// The products of term `x` with each term of `ys`.
pub open spec fn row(x: (Monomial, (int, int)), ys: Seq<(Monomial, (int, int))>) -> Seq<
    (Monomial, (int, int)),
> {
    ys.map_values(|y: (Monomial, (int, int))| term_product(x, y))
}

/// The products of every term of `xs` with every term of `ys`, row by row.
pub open spec fn pair_products(
    xs: Seq<(Monomial, (int, int))>,
    ys: Seq<(Monomial, (int, int))>,
) -> Seq<(Monomial, (int, int))>
    decreases xs.len(),
{
    if xs.len() == 0 {
        Seq::empty()
    } else {
        pair_products(xs.drop_last(), ys) + row(xs.last(), ys)
    }
}

/// `m` with the terms `ts` added one after the other.
pub open spec fn add_terms(m: Poly, ts: Seq<(Monomial, (int, int))>) -> Poly
    decreases ts.len(),
{
    if ts.len() == 0 {
        m
    } else {
        let t = ts.last();
        add_term(add_terms(m, ts.drop_last()), t.0, t.1)
    }
}

/// The product of two polynomials given by their terms: the sum of the
/// products of all pairs of terms.
pub open spec fn poly_product(
    xs: Seq<(Monomial, (int, int))>,
    ys: Seq<(Monomial, (int, int))>,
) -> Poly {
    add_terms(Poly::empty(), pair_products(xs, ys))
}

/// The polynomial with every coefficient negated.
pub open spec fn poly_neg(a: Poly) -> Poly {
    Map::new(|k: Monomial| a.contains_key(k), |k: Monomial| (-a[k].0, a[k].1))
}

/// The exponents of every product of a monomial of `a` with one of `b` fit
/// in a `usize`.
pub open spec fn products_fit(a: Poly, b: Poly) -> bool {
    forall|p: Monomial, q: Monomial|
        a.contains_key(p) && b.contains_key(q) ==> #[trigger] powers_fit(p, q)
}

pub proof fn lemma_poly_sum_empty(a: Poly)
    requires
        poly_wf(a),
    ensures
        poly_sum(a, Poly::empty()) == a,
{
    assert(poly_sum(a, Poly::empty()) =~= a);
}

proof fn lemma_poly_sum_step(a: Poly, b: Poly, k: Monomial, c: (int, int))
    requires
        poly_wf(a),
        !b.contains_key(k),
        c.0 != 0,
    ensures
        add_term(poly_sum(a, b), k, c) == poly_sum(a, b.insert(k, c)),
{
    assert(add_term(poly_sum(a, b), k, c) =~= poly_sum(a, b.insert(k, c)));
}

impl Symbols {
    /// A copy with the same terms.
    pub fn copy(&self) -> (r: Symbols)
        requires
            self.wf(),
        ensures
            r.wf(),
            r@ == self@,
            terms_seq(r.0@) == terms_seq(self.0@),
    {
        let mut v: Vec<(SymbolPowers, Rational)> = Vec::new();
        let mut i: usize = 0;
        while i < self.0.len()
            invariant
                0 <= i <= self.0@.len(),
                self.wf(),
                v@.len() == i,
                forall|j: int|
                    0 <= j < i ==> {
                        &&& (#[trigger] v@[j]).0@ == self.0@[j].0@
                        &&& v@[j].0.wf()
                        &&& v@[j].1@ == self.0@[j].1@
                    },
            decreases self.0@.len() - i,
        {
            let m = self.0[i].0.copy();
            let c = self.0[i].1.copy();
            v.push((m, c));
            i = i + 1;
        }
        let r = Symbols(v);
        assert(terms_seq(r.0@) =~= terms_seq(self.0@));
        r
    }

    /// The sum of two polynomials; terms that cancel are dropped.
    pub fn add(self, rhs: Symbols) -> (r: Symbols)
        requires
            self.wf(),
            rhs.wf(),
        ensures
            r.wf(),
            r@ == poly_sum(self@, rhs@),
    {
        let ghost a = self@;
        let ghost ts = terms_seq(rhs.0@);
        proof {
            self.lemma_wf();
            rhs.lemma_wf();
            lemma_to_map(ts);
            lemma_poly_sum_empty(a);
            assert(ts.subrange(0, 0) =~= Seq::<(Monomial, (int, int))>::empty());
            assert(to_map(Seq::<(Monomial, (int, int))>::empty()) =~= Poly::empty());
        }
        let mut r = self;
        let mut j: usize = 0;
        while j < rhs.0.len()
            invariant
                0 <= j <= rhs.0@.len(),
                rhs.wf(),
                poly_wf(a),
                ts == terms_seq(rhs.0@),
                r.wf(),
                r@ == poly_sum(a, to_map(ts.subrange(0, j as int))),
            decreases rhs.0@.len() - j,
        {
            let m = rhs.0[j].0.copy();
            let c = rhs.0[j].1.copy();
            proof {
                let pre = ts.subrange(0, j as int);
                assert(pre.insert(j as int, ts[j as int]) =~= ts.subrange(0, j + 1));
                assert forall|i: int| 0 <= i < pre.len() implies pre[i].0 != ts[j as int].0 by {
                    assert(ts[i].0 != ts[j as int].0);
                }
                lemma_to_map_insert(pre, j as int, ts[j as int].0, ts[j as int].1);
                lemma_to_map(pre);
                assert(!to_map(pre).contains_key(ts[j as int].0));
                lemma_poly_sum_step(a, to_map(pre), m@, c@);
            }
            r = r.add_scaled_power(c, m);
            j = j + 1;
        }
        assert(ts.subrange(0, rhs.0@.len() as int) =~= ts);
        r
    }
}

} // verus!

verus! {

impl Symbols {
    /// The product of two polynomials: every pair of terms is multiplied
    /// (coefficients multiplied, exponents merged) and the products are
    /// summed, dropping terms that cancel.
    pub fn multiply(&self, rhs: &Symbols) -> (r: Symbols)
        requires
            self.wf(),
            rhs.wf(),
            products_fit(self@, rhs@),
        ensures
            r.wf(),
            r@ == poly_product(terms_seq(self.0@), terms_seq(rhs.0@)),
    {
        let ghost xs = terms_seq(self.0@);
        let ghost ys = terms_seq(rhs.0@);
        proof {
            self.lemma_wf();
            rhs.lemma_wf();
            assert(xs.subrange(0, 0) =~= Seq::<(Monomial, (int, int))>::empty());
        }
        let mut r = Symbols::zero();
        let mut i: usize = 0;
        while i < self.0.len()
            invariant
                0 <= i <= self.0@.len(),
                self.wf(),
                rhs.wf(),
                products_fit(self@, rhs@),
                xs == terms_seq(self.0@),
                ys == terms_seq(rhs.0@),
                r.wf(),
                r@ == add_terms(Poly::empty(), pair_products(xs.subrange(0, i as int), ys)),
            decreases self.0@.len() - i,
        {
            let ghost pre = pair_products(xs.subrange(0, i as int), ys);
            proof {
                assert(xs.subrange(0, i + 1).drop_last() =~= xs.subrange(0, i as int));
                assert(xs.subrange(0, i + 1).last() == xs[i as int]);
                assert(ys.subrange(0, 0) =~= Seq::<(Monomial, (int, int))>::empty());
                assert(row(xs[i as int], ys.subrange(0, 0)) =~= Seq::<(Monomial, (int, int))>::empty());
                assert(pre + row(xs[i as int], ys.subrange(0, 0)) =~= pre);
            }
            let mut j: usize = 0;
            while j < rhs.0.len()
                invariant
                    0 <= i < self.0@.len(),
                    0 <= j <= rhs.0@.len(),
                    self.wf(),
                    rhs.wf(),
                    products_fit(self@, rhs@),
                    xs == terms_seq(self.0@),
                    ys == terms_seq(rhs.0@),
                    r.wf(),
                    r@ == add_terms(Poly::empty(), pre + row(xs[i as int], ys.subrange(0, j as int))),
                decreases rhs.0@.len() - j,
            {
                proof {
                    self.lemma_wf();
                    rhs.lemma_wf();
                    assert(self@.contains_key(self.0@[i as int].0@));
                    assert(rhs@.contains_key(rhs.0@[j as int].0@));
                    assert(powers_fit(self.0@[i as int].0@, rhs.0@[j as int].0@));
                }
                let m = multiply_symbol_powers(&self.0[i].0, &rhs.0[j].0);
                let c = rational_mul(&self.0[i].1, &rhs.0[j].1);
                proof {
                    let s = pre + row(xs[i as int], ys.subrange(0, j as int));
                    let s2 = pre + row(xs[i as int], ys.subrange(0, j + 1));
                    assert(s2.drop_last() =~= s);
                    assert(s2.last() == term_product(xs[i as int], ys[j as int]));
                    assert(s2.last() == (m@, c@));
                }
                r = r.add_scaled_power(c, m);
                j = j + 1;
            }
            proof {
                assert(ys.subrange(0, rhs.0@.len() as int) =~= ys);
            }
            i = i + 1;
        }
        assert(xs.subrange(0, self.0@.len() as int) =~= xs);
        r
    }
}

} // verus!

verus! {

/// The scalar polynomial -1, as terms.
pub open spec fn minus_one_terms() -> Seq<(Monomial, (int, int))> {
    seq![(Monomial::empty(), (-1int, 1int))]
}

/// Multiplying by -1 negates every coefficient.
proof fn lemma_times_minus_one(xs: Seq<(Monomial, (int, int))>)
    requires
        keys_unique(xs),
        forall|i: int| 0 <= i < xs.len() ==> is_lowest(#[trigger] xs[i].1) && xs[i].1.0 != 0,
    ensures
        poly_product(xs, minus_one_terms()) == poly_neg(to_map(xs)),
    decreases xs.len(),
{
    if xs.len() == 0 {
        assert(pair_products(xs, minus_one_terms()) =~= Seq::<(Monomial, (int, int))>::empty());
        assert(to_map(xs) =~= Poly::empty());
        assert(poly_neg(to_map(xs)) =~= Poly::empty());
    } else {
        let init = xs.drop_last();
        let x = xs.last();
        assert(keys_unique(init));
        lemma_times_minus_one(init);
        let t = term_product(x, (Monomial::empty(), (-1int, 1int)));
        assert(powers_product(x.0, Monomial::empty()) =~= x.0);
        assert(x.1.0 * -1 == -x.1.0);
        assert(abs(-x.1.0) == abs(x.1.0));
        assert(x.1.1 * 1 == x.1.1);
        assert(gcd(abs(x.1.0 * -1), (x.1.1 * 1) as nat) == 1);
        assert((-x.1.0) / 1 == -x.1.0);
        assert(x.1.1 / 1 == x.1.1);
        assert(t == (x.0, (-x.1.0, x.1.1)));
        assert(row(x, minus_one_terms()) =~= seq![t]);
        let ps = pair_products(xs, minus_one_terms());
        assert(ps.drop_last() =~= pair_products(init, minus_one_terms()));
        assert(ps.last() == t);
        assert(init.insert(init.len() as int, x) =~= xs);
        assert forall|i: int| 0 <= i < init.len() implies init[i].0 != x.0 by {
            assert(xs[i].0 != xs[xs.len() - 1].0);
        }
        lemma_to_map_insert(init, init.len() as int, x.0, x.1);
        lemma_to_map(init);
        assert(!to_map(init).contains_key(x.0));
        assert(add_terms(Poly::empty(), ps) == add_term(poly_neg(to_map(init)), t.0, t.1));
        assert(add_term(poly_neg(to_map(init)), t.0, t.1) =~= poly_neg(to_map(xs)));
    }
}

impl Symbols {
    /// The additive inverse: the polynomial multiplied by the scalar -1.
    pub fn invert(&self) -> (r: Symbols)
        requires
            self.wf(),
        ensures
            r.wf(),
            r@ == poly_neg(self@),
    {
        let mut terms: Vec<(SymbolPowers, Rational)> = Vec::new();
        terms.push((SymbolPowers::one(), lift_integer(-1)));
        let minus_one = Symbols(terms);
        proof {
            lemma_gcd_one(1);
            assert(terms_seq(minus_one.0@) =~= minus_one_terms());
            minus_one.lemma_wf();
            assert(products_fit(self@, minus_one@)) by {
                assert forall|p: Monomial, q: Monomial|
                    self@.contains_key(p) && minus_one@.contains_key(q) implies #[trigger] powers_fit(p, q) by {
                    assert(q == Monomial::empty());
                }
            }
            self.lemma_wf();
            let xs = terms_seq(self.0@);
            assert forall|i: int| 0 <= i < xs.len() implies is_lowest(#[trigger] xs[i].1) && xs[i].1.0 != 0 by {
                assert(xs[i].1 == self.0@[i].1@);
            }
            lemma_times_minus_one(xs);
        }
        self.multiply(&minus_one)
    }
}

} // verus!

verus! {

impl Symbols {
    /// Whether this is the zero polynomial.
    pub fn is_zero(&self) -> (r: bool)
        ensures
            r == (self@ == Poly::empty()),
    {
        proof {
            if self.0@.len() > 0 {
                let ts = terms_seq(self.0@);
                assert(ts[0].0 == self.0@[0].0@);
                assert(self@.contains_key(self.0@[0].0@));
            } else {
                assert(self@ =~= Poly::empty());
            }
        }
        self.0.len() == 0
    }
}

} // verus!

verus! {

/// The coefficient of `k` in `m`; `0 / 1` where `m` has no such term.
pub open spec fn coef(m: Poly, k: Monomial) -> (int, int) {
    if m.contains_key(k) {
        m[k]
    } else {
        (0int, 1int)
    }
}

/// A sum of well-formed polynomials is well formed, and each of its
/// coefficients is the sum of the operands' coefficients.
pub proof fn lemma_poly_sum_coef(a: Poly, b: Poly)
    requires
        poly_wf(a),
        poly_wf(b),
    ensures
        poly_wf(poly_sum(a, b)),
        forall|k: Monomial| #[trigger] coef(poly_sum(a, b), k) == rat_sum(coef(a, k), coef(b, k)),
{
    lemma_gcd_one(0);
    assert forall|k: Monomial| #[trigger] poly_sum(a, b).contains_key(k) implies is_lowest(poly_sum(a, b)[k]) by {
        if a.contains_key(k) && b.contains_key(k) {
            assert(a[k].1 * b[k].1 > 0) by (nonlinear_arith)
                requires
                    a[k].1 > 0,
                    b[k].1 > 0,
            ;
            lemma_lowest(a[k].0 * b[k].1 + b[k].0 * a[k].1, a[k].1 * b[k].1);
        }
    }
    assert forall|k: Monomial| #[trigger] coef(poly_sum(a, b), k) == rat_sum(coef(a, k), coef(b, k)) by {
        if a.contains_key(k) && b.contains_key(k) {
            assert(a[k].1 * b[k].1 > 0) by (nonlinear_arith)
                requires
                    a[k].1 > 0,
                    b[k].1 > 0,
            ;
            if rat_sum(a[k], b[k]).0 == 0 {
                lemma_lowest_zero(a[k].0 * b[k].1 + b[k].0 * a[k].1, a[k].1 * b[k].1);
            }
        } else if a.contains_key(k) {
            lemma_rat_sum_zero(a[k]);
        } else if b.contains_key(k) {
            lemma_rat_sum_zero(b[k]);
        } else {
            lemma_rat_sum_zero((0int, 1int));
        }
    }
}

/// Well-formed polynomials with the same coefficients are equal.
pub proof fn lemma_poly_ext(m1: Poly, m2: Poly)
    requires
        poly_wf(m1),
        poly_wf(m2),
        forall|k: Monomial| #[trigger] coef(m1, k) == coef(m2, k),
    ensures
        m1 == m2,
{
    assert forall|k: Monomial| m1.contains_key(k) <==> m2.contains_key(k) by {
        assert(coef(m1, k) == coef(m2, k));
    }
    assert forall|k: Monomial| m1.contains_key(k) implies m1[k] == m2[k] by {
        assert(coef(m1, k) == coef(m2, k));
    }
    assert(m1 =~= m2);
}

/// The sum of polynomials is associative.
pub proof fn lemma_poly_sum_associative(a: Poly, b: Poly, c: Poly)
    requires
        poly_wf(a),
        poly_wf(b),
        poly_wf(c),
    ensures
        poly_sum(poly_sum(a, b), c) == poly_sum(a, poly_sum(b, c)),
{
    lemma_poly_sum_coef(a, b);
    lemma_poly_sum_coef(b, c);
    lemma_poly_sum_coef(poly_sum(a, b), c);
    lemma_poly_sum_coef(a, poly_sum(b, c));
    assert forall|k: Monomial| #[trigger] coef(poly_sum(poly_sum(a, b), c), k) == coef(
        poly_sum(a, poly_sum(b, c)),
        k,
    ) by {
        assert(coef(a, k).1 > 0 && coef(b, k).1 > 0 && coef(c, k).1 > 0);
        lemma_rat_sum_associative(coef(a, k), coef(b, k), coef(c, k));
        assert(coef(poly_sum(a, b), k) == rat_sum(coef(a, k), coef(b, k)));
        assert(coef(poly_sum(b, c), k) == rat_sum(coef(b, k), coef(c, k)));
    }
    lemma_poly_ext(poly_sum(poly_sum(a, b), c), poly_sum(a, poly_sum(b, c)));
}

} // verus!
