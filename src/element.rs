use vstd::prelude::*;

use crate::basis::{square_of, Basis, BasisError, SquaredElement, Vector};

verus! {

/// A strictly increasing sequence of indices: the canonical form of a set of
/// basis vectors.
pub open spec fn increasing(s: Seq<usize>) -> bool {
    forall|i: int, j: int| 0 <= i < j < s.len() ==> s[i] < s[j]
}

/// A basis blade: a set of distinct basis vectors, named by their indices in
/// ascending order (see `wf`). The empty blade is the scalar 1.
#[derive(Debug, Clone, PartialEq, Eq, PartialOrd, Ord, Hash)]
pub struct Element(pub Vec<usize>);

impl View for Element {
    type V = Seq<usize>;

    open spec fn view(&self) -> Seq<usize> {
        self.0@
    }
}

impl Element {
    /// Every blade that the library builds holds its indices in ascending order.
    pub open spec fn wf(&self) -> bool {
        increasing(self@)
    }

    /// Wraps indices that are already strictly increasing.
    pub(crate) fn from_sorted(v: Vec<usize>) -> (r: Element)
        requires
            increasing(v@),
        ensures
            r@ == v@,
            r.wf(),
    {
        Element(v)
    }

    /// The scalar blade.
    pub fn scalar() -> (r: Element)
        ensures
            r@ == Seq::<usize>::empty(),
            r.wf(),
    {
        Element(Vec::new())
    }

    /// The blade of one vector.
    pub fn from_vector(v: Vector) -> (r: Element)
        ensures
            r@ == seq![v.0],
            r.wf(),
    {
        let mut r: Vec<usize> = Vec::new();
        r.push(v.0);
        assert(r@ =~= seq![v.0]);
        Element(r)
    }

    /// The indices of the blade's vectors, ascending.
    pub fn indices(&self) -> (r: Vec<usize>)
        ensures
            r@ == self@,
    {
        self.0.clone()
    }
}

} // verus!

verus! {

/// The outcome of multiplying blades, as a mathematical value. `Fail` stands
/// for a product that meets a vector the basis does not have.
pub enum Signed {
    Fail,
    Zero,
    Positive(Seq<usize>),
    Negative(Seq<usize>),
}

impl Signed {
    /// The same outcome with the opposite sign.
    pub open spec fn negated(self) -> Signed {
        match self {
            Signed::Positive(s) => Signed::Negative(s),
            Signed::Negative(s) => Signed::Positive(s),
            other => other,
        }
    }

    /// The blade of a signed outcome (empty for `Zero` and `Fail`).
    pub open spec fn blade(self) -> Seq<usize> {
        match self {
            Signed::Positive(s) => s,
            Signed::Negative(s) => s,
            _ => Seq::empty(),
        }
    }

    /// Puts index `h` in front of the blade, keeping the sign.
    pub open spec fn prepend(self, h: usize) -> Signed {
        match self {
            Signed::Positive(s) => Signed::Positive(seq![h] + s),
            Signed::Negative(s) => Signed::Negative(seq![h] + s),
            other => other,
        }
    }
}

/// The product `v * x` of vector `v` with the blade `x` (ascending), found by
/// moving `v` rightwards past each smaller index of `x`: every move past
/// another vector flips the sign, and meeting an equal index replaces the
/// pair by the square of `v`.
pub open spec fn insert_left(basis: Basis, x: Seq<usize>, v: usize) -> Signed
    decreases x.len(),
{
    if x.len() == 0 {
        Signed::Positive(seq![v])
    } else if v < x[0] {
        Signed::Positive(seq![v] + x)
    } else if v == x[0] {
        match square_of(basis, v) {
            None => Signed::Fail,
            Some(SquaredElement::Zero) => Signed::Zero,
            Some(SquaredElement::One) => Signed::Positive(x.drop_first()),
            Some(SquaredElement::MinusOne) => Signed::Negative(x.drop_first()),
        }
    } else {
        insert_left(basis, x.drop_first(), v).prepend(x[0]).negated()
    }
}

/// Multiplies a signed outcome by vector `v` from the left.
pub open spec fn apply_left(basis: Basis, v: usize, p: Signed) -> Signed {
    match p {
        Signed::Positive(s) => insert_left(basis, s, v),
        Signed::Negative(s) => insert_left(basis, s, v).negated(),
        other => other,
    }
}

/// Multiplies `p` from the left by the vectors of `w`, the last one first:
/// the product `w[0] * (w[1] * ( ... (w[n-1] * p)))`.
pub open spec fn act(basis: Basis, w: Seq<usize>, p: Signed) -> Signed
    decreases w.len(),
{
    if w.len() == 0 {
        p
    } else {
        apply_left(basis, w[0], act(basis, w.drop_first(), p))
    }
}

/// The geometric product of blades `a` and `b`.
pub open spec fn product(basis: Basis, a: Seq<usize>, b: Seq<usize>) -> Signed {
    act(basis, a, Signed::Positive(b))
}

/// The blade that `insert_left` returns holds `v` and the indices of `x`
/// only, in ascending order.
pub proof fn lemma_insert_left_blade(basis: Basis, x: Seq<usize>, v: usize)
    requires
        increasing(x),
    ensures
        increasing(insert_left(basis, x, v).blade()),
        forall|k: int|
            0 <= k < insert_left(basis, x, v).blade().len() ==> (#[trigger] insert_left(
                basis,
                x,
                v,
            ).blade()[k] == v || x.contains(insert_left(basis, x, v).blade()[k])),
    decreases x.len(),
{
    if x.len() == 0 {
    } else if v < x[0] {
        let r = seq![v] + x;
        assert forall|k: int| 0 <= k < r.len() implies (r[k] == v || x.contains(r[k])) by {
            if k > 0 {
                assert(r[k] == x[k - 1]);
            }
        }
    } else if v == x[0] {
        let r = x.drop_first();
        assert forall|k: int| 0 <= k < r.len() implies x.contains(r[k]) by {
            assert(r[k] == x[k + 1]);
        }
    } else {
        let t = x.drop_first();
        lemma_insert_left_blade(basis, t, v);
        let rb = insert_left(basis, t, v).blade();
        let r = seq![x[0]] + rb;
        if !(insert_left(basis, t, v) is Fail) && !(insert_left(basis, t, v) is Zero) {
            assert(insert_left(basis, x, v).blade() == r);
            assert forall|k: int| 0 <= k < r.len() implies (r[k] == v || x.contains(r[k])) by {
                if k > 0 {
                    assert(r[k] == rb[k - 1]);
                    if rb[k - 1] != v {
                        let j = choose|j: int| 0 <= j < t.len() && t[j] == rb[k - 1];
                        assert(x[j + 1] == r[k]);
                    }
                } else {
                    assert(x[0] == r[0]);
                }
            }
            assert forall|i: int, j: int| 0 <= i < j < r.len() implies r[i] < r[j] by {
                if i > 0 {
                    assert(r[i] == rb[i - 1]);
                    assert(r[j] == rb[j - 1]);
                } else {
                    assert(r[j] == rb[j - 1]);
                    if rb[j - 1] != v {
                        let m = choose|m: int| 0 <= m < t.len() && t[m] == rb[j - 1];
                        assert(t[m] == x[m + 1]);
                    }
                }
            }
        }
    }
}

} // verus!

verus! {

/// Multiplying by `a ++ b` is multiplying by `b`, then by `a`.
pub proof fn lemma_act_concat(basis: Basis, a: Seq<usize>, b: Seq<usize>, p: Signed)
    ensures
        act(basis, a + b, p) == act(basis, a, act(basis, b, p)),
    decreases a.len(),
{
    if a.len() == 0 {
        assert(a + b =~= b);
    } else {
        assert((a + b).drop_first() =~= a.drop_first() + b);
        lemma_act_concat(basis, a.drop_first(), b, p);
    }
}

/// `Zero` and `Fail` absorb every further factor.
pub proof fn lemma_act_absorbs(basis: Basis, w: Seq<usize>, p: Signed)
    requires
        p is Zero || p is Fail,
    ensures
        act(basis, w, p) == p,
    decreases w.len(),
{
    if w.len() > 0 {
        lemma_act_absorbs(basis, w.drop_first(), p);
    }
}

/// Multiplying by vectors keeps a blade in ascending order.
pub proof fn lemma_act_increasing(basis: Basis, w: Seq<usize>, p: Signed)
    requires
        increasing(p.blade()),
    ensures
        increasing(act(basis, w, p).blade()),
    decreases w.len(),
{
    if w.len() > 0 {
        let q = act(basis, w.drop_first(), p);
        lemma_act_increasing(basis, w.drop_first(), p);
        lemma_insert_left_blade(basis, q.blade(), w[0]);
    }
}

/// Signed blade: the outcome of a product that did not fail.
#[derive(Debug, Clone, PartialEq, Eq)]
pub enum SimplifiedElement {
    Zero,
    Positive(Element),
    Negative(Element),
}

impl SimplifiedElement {
    /// The outcome as a value.
    pub open spec fn model(&self) -> Signed {
        match self {
            SimplifiedElement::Zero => Signed::Zero,
            SimplifiedElement::Positive(e) => Signed::Positive(e@),
            SimplifiedElement::Negative(e) => Signed::Negative(e@),
        }
    }

    /// Its blade, if any, is in ascending order.
    pub open spec fn wf(&self) -> bool {
        match self {
            SimplifiedElement::Zero => true,
            SimplifiedElement::Positive(e) => e.wf(),
            SimplifiedElement::Negative(e) => e.wf(),
        }
    }

    /// The sign as a square (`Zero`, `One` or `MinusOne`) and the blade; the
    /// blade of `Zero` is the scalar one.
    pub fn elems_and_sign(self) -> (r: (SquaredElement, Element))
        ensures
            r.0 == (match self {
                SimplifiedElement::Zero => SquaredElement::Zero,
                SimplifiedElement::Positive(_) => SquaredElement::One,
                SimplifiedElement::Negative(_) => SquaredElement::MinusOne,
            }),
            r.1@ == self.model().blade(),
    {
        match self {
            SimplifiedElement::Zero => (SquaredElement::Zero, Element(Vec::new())),
            SimplifiedElement::Positive(es) => (SquaredElement::One, es),
            SimplifiedElement::Negative(es) => (SquaredElement::MinusOne, es),
        }
    }

    /// The blade, unless the outcome is `Zero`.
    pub fn elems(self) -> (r: Option<Element>)
        ensures
            r == (match self {
                SimplifiedElement::Zero => None,
                SimplifiedElement::Positive(e) => Some(e),
                SimplifiedElement::Negative(e) => Some(e),
            }),
    {
        match self {
            SimplifiedElement::Zero => None,
            SimplifiedElement::Positive(es) => Some(es),
            SimplifiedElement::Negative(es) => Some(es),
        }
    }

    /// The same blade with the opposite sign.
    pub fn flip(self) -> (r: SimplifiedElement)
        ensures
            r.model() == self.model().negated(),
            r == (match self {
                SimplifiedElement::Zero => SimplifiedElement::Zero,
                SimplifiedElement::Positive(e) => SimplifiedElement::Negative(e),
                SimplifiedElement::Negative(e) => SimplifiedElement::Positive(e),
            }),
    {
        match self {
            SimplifiedElement::Zero => SimplifiedElement::Zero,
            SimplifiedElement::Positive(es) => SimplifiedElement::Negative(es),
            SimplifiedElement::Negative(es) => SimplifiedElement::Positive(es),
        }
    }

    /// Applies `f` to the blade, keeping the sign.
    pub fn map<F: FnOnce(Element) -> Element>(self, f: F) -> (r: SimplifiedElement)
        requires
            match self {
                SimplifiedElement::Zero => true,
                SimplifiedElement::Positive(e) => f.requires((e,)),
                SimplifiedElement::Negative(e) => f.requires((e,)),
            },
        ensures
            match (self, r) {
                (SimplifiedElement::Zero, SimplifiedElement::Zero) => true,
                (SimplifiedElement::Positive(e), SimplifiedElement::Positive(g)) => f.ensures(
                    (e,),
                    g,
                ),
                (SimplifiedElement::Negative(e), SimplifiedElement::Negative(g)) => f.ensures(
                    (e,),
                    g,
                ),
                _ => false,
            },
    {
        match self {
            SimplifiedElement::Zero => SimplifiedElement::Zero,
            SimplifiedElement::Positive(es) => SimplifiedElement::Positive(f(es)),
            SimplifiedElement::Negative(es) => SimplifiedElement::Negative(f(es)),
        }
    }
}

/// The indices of `xs` from `start` on.
fn tail_from(xs: &Vec<usize>, start: usize) -> (r: Vec<usize>)
    requires
        start <= xs.len(),
    ensures
        r@ == xs@.subrange(start as int, xs.len() as int),
{
    let mut r: Vec<usize> = Vec::new();
    let mut i: usize = start;
    while i < xs.len()
        invariant
            start <= i <= xs.len(),
            r@ == xs@.subrange(start as int, i as int),
        decreases xs.len() - i,
    {
        r.push(xs[i]);
        i = i + 1;
        assert(r@ =~= xs@.subrange(start as int, i as int));
    }
    r
}

/// The blade with index `h` put in front.
fn prepend_index(h: usize, e: Element) -> (r: Element)
    ensures
        r@ == seq![h] + e@,
{
    let mut v: Vec<usize> = Vec::new();
    v.push(h);
    let mut i: usize = 0;
    while i < e.0.len()
        invariant
            0 <= i <= e@.len(),
            v@ == seq![h] + e@.subrange(0, i as int),
        decreases e@.len() - i,
    {
        v.push(e.0[i]);
        i = i + 1;
        assert(v@ =~= seq![h] + e@.subrange(0, i as int));
    }
    assert(e@.subrange(0, e@.len() as int) =~= e@);
    Element(v)
}

/// `left * xs[start..]`, for `insert_left`.
fn insert_from(xs: &Vec<usize>, start: usize, basis: &Basis, left: usize) -> (r: Result<
    SimplifiedElement,
    BasisError,
>)
    requires
        start <= xs.len(),
    ensures
        match r {
            Ok(s) => s.model() == insert_left(*basis, xs@.subrange(start as int, xs.len() as int), left),
            Err(e) => insert_left(*basis, xs@.subrange(start as int, xs.len() as int), left) is Fail
                && e == BasisError::IndexOutOfRange(left),
        },
    decreases xs.len() - start,
{
    let ghost x = xs@.subrange(start as int, xs.len() as int);
    if start == xs.len() {
        let mut v: Vec<usize> = Vec::new();
        v.push(left);
        assert(v@ =~= seq![left]);
        return Ok(SimplifiedElement::Positive(Element(v)));
    }
    assert(x[0] == xs[start as int]);
    let first = xs[start];
    assert(x.drop_first() =~= xs@.subrange(start + 1, xs.len() as int));
    if left < first {
        let rest = tail_from(xs, start);
        let e = prepend_index(left, Element(rest));
        Ok(SimplifiedElement::Positive(e))
    } else if left == first {
        match Vector(left).square(basis) {
            Err(e) => Err(e),
            Ok(SquaredElement::Zero) => Ok(SimplifiedElement::Zero),
            Ok(SquaredElement::One) => Ok(SimplifiedElement::Positive(Element(tail_from(xs, start + 1)))),
            Ok(SquaredElement::MinusOne) => Ok(
                SimplifiedElement::Negative(Element(tail_from(xs, start + 1))),
            ),
        }
    } else {
        match insert_from(xs, start + 1, basis, left) {
            Err(e) => Err(e),
            Ok(rest) => {
                let rest = rest.map(|e: Element| -> (r: Element)
                    ensures
                        r@ == seq![first] + e@,
                    { prepend_index(first, e) });
                Ok(rest.flip())
            },
        }
    }
}

impl Element {
    /// The product `left * self`: the vector `left` moved into the blade
    /// from the left.
    pub fn multiply_vector_left(self, basis: &Basis, left: Vector) -> (r: Result<
        SimplifiedElement,
        BasisError,
    >)
        ensures
            match r {
                Ok(s) => s.model() == insert_left(*basis, self@, left.0),
                Err(e) => insert_left(*basis, self@, left.0) is Fail && e
                    == BasisError::IndexOutOfRange(left.0),
            },
            self.wf() && r is Ok ==> r->Ok_0.wf(),
    {
        let r = insert_from(&self.0, 0, basis, left.0);
        assert(self@.subrange(0, self@.len() as int) =~= self@);
        proof {
            if self.wf() {
                lemma_insert_left_blade(*basis, self@, left.0);
            }
        }
        r
    }
}

} // verus!

verus! {

impl Element {
    /// The geometric product `self * rhs`: the vectors of `self` are moved
    /// into `rhs` from the left, the highest index first. Fails only where a
    /// vector meets itself and the basis has no vector of that index.
    pub fn multiply(&self, basis: &Basis, rhs: &Element) -> (r: Result<SimplifiedElement, BasisError>)
        ensures
            match r {
                Ok(s) => s.model() == product(*basis, self@, rhs@),
                Err(_) => product(*basis, self@, rhs@) is Fail,
            },
            rhs.wf() && r is Ok ==> r->Ok_0.wf(),
    {
        let ghost a = self@;
        let n = self.0.len();
        let mut curr = SimplifiedElement::Positive(Element(rhs.0.clone()));
        let mut i: usize = n;
        assert(a.subrange(n as int, n as int) =~= Seq::<usize>::empty());
        while i > 0
            invariant
                0 <= i <= n == a.len(),
                a == self@,
                curr.model() == act(*basis, a.subrange(i as int, n as int), Signed::Positive(rhs@)),
                !(curr is Zero),
                rhs.wf() ==> curr.wf(),
            decreases i,
        {
            let ghost before = curr.model();
            i = i - 1;
            let v = self.0[i];
            let ghost w = a.subrange(i as int, n as int);
            assert(w.drop_first() =~= a.subrange(i + 1, n as int));
            assert(w[0] == v);
            assert(a =~= a.subrange(0, i as int) + w);
            proof {
                lemma_act_concat(*basis, a.subrange(0, i as int), w, Signed::Positive(rhs@));
            }
            let (negative, es) = match curr {
                SimplifiedElement::Positive(es) => (false, es),
                SimplifiedElement::Negative(es) => (true, es),
                SimplifiedElement::Zero => (false, Element(Vec::new())),
            };
            proof {
                if rhs.wf() {
                    lemma_insert_left_blade(*basis, es@, v);
                }
            }
            match es.multiply_vector_left(basis, Vector(v)) {
                Err(e) => {
                    proof {
                        lemma_act_absorbs(*basis, a.subrange(0, i as int), Signed::Fail);
                    }
                    return Err(e);
                },
                Ok(SimplifiedElement::Zero) => {
                    proof {
                        lemma_act_absorbs(*basis, a.subrange(0, i as int), Signed::Zero);
                    }
                    return Ok(SimplifiedElement::Zero);
                },
                Ok(SimplifiedElement::Positive(es)) => {
                    curr = if negative {
                        SimplifiedElement::Negative(es)
                    } else {
                        SimplifiedElement::Positive(es)
                    };
                },
                Ok(SimplifiedElement::Negative(es)) => {
                    curr = if negative {
                        SimplifiedElement::Positive(es)
                    } else {
                        SimplifiedElement::Negative(es)
                    };
                },
            }
        }
        assert(a.subrange(0, n as int) =~= a);
        Ok(curr)
    }
}

} // verus!

verus! {

/// Two distinct basis vectors anticommute: `e_i * e_j == -(e_j * e_i)`.
pub proof fn lemma_vectors_anticommute(basis: Basis, i: usize, j: usize)
    requires
        i != j,
    ensures
        product(basis, seq![i], seq![j]) == product(basis, seq![j], seq![i]).negated(),
        product(basis, seq![i], seq![j]) is Positive || product(basis, seq![i], seq![j]) is Negative,
{
    let ei: Seq<usize> = seq![i];
    let ej: Seq<usize> = seq![j];
    assert(ei.drop_first() =~= Seq::<usize>::empty());
    assert(ej.drop_first() =~= Seq::<usize>::empty());
    assert(act(basis, ei.drop_first(), Signed::Positive(ej)) == Signed::Positive(ej));
    assert(act(basis, ej.drop_first(), Signed::Positive(ei)) == Signed::Positive(ei));
    if i < j {
        assert(insert_left(basis, ej.drop_first(), i) == Signed::Positive(seq![i]));
    } else {
        assert(insert_left(basis, ei.drop_first(), j) == Signed::Positive(seq![j]));
    }
}

/// A basis vector squares to +1, -1 or zero according to the signature: the
/// product `e_i * e_i` is the scalar blade with that sign, or `Zero`.
pub proof fn lemma_vector_square(basis: Basis, i: usize)
    requires
        (i as int) < basis.dim(),
    ensures
        product(basis, seq![i], seq![i]) == (match square_of(basis, i) {
            Some(SquaredElement::One) => Signed::Positive(Seq::empty()),
            Some(SquaredElement::MinusOne) => Signed::Negative(Seq::empty()),
            _ => Signed::Zero,
        }),
{
    let ei: Seq<usize> = seq![i];
    assert(ei.drop_first() =~= Seq::<usize>::empty());
    assert(act(basis, ei.drop_first(), Signed::Positive(ei)) == Signed::Positive(ei));
}

/// The scalar blade is a two-sided identity: `1 * b == b` and `a * 1 == a`
/// for blades in ascending order.
pub proof fn lemma_scalar_identity(basis: Basis, a: Seq<usize>)
    requires
        increasing(a),
    ensures
        product(basis, Seq::empty(), a) == Signed::Positive(a),
        product(basis, a, Seq::empty()) == Signed::Positive(a),
    decreases a.len(),
{
    if a.len() > 0 {
        let t = a.drop_first();
        assert(increasing(t));
        lemma_scalar_identity(basis, t);
        assert(seq![a[0]] + t =~= a);
        assert(act(basis, t, Signed::Positive(Seq::empty())) == Signed::Positive(t));
        assert(act(basis, a, Signed::Positive(Seq::empty())) == apply_left(basis, a[0], Signed::Positive(t)));
        if t.len() > 0 {
            assert(a[0] < t[0]) by {
                assert(t[0] == a[1]);
            }
            assert(insert_left(basis, t, a[0]) == Signed::Positive(a));
        } else {
            assert(seq![a[0]] =~= a);
            assert(insert_left(basis, t, a[0]) == Signed::Positive(a));
        }
    } else {
        assert(a =~= Seq::<usize>::empty());
    }
}

} // verus!

verus! {

impl Element {
    /// The blade of the given vectors, as a set: in ascending order, each
    /// index once.
    pub fn from_vectors(vs: Vec<Vector>) -> (r: Element)
        ensures
            r.wf(),
            forall|x: usize| r@.contains(x) <==> exists|j: int| 0 <= j < vs@.len() && vs@[j].0 == x,
    {
        let mut v: Vec<usize> = Vec::new();
        let mut i: usize = 0;
        while i < vs.len()
            invariant
                0 <= i <= vs@.len(),
                increasing(v@),
                forall|x: usize| v@.contains(x) <==> exists|j: int| 0 <= j < i && vs@[j].0 == x,
            decreases vs@.len() - i,
        {
            let x = vs[i].0;
            let mut p: usize = 0;
            while p < v.len() && v[p] < x
                invariant
                    0 <= p <= v@.len(),
                    forall|q: int| 0 <= q < p ==> v@[q] < x,
                decreases v@.len() - p,
            {
                p = p + 1;
            }
            let ghost before = v@;
            if p < v.len() && v[p] == x {
                assert(v@[p as int] == x);
                assert forall|y: usize| v@.contains(y) <==> (before.contains(y) || y == x) by {
                    if y == x {
                        assert(v@[p as int] == y);
                    }
                }
            } else {
                v.insert(p, x);
                proof {
                    assert forall|a: int, b: int| 0 <= a < b < v@.len() implies v@[a] < v@[b] by {
                        if b < p {
                        } else if b == p {
                        } else if a < p {
                            assert(v@[b] == before[b - 1]);
                            assert(before[p as int] > x);
                        } else if a == p {
                            assert(v@[b] == before[b - 1]);
                            assert(before[p as int] > x);
                        } else {
                            assert(v@[a] == before[a - 1]);
                            assert(v@[b] == before[b - 1]);
                        }
                    }
                    assert forall|y: usize| v@.contains(y) <==> (before.contains(y) || y == x) by {
                        if v@.contains(y) {
                            let k = choose|k: int| 0 <= k < v@.len() && v@[k] == y;
                            if k < p {
                                assert(before[k] == y);
                            } else if k > p {
                                assert(before[k - 1] == y);
                            }
                        }
                        if before.contains(y) {
                            let k = choose|k: int| 0 <= k < before.len() && before[k] == y;
                            if k < p {
                                assert(v@[k] == y);
                            } else {
                                assert(v@[k + 1] == y);
                            }
                        }
                        if y == x {
                            assert(v@[p as int] == y);
                        }
                    }
                }
            }
            proof {
                assert forall|y: usize| v@.contains(y) <==> exists|j: int| 0 <= j < i + 1 && vs@[j].0 == y by {
                    assert(v@.contains(y) <==> (before.contains(y) || y == x));
                    if y == x {
                        assert(vs@[i as int].0 == y);
                    } else if exists|j: int| 0 <= j < i + 1 && vs@[j].0 == y {
                        let j = choose|j: int| 0 <= j < i + 1 && vs@[j].0 == y;
                        assert(j < i);
                    }
                }
            }
            i = i + 1;
        }
        Element(v)
    }
}

} // verus!

verus! {

/// A blade of the basis: ascending indices, each below the dimension.
pub open spec fn valid_blade(basis: Basis, s: Seq<usize>) -> bool {
    &&& increasing(s)
    &&& forall|i: int| 0 <= i < s.len() ==> (s[i] as int) < basis.dim()
}

/// Multiplies a signed outcome by a square.
pub open spec fn scaled(sq: Option<SquaredElement>, p: Signed) -> Signed {
    match p {
        Signed::Positive(_) | Signed::Negative(_) => match sq {
            None => Signed::Fail,
            Some(SquaredElement::Zero) => Signed::Zero,
            Some(SquaredElement::One) => p,
            Some(SquaredElement::MinusOne) => p.negated(),
        },
        _ => p,
    }
}

/// Multiplies `p` from the left by the signed blade `s`.
pub open spec fn act_signed(basis: Basis, s: Signed, p: Signed) -> Signed {
    match s {
        Signed::Positive(e) => act(basis, e, p),
        Signed::Negative(e) => act(basis, e, p).negated(),
        other => other,
    }
}

proof fn lemma_apply_negated(basis: Basis, v: usize, p: Signed)
    ensures
        apply_left(basis, v, p.negated()) == apply_left(basis, v, p).negated(),
{
}

proof fn lemma_act_negated(basis: Basis, w: Seq<usize>, p: Signed)
    ensures
        act(basis, w, p.negated()) == act(basis, w, p).negated(),
    decreases w.len(),
{
    if w.len() > 0 {
        lemma_act_negated(basis, w.drop_first(), p);
        lemma_apply_negated(basis, w[0], act(basis, w.drop_first(), p));
    }
}

proof fn lemma_apply_prepend_greater(basis: Basis, v: usize, h: usize, p: Signed)
    requires
        h < v,
    ensures
        apply_left(basis, v, p.prepend(h)) == apply_left(basis, v, p).prepend(h).negated(),
{
    match p {
        Signed::Positive(b) => {
            assert((seq![h] + b).drop_first() =~= b);
        },
        Signed::Negative(b) => {
            assert((seq![h] + b).drop_first() =~= b);
        },
        _ => {},
    }
}

proof fn lemma_apply_prepend_less(basis: Basis, v: usize, h: usize, p: Signed)
    requires
        v < h,
    ensures
        apply_left(basis, v, p.prepend(h)) == p.prepend(h).prepend(v),
{
}

proof fn lemma_apply_prepend_equal(basis: Basis, v: usize, p: Signed)
    ensures
        apply_left(basis, v, p.prepend(v)) == scaled(square_of(basis, v), p),
{
    match p {
        Signed::Positive(b) => {
            assert((seq![v] + b).drop_first() =~= b);
        },
        Signed::Negative(b) => {
            assert((seq![v] + b).drop_first() =~= b);
        },
        _ => {},
    }
}

/// Moving a vector of the basis into a blade never fails.
proof fn lemma_insert_no_fail(basis: Basis, x: Seq<usize>, v: usize)
    requires
        square_of(basis, v) is Some,
    ensures
        !(insert_left(basis, x, v) is Fail),
    decreases x.len(),
{
    if x.len() > 0 && v > x[0] {
        lemma_insert_no_fail(basis, x.drop_first(), v);
    }
}

/// Products by vectors of the basis never fail.
proof fn lemma_act_no_fail(basis: Basis, w: Seq<usize>, p: Signed)
    requires
        forall|i: int| 0 <= i < w.len() ==> (w[i] as int) < basis.dim(),
        !(p is Fail),
    ensures
        !(act(basis, w, p) is Fail),
    decreases w.len(),
{
    if w.len() > 0 {
        lemma_act_no_fail(basis, w.drop_first(), p);
        let q = act(basis, w.drop_first(), p);
        match q {
            Signed::Positive(s) => lemma_insert_no_fail(basis, s, w[0]),
            Signed::Negative(s) => lemma_insert_no_fail(basis, s, w[0]),
            _ => {},
        }
    }
}

/// Products by vectors keep blades within the basis.
proof fn lemma_act_within(basis: Basis, w: Seq<usize>, p: Signed)
    requires
        increasing(p.blade()),
        forall|i: int| 0 <= i < w.len() ==> (w[i] as int) < basis.dim(),
        forall|i: int| 0 <= i < p.blade().len() ==> (p.blade()[i] as int) < basis.dim(),
    ensures
        valid_blade(basis, act(basis, w, p).blade()),
    decreases w.len(),
{
    lemma_act_increasing(basis, w, p);
    if w.len() > 0 {
        let t = w.drop_first();
        lemma_act_within(basis, t, p);
        let q = act(basis, t, p);
        lemma_insert_left_blade(basis, q.blade(), w[0]);
        let r = act(basis, w, p).blade();
        assert forall|i: int| 0 <= i < r.len() implies (r[i] as int) < basis.dim() by {
            assert(insert_left(basis, q.blade(), w[0]).blade()[i] == r[i]);
            if r[i] != w[0] {
                let j = choose|j: int| 0 <= j < q.blade().len() && q.blade()[j] == r[i];
            }
        }
    }
}

/// A basis vector squares to its square: `v * (v * q) == v^2 * q`.
proof fn lemma_square_positive(basis: Basis, v: usize, x: Seq<usize>)
    requires
        square_of(basis, v) is Some,
        increasing(x),
    ensures
        apply_left(basis, v, apply_left(basis, v, Signed::Positive(x))) == scaled(
            square_of(basis, v),
            Signed::Positive(x),
        ),
    decreases x.len(),
{
    let sq = square_of(basis, v);
    if x.len() == 0 {
        assert(Signed::Positive(seq![v]) == Signed::Positive(x).prepend(v)) by {
            assert(seq![v] + x =~= seq![v]);
        }
        lemma_apply_prepend_equal(basis, v, Signed::Positive(x));
    } else if v < x[0] {
        lemma_apply_prepend_equal(basis, v, Signed::Positive(x));
    } else if v == x[0] {
        let rest = x.drop_first();
        assert(seq![v] + rest =~= x);
        if rest.len() > 0 {
            assert(rest[0] == x[1]);
        }
    } else {
        let rest = x.drop_first();
        assert(increasing(rest));
        assert(Signed::Positive(rest).prepend(x[0]) == Signed::Positive(x)) by {
            assert(seq![x[0]] + rest =~= x);
        }
        lemma_apply_prepend_greater(basis, v, x[0], Signed::Positive(rest));
        let q = apply_left(basis, v, Signed::Positive(rest));
        lemma_apply_negated(basis, v, q.prepend(x[0]));
        lemma_apply_prepend_greater(basis, v, x[0], q);
        lemma_square_positive(basis, v, rest);
    }
}

proof fn lemma_square(basis: Basis, v: usize, q: Signed)
    requires
        square_of(basis, v) is Some,
        increasing(q.blade()),
    ensures
        apply_left(basis, v, apply_left(basis, v, q)) == scaled(square_of(basis, v), q),
{
    match q {
        Signed::Positive(x) => lemma_square_positive(basis, v, x),
        Signed::Negative(x) => {
            lemma_square_positive(basis, v, x);
            lemma_apply_negated(basis, v, apply_left(basis, v, Signed::Positive(x)));
        },
        _ => {},
    }
}

proof fn lemma_apply_scaled(basis: Basis, v: usize, s: Option<SquaredElement>, q: Signed)
    requires
        square_of(basis, v) is Some,
        s is Some,
    ensures
        apply_left(basis, v, scaled(s, q)) == scaled(s, apply_left(basis, v, q)),
{
    match q {
        Signed::Positive(x) => lemma_insert_no_fail(basis, x, v),
        Signed::Negative(x) => lemma_insert_no_fail(basis, x, v),
        _ => {},
    }
}

} // verus!

verus! {

/// Distinct basis vectors anticommute on any blade:
/// `v * (w * x) == -(w * (v * x))` for `v < w`.
proof fn lemma_anticommute_positive(basis: Basis, v: usize, w: usize, x: Seq<usize>)
    requires
        v < w,
        square_of(basis, v) is Some,
        square_of(basis, w) is Some,
        increasing(x),
    ensures
        apply_left(basis, v, apply_left(basis, w, Signed::Positive(x))) == apply_left(
            basis,
            w,
            apply_left(basis, v, Signed::Positive(x)),
        ).negated(),
    decreases x.len(),
{
    let px = Signed::Positive(x);
    if x.len() == 0 || w < x[0] {
        assert(apply_left(basis, w, px) == px.prepend(w)) by {
            if x.len() == 0 {
                assert(seq![w] + x =~= seq![w]);
            }
        }
        assert(apply_left(basis, v, px) == px.prepend(v)) by {
            if x.len() == 0 {
                assert(seq![v] + x =~= seq![v]);
            }
        }
        lemma_apply_prepend_less(basis, v, w, px);
        lemma_apply_prepend_greater(basis, w, v, px);
    } else {
        let h = x[0];
        let rest = x.drop_first();
        let pr = Signed::Positive(rest);
        assert(increasing(rest));
        assert(pr.prepend(h) == px) by {
            assert(seq![h] + rest =~= x);
        }
        if rest.len() > 0 {
            assert(rest[0] == x[1]);
        }
        if w == h {
            let sq = square_of(basis, w);
            assert(apply_left(basis, w, px) == scaled(sq, pr));
            lemma_apply_scaled(basis, v, sq, pr);
            assert(apply_left(basis, v, pr) == pr.prepend(v)) by {
                if rest.len() == 0 {
                    assert(seq![v] + rest =~= seq![v]);
                }
            }
            assert(apply_left(basis, v, px) == px.prepend(v));
            lemma_apply_prepend_greater(basis, w, v, px);
        } else {
            let n = apply_left(basis, w, pr).prepend(h).negated();
            lemma_apply_prepend_greater(basis, w, h, pr);
            assert(apply_left(basis, w, px) == n);
            lemma_apply_negated(basis, v, apply_left(basis, w, pr).prepend(h));
            if v < h {
                lemma_apply_prepend_less(basis, v, h, apply_left(basis, w, pr));
                assert(apply_left(basis, v, px) == px.prepend(v));
                lemma_apply_prepend_greater(basis, w, v, px);
            } else if v == h {
                lemma_apply_prepend_equal(basis, v, apply_left(basis, w, pr));
                let sq = square_of(basis, v);
                assert(apply_left(basis, v, px) == scaled(sq, pr));
                lemma_apply_scaled(basis, w, sq, pr);
            } else {
                lemma_apply_prepend_greater(basis, v, h, apply_left(basis, w, pr));
                lemma_anticommute_positive(basis, v, w, rest);
                lemma_apply_prepend_greater(basis, v, h, pr);
                let m = apply_left(basis, v, pr);
                lemma_apply_negated(basis, w, m.prepend(h));
                lemma_apply_prepend_greater(basis, w, h, m);
            }
        }
    }
}

proof fn lemma_anticommute(basis: Basis, v: usize, w: usize, q: Signed)
    requires
        v < w,
        square_of(basis, v) is Some,
        square_of(basis, w) is Some,
        increasing(q.blade()),
    ensures
        apply_left(basis, v, apply_left(basis, w, q)) == apply_left(basis, w, apply_left(basis, v, q)).negated(),
{
    match q {
        Signed::Positive(x) => lemma_anticommute_positive(basis, v, w, x),
        Signed::Negative(x) => {
            lemma_anticommute_positive(basis, v, w, x);
            lemma_apply_negated(basis, w, Signed::Positive(x));
            lemma_apply_negated(basis, v, Signed::Positive(x));
            lemma_apply_negated(basis, v, apply_left(basis, w, Signed::Positive(x)));
            lemma_apply_negated(basis, w, apply_left(basis, v, Signed::Positive(x)));
        },
        _ => {},
    }
}

} // verus!

verus! {

proof fn lemma_act_signed_negated(basis: Basis, s: Signed, p: Signed)
    ensures
        act_signed(basis, s.negated(), p) == act_signed(basis, s, p).negated(),
{
}

proof fn lemma_act_signed_prepend(basis: Basis, d: usize, s: Signed, p: Signed)
    ensures
        act_signed(basis, s.prepend(d), p) == apply_left(basis, d, act_signed(basis, s, p)),
{
    match s {
        Signed::Positive(e) => {
            assert((seq![d] + e).drop_first() =~= e);
        },
        Signed::Negative(e) => {
            assert((seq![d] + e).drop_first() =~= e);
            lemma_apply_negated(basis, d, act(basis, e, p));
        },
        _ => {},
    }
}

/// Multiplying by vector `v` after blade `d` is multiplying by the signed
/// blade `v * d`.
proof fn lemma_apply_act(basis: Basis, v: usize, d: Seq<usize>, p: Signed)
    requires
        square_of(basis, v) is Some,
        valid_blade(basis, d),
        !(p is Fail),
        valid_blade(basis, p.blade()),
    ensures
        apply_left(basis, v, act(basis, d, p)) == act_signed(
            basis,
            apply_left(basis, v, Signed::Positive(d)),
            p,
        ),
    decreases d.len(),
{
    if d.len() == 0 {
        assert(seq![v].drop_first() =~= Seq::<usize>::empty());
        assert(d =~= Seq::<usize>::empty());
        assert(apply_left(basis, v, Signed::Positive(d)) == Signed::Positive(seq![v]));
        assert(act(basis, seq![v], p) == apply_left(basis, v, act(basis, seq![v].drop_first(), p)));
    } else {
        let h = d[0];
        let rest = d.drop_first();
        assert(valid_blade(basis, rest)) by {
            assert forall|i: int| 0 <= i < rest.len() implies (rest[i] as int) < basis.dim() by {
                assert(rest[i] == d[i + 1]);
            }
        }
        if rest.len() > 0 {
            assert(rest[0] == d[1]);
        }
        let q = act(basis, rest, p);
        lemma_act_within(basis, rest, p);
        lemma_act_no_fail(basis, rest, p);
        assert(act(basis, d, p) == apply_left(basis, h, q));
        if v < h {
            assert((seq![v] + d).drop_first() =~= d);
            assert(act(basis, seq![v] + d, p) == apply_left(basis, v, act(basis, (seq![v] + d).drop_first(), p)));
        } else if v == h {
            lemma_square(basis, v, q);
            assert(apply_left(basis, v, Signed::Positive(d)) == scaled(square_of(basis, v), Signed::Positive(rest)));
        } else {
            assert(Signed::Positive(rest).prepend(h) == Signed::Positive(d)) by {
                assert(seq![h] + rest =~= d);
            }
            assert((h as int) < basis.dim());
            lemma_apply_prepend_greater(basis, v, h, Signed::Positive(rest));
            let s = apply_left(basis, v, Signed::Positive(rest));
            lemma_act_signed_negated(basis, s.prepend(h), p);
            lemma_act_signed_prepend(basis, h, s, p);
            lemma_apply_act(basis, v, rest, p);
            lemma_anticommute(basis, h, v, q);
            lemma_apply_negated(basis, h, apply_left(basis, v, q));
        }
    }
}

/// Multiplying by the signed blade `a * b` is multiplying by `b`, then by
/// the vectors of `a`.
proof fn lemma_act_signed_act(basis: Basis, a: Seq<usize>, b: Seq<usize>, p: Signed)
    requires
        forall|i: int| 0 <= i < a.len() ==> (a[i] as int) < basis.dim(),
        valid_blade(basis, b),
        !(p is Fail),
        valid_blade(basis, p.blade()),
    ensures
        act_signed(basis, act(basis, a, Signed::Positive(b)), p) == act(basis, a, act(basis, b, p)),
    decreases a.len(),
{
    if a.len() > 0 {
        let v = a[0];
        let t = a.drop_first();
        lemma_act_signed_act(basis, t, b, p);
        let s = act(basis, t, Signed::Positive(b));
        lemma_act_within(basis, t, Signed::Positive(b));
        match s {
            Signed::Positive(d) => {
                lemma_apply_act(basis, v, d, p);
            },
            Signed::Negative(d) => {
                lemma_apply_act(basis, v, d, p);
                lemma_apply_negated(basis, v, Signed::Positive(d));
                lemma_act_signed_negated(basis, apply_left(basis, v, Signed::Positive(d)), p);
                lemma_apply_negated(basis, v, act(basis, d, p));
            },
            _ => {},
        }
    }
}

/// A signed blade times a blade: `(±d) * c`.
pub open spec fn signed_times(basis: Basis, s: Signed, c: Seq<usize>) -> Signed {
    match s {
        Signed::Positive(d) => product(basis, d, c),
        Signed::Negative(d) => product(basis, d, c).negated(),
        other => other,
    }
}

/// A blade times a signed blade: `a * (±e)`.
pub open spec fn times_signed(basis: Basis, a: Seq<usize>, s: Signed) -> Signed {
    match s {
        Signed::Positive(e) => product(basis, a, e),
        Signed::Negative(e) => product(basis, a, e).negated(),
        other => other,
    }
}

/// The product of blades of a basis is associative: `(a * b) * c` and
/// `a * (b * c)` give the same sign and blade, or are both zero.
pub proof fn lemma_product_associative(basis: Basis, a: Seq<usize>, b: Seq<usize>, c: Seq<usize>)
    requires
        valid_blade(basis, a),
        valid_blade(basis, b),
        valid_blade(basis, c),
    ensures
        signed_times(basis, product(basis, a, b), c) == times_signed(basis, a, product(basis, b, c)),
        !(product(basis, a, b) is Fail),
{
    lemma_act_signed_act(basis, a, b, Signed::Positive(c));
    lemma_act_no_fail(basis, a, Signed::Positive(b));
    match product(basis, b, c) {
        Signed::Negative(e) => lemma_act_negated(basis, a, Signed::Positive(e)),
        Signed::Zero => lemma_act_absorbs(basis, a, Signed::Zero),
        Signed::Fail => lemma_act_absorbs(basis, a, Signed::Fail),
        _ => {},
    }
}

} // verus!

verus! {

impl SimplifiedElement {
    /// Continues with `f` on the blade: `Zero` stays `Zero`, and a negative
    /// outcome flips the sign of what `f` returns.
    pub fn and_then<F: FnOnce(Element) -> SimplifiedElement>(self, f: F) -> (r: SimplifiedElement)
        requires
            match self {
                SimplifiedElement::Zero => true,
                SimplifiedElement::Positive(e) => f.requires((e,)),
                SimplifiedElement::Negative(e) => f.requires((e,)),
            },
        ensures
            match self {
                SimplifiedElement::Zero => r == SimplifiedElement::Zero,
                SimplifiedElement::Positive(e) => f.ensures((e,), r),
                SimplifiedElement::Negative(e) => exists|g: SimplifiedElement|
                    f.ensures((e,), g) && r.model() == g.model().negated(),
            },
    {
        match self {
            SimplifiedElement::Zero => SimplifiedElement::Zero,
            SimplifiedElement::Positive(es) => f(es),
            SimplifiedElement::Negative(es) => {
                let g = f(es);
                let r = g.flip();
                r
            },
        }
    }
}

impl Element {
    /// The geometric product of two blades of the basis, which cannot fail.
    pub fn mult(&self, basis: &Basis, rhs: &Element) -> (r: SimplifiedElement)
        requires
            valid_blade(*basis, self@),
            valid_blade(*basis, rhs@),
        ensures
            r.model() == product(*basis, self@, rhs@),
            r.wf(),
    {
        proof {
            lemma_act_no_fail(*basis, self@, Signed::Positive(rhs@));
        }
        match self.multiply(basis, rhs) {
            Ok(s) => s,
            Err(_) => SimplifiedElement::Zero,
        }
    }
}

} // verus!
