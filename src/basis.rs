use vstd::prelude::*;

use crate::element::{increasing, Element};

verus! {

/// The signature of an algebra: how many basis vectors square to 0, to +1
/// and to -1. Indices `[0, zero)` are null, the next `positive` square to +1
/// and the `negative` after them square to -1.
#[derive(Debug, Clone, Copy, PartialEq, Eq, Structural)]
pub struct Basis {
    pub zero: usize,
    pub positive: usize,
    pub negative: usize,
}

/// What a basis vector squares to.
#[derive(Debug, Clone, Copy, PartialEq, Eq, Structural)]
pub enum SquaredElement {
    Zero,
    One,
    MinusOne,
}

/// A basis vector, named by its index.
#[derive(Debug, Clone, Copy, PartialEq, Eq, Structural, PartialOrd, Ord)]
pub struct Vector(pub usize);

/// The error of the kernel: a vector index that the basis does not have.
#[derive(Debug, Clone, Copy, PartialEq, Eq, Structural)]
pub enum BasisError {
    IndexOutOfRange(usize),
}

impl Basis {
    /// The total number of basis vectors.
    pub open spec fn dim(self) -> int {
        self.zero + self.positive + self.negative
    }

    /// A basis whose vectors can all be counted in a `usize`.
    pub open spec fn wf(self) -> bool {
        self.dim() <= usize::MAX
    }
}

/// What vector `v` squares to under `basis`, or `None` when the basis has no
/// vector of that index.
pub open spec fn square_of(basis: Basis, v: usize) -> Option<SquaredElement> {
    if v < basis.zero {
        Some(SquaredElement::Zero)
    } else if v < basis.zero + basis.positive {
        Some(SquaredElement::One)
    } else if v < basis.dim() {
        Some(SquaredElement::MinusOne)
    } else {
        None
    }
}

impl Vector {
    /// The vector of index `index`, if the basis has one.
    pub fn from_index(basis: &Basis, index: usize) -> (r: Option<Vector>)
        ensures
            r == (if index < basis.dim() {
                Some(Vector(index))
            } else {
                None
            }),
    {
        if index < basis.zero || index - basis.zero < basis.positive || index - basis.zero
            - basis.positive < basis.negative {
            Some(Vector(index))
        } else {
            None
        }
    }

    /// Classifies the vector by the signature of `basis`.
    pub fn square(&self, basis: &Basis) -> (r: Result<SquaredElement, BasisError>)
        ensures
            r == (match square_of(*basis, self.0) {
                Some(s) => Ok(s),
                None => Err(BasisError::IndexOutOfRange(self.0)),
            }),
    {
        let idx = self.0;
        if idx < basis.zero {
            Ok(SquaredElement::Zero)
        } else if idx - basis.zero < basis.positive {
            Ok(SquaredElement::One)
        } else if idx - basis.zero - basis.positive < basis.negative {
            Ok(SquaredElement::MinusOne)
        } else {
            Err(BasisError::IndexOutOfRange(idx))
        }
    }
}

} // verus!

verus! {

/// The indices `0, 1, ..., n - 1`.
pub open spec fn index_range(n: nat) -> Seq<usize> {
    Seq::new(n, |i: int| i as usize)
}

/// The subsequences of `xs` of length `k`: first those that keep `xs[0]`,
/// then those that skip it, each group in the same order.
pub open spec fn combos(xs: Seq<usize>, k: nat) -> Seq<Seq<usize>>
    decreases xs.len(),
{
    if k > xs.len() {
        Seq::empty()
    } else if k == 0 {
        seq![Seq::empty()]
    } else {
        combos(xs.drop_first(), (k - 1) as nat).map_values(|c: Seq<usize>| seq![xs[0]] + c)
            + combos(xs.drop_first(), k)
    }
}

/// The blades of every grade below `g`, grade by grade.
pub open spec fn grades_below(xs: Seq<usize>, g: nat) -> Seq<Seq<usize>>
    decreases g,
{
    if g == 0 {
        Seq::empty()
    } else {
        grades_below(xs, (g - 1) as nat) + combos(xs, (g - 1) as nat)
    }
}

/// The blades of a list, as index sequences.
pub open spec fn views(es: Seq<Element>) -> Seq<Seq<usize>> {
    es.map_values(|e: Element| e@)
}

/// Every subsequence of an ascending sequence has `k` ascending entries, each
/// taken from `xs`.
pub proof fn lemma_combos_increasing(xs: Seq<usize>, k: nat)
    requires
        increasing(xs),
    ensures
        forall|i: int|
            0 <= i < combos(xs, k).len() ==> {
                &&& increasing(#[trigger] combos(xs, k)[i])
                &&& combos(xs, k)[i].len() == k
                &&& forall|j: int|
                    0 <= j < combos(xs, k)[i].len() ==> xs.contains(combos(xs, k)[i][j])
            },
    decreases xs.len(),
{
    if k > xs.len() || k == 0 {
    } else {
        let t = xs.drop_first();
        lemma_combos_increasing(t, (k - 1) as nat);
        lemma_combos_increasing(t, k);
        let with = combos(t, (k - 1) as nat);
        let without = combos(t, k);
        let mapped = with.map_values(|c: Seq<usize>| seq![xs[0]] + c);
        assert forall|i: int| 0 <= i < combos(xs, k).len() implies {
            &&& increasing(#[trigger] combos(xs, k)[i])
            &&& combos(xs, k)[i].len() == k
            &&& forall|j: int|
                0 <= j < combos(xs, k)[i].len() ==> xs.contains(combos(xs, k)[i][j])
        } by {
            let c = combos(xs, k)[i];
            if i < mapped.len() {
                let d = with[i];
                assert(c == seq![xs[0]] + d);
                assert forall|j: int| 0 <= j < c.len() implies xs.contains(c[j]) by {
                    if j == 0 {
                        assert(xs[0] == c[j]);
                    } else {
                        assert(c[j] == d[j - 1]);
                        let m = choose|m: int| 0 <= m < t.len() && t[m] == d[j - 1];
                        assert(xs[m + 1] == c[j]);
                    }
                }
                assert forall|p: int, q: int| 0 <= p < q < c.len() implies c[p] < c[q] by {
                    assert(c[q] == d[q - 1]);
                    if p > 0 {
                        assert(c[p] == d[p - 1]);
                    } else {
                        let m = choose|m: int| 0 <= m < t.len() && t[m] == d[q - 1];
                        assert(xs[m + 1] == c[q]);
                    }
                }
            } else {
                let d = without[i - mapped.len()];
                assert(c == d);
                assert forall|j: int| 0 <= j < c.len() implies xs.contains(c[j]) by {
                    let m = choose|m: int| 0 <= m < t.len() && t[m] == d[j];
                    assert(xs[m + 1] == c[j]);
                }
            }
        }
    }
}

/// All subsequences of `xs[start..]` of length `k`, in the order of `combos`.
fn combinations(xs: &Vec<usize>, start: usize, k: usize) -> (r: Vec<Vec<usize>>)
    requires
        start <= xs.len(),
    ensures
        r@.len() == combos(xs@.subrange(start as int, xs.len() as int), k as nat).len(),
        forall|i: int|
            0 <= i < r@.len() ==> #[trigger] r@[i]@ == combos(
                xs@.subrange(start as int, xs.len() as int),
                k as nat,
            )[i],
    decreases xs.len() - start,
{
    let ghost x = xs@.subrange(start as int, xs.len() as int);
    if k > xs.len() - start {
        return Vec::new();
    }
    if k == 0 {
        let mut r: Vec<Vec<usize>> = Vec::new();
        r.push(Vec::new());
        return r;
    }
    assert(x.drop_first() =~= xs@.subrange(start + 1, xs.len() as int));
    assert(x[0] == xs[start as int]);
    let head = xs[start];
    let with = combinations(xs, start + 1, k - 1);
    let without = combinations(xs, start + 1, k);
    let ghost mapped = combos(x.drop_first(), (k - 1) as nat).map_values(
        |c: Seq<usize>| seq![x[0]] + c,
    );
    let mut r: Vec<Vec<usize>> = Vec::new();
    let mut i: usize = 0;
    while i < with.len()
        invariant
            0 <= i <= with.len(),
            r@.len() == i,
            mapped.len() == with.len(),
            mapped == combos(x.drop_first(), (k - 1) as nat).map_values(
                |c: Seq<usize>| seq![x[0]] + c,
            ),
            forall|j: int| 0 <= j < i ==> #[trigger] r@[j]@ == mapped[j],
            forall|j: int| 0 <= j < with.len() ==> #[trigger] with@[j]@ == combos(x.drop_first(), (k - 1) as nat)[j],
            head == x[0],
        decreases with.len() - i,
    {
        let mut c: Vec<usize> = Vec::new();
        c.push(head);
        let mut j: usize = 0;
        while j < with[i].len()
            invariant
                0 <= i < with.len(),
                0 <= j <= with@[i as int]@.len(),
                c@ == seq![head] + with@[i as int]@.subrange(0, j as int),
            decreases with@[i as int]@.len() - j,
        {
            c.push(with[i][j]);
            j = j + 1;
            assert(c@ =~= seq![head] + with@[i as int]@.subrange(0, j as int));
        }
        assert(with@[i as int]@.subrange(0, j as int) =~= with@[i as int]@);
        assert(mapped[i as int] == seq![x[0]] + combos(x.drop_first(), (k - 1) as nat)[i as int]);
        assert(c@ =~= mapped[i as int]);
        r.push(c);
        i = i + 1;
    }
    let mut i: usize = 0;
    let ghost base = r@.len();
    while i < without.len()
        invariant
            0 <= i <= without.len(),
            r@.len() == base + i,
            base == mapped.len(),
            forall|j: int| 0 <= j < base ==> #[trigger] r@[j]@ == mapped[j],
            forall|j: int| base <= j < base + i ==> #[trigger] r@[j]@ == without@[j - base]@,
        decreases without.len() - i,
    {
        r.push(without[i].clone());
        i = i + 1;
    }
    r
}

impl Basis {
    /// Every basis vector, by ascending index.
    pub fn vectors(&self) -> (r: Vec<Vector>)
        requires
            self.wf(),
        ensures
            r@.len() == self.dim(),
            forall|i: int| 0 <= i < r@.len() ==> (#[trigger] r@[i]).0 == i,
    {
        let n = self.zero + self.positive + self.negative;
        let mut r: Vec<Vector> = Vec::new();
        let mut i: usize = 0;
        while i < n
            invariant
                0 <= i <= n,
                n == self.dim(),
                r@.len() == i,
                forall|j: int| 0 <= j < i ==> (#[trigger] r@[j]).0 == j,
            decreases n - i,
        {
            r.push(Vector(i));
            i = i + 1;
        }
        r
    }

    /// The blades of grade `n`: every set of `n` distinct basis vectors.
    pub fn grade(&self, n: usize) -> (r: Vec<Element>)
        requires
            self.wf(),
        ensures
            views(r@) == combos(index_range(self.dim() as nat), n as nat),
            forall|i: int| 0 <= i < r@.len() ==> (#[trigger] r@[i]).wf(),
    {
        let vs = self.vectors();
        let mut idx: Vec<usize> = Vec::new();
        let mut i: usize = 0;
        while i < vs.len()
            invariant
                0 <= i <= vs.len(),
                vs@.len() == self.dim(),
                forall|j: int| 0 <= j < vs@.len() ==> (#[trigger] vs@[j]).0 == j,
                idx@ == index_range(i as nat),
            decreases vs.len() - i,
        {
            idx.push(vs[i].0);
            i = i + 1;
            assert(idx@ =~= index_range(i as nat));
        }
        let ghost xs = index_range(self.dim() as nat);
        assert(idx@.subrange(0, idx@.len() as int) =~= xs);
        proof {
            lemma_combos_increasing(xs, n as nat);
        }
        let cs = combinations(&idx, 0, n);
        let mut r: Vec<Element> = Vec::new();
        let mut i: usize = 0;
        while i < cs.len()
            invariant
                0 <= i <= cs.len(),
                cs@.len() == combos(xs, n as nat).len(),
                forall|j: int| 0 <= j < cs@.len() ==> #[trigger] cs@[j]@ == combos(xs, n as nat)[j],
                forall|j: int| 0 <= j < combos(xs, n as nat).len() ==> increasing(#[trigger] combos(xs, n as nat)[j]),
                r@.len() == i,
                forall|j: int| 0 <= j < i ==> #[trigger] r@[j]@ == cs@[j]@ && r@[j].wf(),
            decreases cs.len() - i,
        {
            r.push(Element::from_sorted(cs[i].clone()));
            i = i + 1;
        }
        assert(views(r@) =~= combos(xs, n as nat));
        r
    }

    /// The blades of all grades, from the scalar up to the whole basis.
    pub fn elements(&self) -> (r: Vec<Element>)
        requires
            self.wf(),
        ensures
            views(r@) == grades_below(index_range(self.dim() as nat), (self.dim() + 1) as nat),
            forall|i: int| 0 <= i < r@.len() ==> (#[trigger] r@[i]).wf(),
    {
        let n = self.zero + self.positive + self.negative;
        let ghost xs = index_range(self.dim() as nat);
        let mut r: Vec<Element> = Vec::new();
        let mut g: usize = 0;
        loop
            invariant_except_break
                views(r@) == grades_below(xs, g as nat),
            invariant
                0 <= g <= n,
                n == self.dim(),
                self.wf(),
                xs == index_range(self.dim() as nat),
                forall|i: int| 0 <= i < r@.len() ==> (#[trigger] r@[i]).wf(),
            ensures
                views(r@) == grades_below(xs, (n + 1) as nat),
                forall|i: int| 0 <= i < r@.len() ==> (#[trigger] r@[i]).wf(),
            decreases n - g,
        {
            let mut next = self.grade(g);
            let ghost nv = next@;
            let ghost old_r = r@;
            r.append(&mut next);
            assert(r@ == old_r + nv);
            assert(views(nv) == combos(xs, g as nat));
            assert forall|i: int| 0 <= i < r@.len() implies #[trigger] views(r@)[i] == (views(old_r) + combos(xs, g as nat))[i] by {
                if i >= old_r.len() {
                    assert(views(nv)[i - old_r.len()] == nv[i - old_r.len()]@);
                }
            }
            assert(views(r@) =~= views(old_r) + combos(xs, g as nat));
            if g == n {
                break;
            }
            g = g + 1;
        }
        r
    }
}

} // verus!
