use vstd::prelude::*;
use crate::metrizable::{faithful_clone, Metrizable};

verus! {

/// The cost of the edge that leaves position `i` of the cycle `s`: from `s[i]`
/// to its successor, which for the last position is `s[0]`.
pub open spec fn leg<T: Metrizable>(s: Seq<T>, i: int) -> nat
    recommends
        0 <= i < s.len(),
{
    s[i].metric(&s[(i + 1) % (s.len() as int)]) as nat
}

/// The position that follows `p` on a cycle of `n` positions.
pub open spec fn next_on_cycle(n: int, p: int) -> int {
    if p + 1 == n {
        0
    } else {
        p + 1
    }
}

/// A leg goes from a position to the one that follows it on the cycle.
pub proof fn lemma_leg<T: Metrizable>(s: Seq<T>, p: int)
    requires
        0 <= p < s.len(),
    ensures
        leg(s, p) == s[p].metric(&s[next_on_cycle(s.len() as int, p)]),
{
    let n = s.len() as int;
    if p + 1 == n {
        assert(n % n == 0) by (nonlinear_arith)
            requires
                n > 0,
        ;
    } else {
        assert((p + 1) % n == p + 1) by (nonlinear_arith)
            requires
                0 <= p + 1 < n,
        ;
    }
}

/// The sum of the first `k` legs of the cycle `s`.
pub open spec fn legs<T: Metrizable>(s: Seq<T>, k: nat) -> nat
    decreases k,
{
    if k == 0 {
        0
    } else {
        legs(s, (k - 1) as nat) + leg(s, k - 1)
    }
}

/// The length of the cycle `s`: the sum of the costs of all its edges, the one
/// from the last node back to the first included. An empty cycle has length 0.
pub open spec fn tour_length<T: Metrizable>(s: Seq<T>) -> nat {
    legs(s, s.len())
}

/// The first `k` legs cost at most `k` times the largest cost.
pub proof fn lemma_legs_bound<T: Metrizable>(s: Seq<T>, k: nat)
    ensures
        legs(s, k) <= k * u64::MAX,
    decreases k,
{
    if k > 0 {
        lemma_legs_bound(s, (k - 1) as nat);
        assert(legs(s, k) <= (k - 1) * u64::MAX + u64::MAX);
        assert((k - 1) * u64::MAX + u64::MAX == k * u64::MAX) by (nonlinear_arith);
    }
}

/// The length of any cycle that a `Vec` can hold fits in a `u128`, and stays
/// below its largest value.
pub proof fn lemma_tour_length_fits<T: Metrizable>(s: Seq<T>)
    requires
        s.len() <= usize::MAX,
    ensures
        tour_length(s) < u128::MAX,
{
    lemma_legs_bound(s, s.len());
    assert(s.len() * u64::MAX < u128::MAX) by (nonlinear_arith)
        requires
            s.len() <= u64::MAX,
    ;
}

/// The length of a cycle of no more than `isize::MAX` nodes fits in an `i128`.
pub proof fn lemma_tour_length_signed<T: Metrizable>(s: Seq<T>)
    requires
        s.len() <= isize::MAX,
    ensures
        tour_length(s) <= i128::MAX,
{
    lemma_legs_bound(s, s.len());
    assert(s.len() * u64::MAX <= i128::MAX) by (nonlinear_arith)
        requires
            s.len() <= 0x7fff_ffff_ffff_ffff,
    ;
}

/// The length of the cycle that `path` holds.
pub fn length<T: Metrizable>(path: &Vec<T>) -> (total: u128)
    ensures
        total == tour_length(path@),
{
    let n: usize = path.len();
    let mut total: u128 = 0;
    let mut i: usize = 0;
    while i < n
        invariant
            n == path.len(),
            i <= n,
            total == legs(path@, i as nat),
        decreases n - i,
    {
        let next: usize = if i + 1 == n { 0 } else { i + 1 };
        let c: u64 = path[i].cost(&path[next]);
        proof {
            lemma_legs_bound(path@, i as nat);
            assert(i * u64::MAX + u64::MAX <= u128::MAX) by (nonlinear_arith)
                requires
                    i < u64::MAX,
            ;
            lemma_leg(path@, i as int);
        }
        total = total + c as u128;
        i = i + 1;
    }
    total
}

/// A solution to the travelling salesman problem for nodes of type `T`: the
/// cycle `path[0] -> path[1] -> ... -> path[len - 1] -> path[0]`.
#[derive(Debug, Clone, PartialEq)]
pub struct Tour<T: Metrizable> {
    pub path: Vec<T>,
}

impl<T: Metrizable> View for Tour<T> {
    type V = Seq<T>;

    open spec fn view(&self) -> Seq<T> {
        self.path@
    }
}

impl<T: Metrizable + Clone> Tour<T> {
    /// A tour of no nodes.
    pub fn new() -> (tour: Tour<T>)
        ensures
            tour@ == Seq::<T>::empty(),
    {
        Tour { path: Vec::new() }
    }

    /// The tour that visits `nodes` in the order given. The nodes are copied:
    /// the tour shares nothing with `nodes`.
    pub fn from(nodes: &Vec<T>) -> (tour: Tour<T>)
        ensures
            tour@.len() == nodes@.len(),
            forall|i: int| 0 <= i < nodes@.len() ==> cloned(nodes@[i], #[trigger] tour@[i]),
            faithful_clone::<T>() ==> tour@ == nodes@,
    {
        let path: Vec<T> = nodes.clone();
        assert(faithful_clone::<T>() ==> path@ =~= nodes@);
        Tour { path }
    }

    /// The length of the tour.
    pub fn tour_len(&self) -> (total: u128)
        ensures
            total == tour_length(self@),
    {
        length(&self.path)
    }

    /// The length of the tour; the same as `tour_len`.
    pub fn path_len(&self) -> (total: u128)
        ensures
            total == tour_length(self@),
    {
        length(&self.path)
    }
}

/// A tour that carries its length along: the solvers on it leave in `len` the
/// length of the cycle that they leave in `path`.
#[derive(Debug, Clone, PartialEq)]
pub struct Path<T: Metrizable> {
    pub path: Vec<T>,
    pub len: u128,
}

impl<T: Metrizable> View for Path<T> {
    type V = Seq<T>;

    open spec fn view(&self) -> Seq<T> {
        self.path@
    }
}

impl<T: Metrizable + Clone> Path<T> {
    /// Whether `len` is the length of the cycle in `path`.
    pub open spec fn measured(&self) -> bool {
        self.len == tour_length(self@)
    }

    /// The tour that visits `nodes` in the order given, with its length. The
    /// nodes are copied.
    pub fn from(nodes: &Vec<T>) -> (tour: Path<T>)
        ensures
            tour@.len() == nodes@.len(),
            forall|i: int| 0 <= i < nodes@.len() ==> cloned(nodes@[i], #[trigger] tour@[i]),
            faithful_clone::<T>() ==> tour@ == nodes@,
            tour.measured(),
    {
        let path: Vec<T> = nodes.clone();
        assert(faithful_clone::<T>() ==> path@ =~= nodes@);
        let len: u128 = length(&path);
        Path { path, len }
    }
}

/// A value together with the position that it was found at.
#[derive(Clone)]
pub struct IndexedT<T> {
    pub index: usize,
    pub value: T,
}

/// The nodes of `s`, each paired with its position.
pub open spec fn indexed<'a, T>(s: Seq<T>) -> Seq<IndexedT<&'a T>> {
    Seq::new(s.len(), |i: int| IndexedT { index: i as usize, value: &s[i] })
}

/// Pairs each node of `path` with its position.
pub fn index_path<T>(path: &Vec<T>) -> (nodes: Vec<IndexedT<&T>>)
    ensures
        nodes@ == indexed(path@),
{
    let mut nodes: Vec<IndexedT<&T>> = Vec::new();
    let mut index: usize = 0;
    while index < path.len()
        invariant
            index <= path@.len(),
            nodes@.len() == index,
            forall|i: int|
                0 <= i < index ==> (#[trigger] nodes@[i]).index == i && *nodes@[i].value
                    == path@[i],
        decreases path@.len() - index,
    {
        nodes.push(IndexedT { index, value: &path[index] });
        index = index + 1;
    }
    assert(nodes@ =~= indexed(path@));
    nodes
}

} // verus!
