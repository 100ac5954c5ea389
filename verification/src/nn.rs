use std::collections::HashSet;
use vstd::multiset::Multiset;
use vstd::prelude::*;
use crate::common::{index_path, indexed, length, IndexedT, Path, Tour};
use crate::kopt::rand_index;
use crate::metrizable::Metrizable;

verus! {

/// Whether the candidate at position `p` of `others` is the one that a scan for
/// the nearest neighbour of `node` selects: it is not visited, no candidate that
/// is not visited is nearer, and none that stands before it is as near.
pub open spec fn is_nearest<T: Metrizable>(
    node: T,
    others: Seq<IndexedT<&T>>,
    visited: Set<usize>,
    p: int,
) -> bool {
    &&& 0 <= p < others.len()
    &&& !visited.contains(others[p].index)
    &&& forall|q: int|
        0 <= q < others.len() && !visited.contains(#[trigger] others[q].index) ==> node.metric(
            others[p].value,
        ) <= node.metric(others[q].value)
    &&& forall|q: int|
        0 <= q < p && !visited.contains(#[trigger] others[q].index) ==> node.metric(
            others[p].value,
        ) < node.metric(others[q].value)
}

/// The position of the candidate that a scan for the nearest neighbour of
/// `node` selects, where there is one.
pub open spec fn nearest<T: Metrizable>(
    node: T,
    others: Seq<IndexedT<&T>>,
    visited: Set<usize>,
) -> int {
    choose|p: int| is_nearest(node, others, visited, p)
}

/// A scan selects at most one candidate.
pub proof fn lemma_nearest_unique<T: Metrizable>(
    node: T,
    others: Seq<IndexedT<&T>>,
    visited: Set<usize>,
    p: int,
)
    requires
        is_nearest(node, others, visited, p),
    ensures
        nearest(node, others, visited) == p,
{
    let q = nearest(node, others, visited);
    assert(is_nearest(node, others, visited, q));
    if q < p {
        assert(!visited.contains(others[q].index));
    } else if p < q {
        assert(!visited.contains(others[p].index));
    }
}

/// The positions of `s` in the order in which the nearest-neighbour walk from
/// position `start` visits them, as far as its first `len` steps: the start,
/// then each time the nearest position not yet visited, the first of them where
/// several are equally near.
pub open spec fn nn_order<T: Metrizable>(s: Seq<T>, start: usize, len: nat) -> Seq<usize>
    decreases len,
{
    if len == 0 {
        Seq::empty()
    } else if len == 1 {
        seq![start]
    } else {
        let prior = nn_order(s, start, (len - 1) as nat);
        prior.push(nearest(s[prior.last() as int], indexed(s), prior.to_set()) as usize)
    }
}

/// The nodes of `s` at the positions `order`, in that order.
pub open spec fn walked<T>(s: Seq<T>, order: Seq<usize>) -> Seq<T> {
    order.map_values(|p: usize| s[p as int])
}

/// The tour that the nearest-neighbour walk from position `start` makes of the
/// nodes `s`.
pub open spec fn nn_tour<T: Metrizable>(s: Seq<T>, start: usize) -> Seq<T> {
    walked(s, nn_order(s, start, s.len()))
}

/// The nodes of `s` at the positions below `n` that `visited` does not hold.
pub open spec fn unvisited<T>(s: Seq<T>, visited: Set<usize>, n: nat) -> Multiset<T>
    decreases n,
{
    if n == 0 {
        Multiset::empty()
    } else if visited.contains((n - 1) as usize) {
        unvisited(s, visited, (n - 1) as nat)
    } else {
        unvisited(s, visited, (n - 1) as nat).insert(s[n - 1])
    }
}

/// With nothing visited, the unvisited nodes below `n` are the first `n` nodes.
proof fn lemma_unvisited_all<T>(s: Seq<T>, n: nat)
    requires
        n <= s.len(),
    ensures
        unvisited(s, Set::empty(), n) == s.take(n as int).to_multiset(),
    decreases n,
{
    broadcast use vstd::seq_lib::group_to_multiset_ensures;

    if n == 0 {
        assert(s.take(0) =~= Seq::<T>::empty());
    } else {
        lemma_unvisited_all(s, (n - 1) as nat);
        assert(s.take(n as int) =~= s.take(n - 1).push(s[n - 1]));
    }
}

/// Visiting a position takes its node, once, out of the unvisited nodes.
proof fn lemma_unvisited_visit<T>(s: Seq<T>, visited: Set<usize>, n: nat, p: usize)
    requires
        n <= s.len() <= usize::MAX,
        p < s.len(),
        !visited.contains(p),
    ensures
        p < n ==> unvisited(s, visited, n).count(s[p as int]) > 0,
        unvisited(s, visited.insert(p), n) == if p < n {
            unvisited(s, visited, n).remove(s[p as int])
        } else {
            unvisited(s, visited, n)
        },
    decreases n,
{
    broadcast use vstd::multiset::group_multiset_axioms;

    if n > 0 {
        lemma_unvisited_visit(s, visited, (n - 1) as nat, p);
        let below = unvisited(s, visited, (n - 1) as nat);
        if p == n - 1 {
            assert(unvisited(s, visited.insert(p), n) =~= below.insert(s[p as int]).remove(
                s[p as int],
            ));
        } else if visited.contains((n - 1) as usize) {
        } else if p < n {
            assert(below.remove(s[p as int]).insert(s[n - 1]) =~= below.insert(s[n - 1]).remove(
                s[p as int],
            ));
        }
    }
}

/// Once every position below `n` is visited, no unvisited node is left.
proof fn lemma_unvisited_none<T>(s: Seq<T>, visited: Set<usize>, n: nat)
    requires
        n <= usize::MAX,
        forall|q: usize| q < n ==> visited.contains(q),
    ensures
        unvisited(s, visited, n) == Multiset::<T>::empty(),
    decreases n,
{
    if n > 0 {
        lemma_unvisited_none(s, visited, (n - 1) as nat);
        assert(visited.contains((n - 1) as usize));
    }
}

/// The candidate that a scan of the first `m` candidates selects, or -1 if all
/// of them are visited.
proof fn lemma_scan<T: Metrizable>(
    node: T,
    others: Seq<IndexedT<&T>>,
    visited: Set<usize>,
    m: nat,
) -> (p: int)
    requires
        m <= others.len(),
    ensures
        p == -1 ==> forall|r: int| 0 <= r < m ==> visited.contains(#[trigger] others[r].index),
        p != -1 ==> {
            &&& 0 <= p < m
            &&& !visited.contains(others[p].index)
            &&& forall|r: int|
                0 <= r < m && !visited.contains(#[trigger] others[r].index) ==> node.metric(
                    others[p].value,
                ) <= node.metric(others[r].value)
            &&& forall|r: int|
                0 <= r < p && !visited.contains(#[trigger] others[r].index) ==> node.metric(
                    others[p].value,
                ) < node.metric(others[r].value)
        },
    decreases m,
{
    if m == 0 {
        -1
    } else {
        let prior = lemma_scan(node, others, visited, (m - 1) as nat);
        if visited.contains(others[m - 1].index) {
            prior
        } else if prior == -1 {
            m - 1
        } else if node.metric(others[m - 1].value) < node.metric(others[prior].value) {
            m - 1
        } else {
            prior
        }
    }
}

/// Where a candidate is left that is not visited, a scan selects one.
pub proof fn lemma_nearest_exists<T: Metrizable>(
    node: T,
    others: Seq<IndexedT<&T>>,
    visited: Set<usize>,
    q: int,
)
    requires
        0 <= q < others.len(),
        !visited.contains(others[q].index),
    ensures
        is_nearest(node, others, visited, nearest(node, others, visited)),
{
    let p = lemma_scan(node, others, visited, others.len());
    assert(is_nearest(node, others, visited, p));
}

/// What holds of the first `len` steps of the nearest-neighbour walk: it has
/// visited that many positions of the cycle, the start first and none twice,
/// each step went to the nearest position not yet visited, and the nodes
/// visited together with the nodes not yet visited are the nodes of the cycle.
pub proof fn lemma_nn_order<T: Metrizable>(s: Seq<T>, start: usize, len: nat)
    requires
        start < s.len() <= usize::MAX,
        1 <= len <= s.len(),
    ensures
        ({
            let order = nn_order(s, start, len);
            &&& order.len() == len
            &&& order[0] == start
            &&& order.no_duplicates()
            &&& forall|t: int| 0 <= t < len ==> order[t] < s.len()
            &&& len >= 2 ==> is_nearest(
                s[order[len - 2] as int],
                indexed(s),
                order.drop_last().to_set(),
                order[len - 1] as int,
            )
            &&& walked(s, order).to_multiset().add(unvisited(s, order.to_set(), s.len()))
                == s.to_multiset()
            &&& len + unvisited(s, order.to_set(), s.len()).len() == s.len()
        }),
    decreases len,
{
    broadcast use vstd::multiset::group_multiset_axioms;
    broadcast use vstd::seq_lib::group_to_multiset_ensures;

    let n = s.len();
    let order = nn_order(s, start, len);
    if len == 1 {
        lemma_unvisited_all(s, n);
        assert(s.take(n as int) =~= s);
        lemma_unvisited_visit(s, Set::empty(), n, start);
        assert(order.to_set() =~= Set::<usize>::empty().insert(start)) by {
            assert(order[0] == start);
        }
        assert(walked(s, order) =~= Seq::<T>::empty().push(s[start as int]));
        assert(walked(s, order).to_multiset().add(unvisited(s, order.to_set(), n))
            =~= s.to_multiset());
    } else {
        let prior = nn_order(s, start, (len - 1) as nat);
        lemma_nn_order(s, start, (len - 1) as nat);
        let seen = prior.to_set();
        let left = unvisited(s, seen, n);
        assert(left.len() > 0);
        if forall|q: usize| q < n ==> seen.contains(q) {
            lemma_unvisited_none(s, seen, n);
        }
        let q = choose|q: usize| q < n && !seen.contains(q);
        assert(indexed(s)[q as int].index == q);
        lemma_nearest_exists(s[prior.last() as int], indexed(s), seen, q as int);
        let p = nearest(s[prior.last() as int], indexed(s), seen);
        assert(indexed(s)[p].index == p);
        assert(order == prior.push(p as usize));
        assert(order.drop_last() =~= prior);
        lemma_unvisited_visit(s, seen, n, p as usize);
        prior.lemma_push_to_set_commute(p as usize);
        assert(order.no_duplicates()) by {
            assert forall|t: int, u: int|
                0 <= t < order.len() && 0 <= u < order.len() && t != u implies order[t]
                != order[u] by {
                if t < prior.len() && u < prior.len() {
                    assert(prior[t] != prior[u]);
                } else if t < prior.len() {
                    assert(seen.contains(prior[t]));
                } else {
                    assert(seen.contains(prior[u]));
                }
            }
        }
        assert(walked(s, order) =~= walked(s, prior).push(s[p]));
        vstd::seq_lib::to_multiset_build(walked(s, prior), s[p]);
        let before = walked(s, prior).to_multiset();
        assert(before.insert(s[p]).add(left.remove(s[p])) =~= before.add(left));
    }
}

/// The nearest-neighbour walk visits every node of the cycle, each as often
/// as the cycle holds it: its tour is a rearrangement of the cycle, and starts
/// at the start.
pub proof fn lemma_nn_tour_permutes<T: Metrizable>(s: Seq<T>, start: usize)
    requires
        start < s.len() <= usize::MAX,
    ensures
        nn_tour(s, start).len() == s.len(),
        nn_tour(s, start)[0] == s[start as int],
        nn_tour(s, start).to_multiset() == s.to_multiset(),
{
    broadcast use vstd::multiset::group_multiset_axioms;

    lemma_nn_order(s, start, s.len());
    let order = nn_order(s, start, s.len());
    let left = unvisited(s, order.to_set(), s.len());
    assert(left.len() == 0);
    assert(left =~= Multiset::<T>::empty());
    assert(walked(s, order).to_multiset().add(left) =~= walked(s, order).to_multiset());
}

/// The first `n` positions, each in its own place.
pub open spec fn in_order(n: nat) -> Seq<usize> {
    Seq::new(n, |i: int| i as usize)
}

/// The tour that construction makes of the tour `given` when it draws the
/// position `start`: the tour as given if it is constructed already, that is,
/// if it is its own nearest-neighbour walk from its first node; else the tour
/// of the walk from `start`.
pub open spec fn constructed<T: Metrizable>(given: Seq<T>, start: usize) -> Seq<T> {
    if nn_tour(given, 0) == given {
        given
    } else {
        nn_tour(given, start)
    }
}

/// The first steps of a walk are the walk of that many steps.
pub proof fn lemma_nn_order_prefix<T: Metrizable>(s: Seq<T>, start: usize, len: nat, more: nat)
    requires
        len <= more,
    ensures
        nn_order(s, start, more).len() == more,
        nn_order(s, start, more).take(len as int) == nn_order(s, start, len),
    decreases more,
{
    if more == 0 {
        assert(nn_order(s, start, more).take(0) =~= nn_order(s, start, 0));
    } else if more == 1 {
        if len == 0 {
            assert(nn_order(s, start, more).take(0) =~= nn_order(s, start, 0));
        } else {
            assert(nn_order(s, start, more).take(1) =~= nn_order(s, start, 1));
        }
    } else {
        lemma_nn_order_prefix(s, start, (more - 1) as nat, (more - 1) as nat);
        if len == more {
            assert(nn_order(s, start, more).take(len as int) =~= nn_order(s, start, more));
        } else {
            lemma_nn_order_prefix(s, start, len, (more - 1) as nat);
            let fewer = nn_order(s, start, (more - 1) as nat);
            assert(nn_order(s, start, more).take(len as int) =~= fewer.take(len as int));
        }
    }
}

/// The positions below `len`, each in its own place, are the set of the
/// positions below `len`.
proof fn lemma_in_order_holds(len: nat, q: usize)
    requires
        len <= usize::MAX,
    ensures
        in_order(len).to_set().contains(q) <==> q < len,
{
    if q < len {
        assert(in_order(len)[q as int] == q);
    }
    if in_order(len).to_set().contains(q) {
        let at = choose|at: int| 0 <= at < in_order(len).len() && in_order(len)[at] == q;
        assert(at == q);
    }
}

/// A tour whose nodes stand as its walk from its first node visits them is
/// walked in the order of its positions.
proof fn lemma_own_walk_in_order<T: Metrizable>(s: Seq<T>, len: nat)
    requires
        0 < s.len() <= usize::MAX,
        1 <= len <= s.len(),
        nn_tour(s, 0) == s,
    ensures
        nn_order(s, 0, len) == in_order(len),
    decreases len,
{
    let n = s.len();
    let whole = nn_order(s, 0, n);
    lemma_nn_order_prefix(s, 0, len, n);
    lemma_nn_order(s, 0, len);
    let order = nn_order(s, 0, len);
    if len == 1 {
        assert(order =~= in_order(1));
    } else {
        lemma_own_walk_in_order(s, (len - 1) as nat);
        let prior = nn_order(s, 0, (len - 1) as nat);
        assert(order.drop_last() =~= prior);
        let here = (len - 1) as usize;
        let q = order[len - 1];
        assert(nn_tour(s, 0)[len - 1] == s[whole[len - 1] as int]);
        assert(whole[len - 1] == q) by {
            assert(whole.take(len as int)[len - 1] == whole[len - 1]);
        }
        assert(s[q as int] == s[len - 1]);
        lemma_in_order_holds((len - 1) as nat, q);
        lemma_in_order_holds((len - 1) as nat, here);
        assert(!prior.to_set().contains(q)) by {
            if prior.to_set().contains(q) {
                let at = choose|at: int| 0 <= at < prior.len() && prior[at] == q;
                assert(order[at] == q);
            }
        }
        if q > here {
            // The walk takes the first of the nodes that are equally near.
            assert(indexed(s)[here as int].index == here);
            assert(indexed(s)[q as int].index == q);
            let node = s[prior.last() as int];
            assert(node.metric(&s[q as int]) < node.metric(&s[here as int]));
        }
        assert(order =~= in_order(len));
    }
}

/// A tour is its own walk from its first node exactly if that walk visits the
/// positions in their order.
pub proof fn lemma_own_walk<T: Metrizable>(s: Seq<T>)
    requires
        0 < s.len() <= usize::MAX,
    ensures
        nn_tour(s, 0) == s <==> nn_order(s, 0, s.len()) == in_order(s.len()),
{
    if nn_tour(s, 0) == s {
        lemma_own_walk_in_order(s, s.len());
    }
    if nn_order(s, 0, s.len()) == in_order(s.len()) {
        assert(nn_tour(s, 0) =~= s);
    }
}

/// The walk over the tour of a walk, from its first node, visits the positions
/// in their order.
proof fn lemma_walk_in_order<T: Metrizable>(s: Seq<T>, start: usize, len: nat)
    requires
        start < s.len() <= usize::MAX,
        1 <= len <= s.len(),
    ensures
        nn_order(nn_tour(s, start), 0, len) == in_order(len),
    decreases len,
{
    let n = s.len();
    let whole = nn_order(s, start, n);
    let w = nn_tour(s, start);
    lemma_nn_order(s, start, n);
    assert(w.len() == n);
    if len == 1 {
        assert(nn_order(w, 0, len) =~= in_order(1));
    } else {
        lemma_walk_in_order(s, start, (len - 1) as nat);
        let prior = in_order((len - 1) as nat);
        let here = (len - 1) as usize;
        lemma_nn_order_prefix(s, start, len, n);
        lemma_nn_order(s, start, len);
        let part = nn_order(s, start, len);
        assert(part.drop_last() =~= whole.take(len - 1));
        let node = w[prior.last() as int];
        assert(node == s[part[len - 2] as int]) by {
            assert(prior.last() == len - 2);
            assert(whole.take(len as int)[len - 2] == whole[len - 2]);
        }
        assert(is_nearest(node, indexed(w), prior.to_set(), here as int)) by {
            lemma_in_order_holds((len - 1) as nat, here);
            assert(indexed(w)[here as int].index == here);
            assert(whole.take(len as int)[len - 1] == whole[len - 1]);
            assert forall|q: int|
                0 <= q < indexed(w).len() && !prior.to_set().contains(
                    #[trigger] indexed(w)[q].index,
                ) implies node.metric(indexed(w)[here as int].value) <= node.metric(
                indexed(w)[q].value,
            ) by {
                lemma_in_order_holds((len - 1) as nat, q as usize);
                let m = whole[q];
                assert(indexed(s)[m as int].index == m);
                assert(!part.drop_last().to_set().contains(m)) by {
                    if part.drop_last().to_set().contains(m) {
                        let at = choose|at: int|
                            0 <= at < part.drop_last().len() && part.drop_last()[at] == m;
                        assert(whole[at] == m);
                    }
                }
            }
            assert forall|q: int|
                0 <= q < here && !prior.to_set().contains(
                    #[trigger] indexed(w)[q].index,
                ) implies node.metric(indexed(w)[here as int].value) < node.metric(
                indexed(w)[q].value,
            ) by {
                lemma_in_order_holds((len - 1) as nat, q as usize);
            }
        }
        lemma_nearest_unique(node, indexed(w), prior.to_set(), here as int);
        assert(nn_order(w, 0, len) =~= in_order(len));
    }
}

/// The tour of a walk is constructed: it is its own walk from its first node.
pub proof fn lemma_walk_is_constructed<T: Metrizable>(s: Seq<T>, start: usize)
    requires
        start < s.len() <= usize::MAX,
    ensures
        nn_tour(nn_tour(s, start), 0) == nn_tour(s, start),
        forall|again: usize| constructed(nn_tour(s, start), again) == nn_tour(s, start),
{
    lemma_nn_order(s, start, s.len());
    lemma_walk_in_order(s, start, s.len());
    assert(nn_tour(nn_tour(s, start), 0) =~= nn_tour(s, start));
}

/// Whether `order` names the positions in their order.
pub fn is_in_order(order: &Vec<usize>) -> (same: bool)
    ensures
        same == (order@ == in_order(order@.len())),
{
    let mut t: usize = 0;
    while t < order.len()
        invariant
            t <= order@.len(),
            forall|u: int| 0 <= u < t ==> order@[u] == u,
        decreases order@.len() - t,
    {
        if order[t] != t {
            assert(in_order(order@.len())[t as int] == t);
            return false;
        }
        t = t + 1;
    }
    assert(order@ =~= in_order(order@.len()));
    true
}

/// Puts the nodes of `path` into the order `order`: afterwards each position
/// holds the node that stood at the position that `order` names for it. The
/// nodes are moved, none is copied. `order` must name every position once.
pub fn rearrange<T>(path: &mut Vec<T>, order: &Vec<usize>)
    requires
        order@.len() == old(path)@.len(),
        order@.no_duplicates(),
        forall|t: int| 0 <= t < order@.len() ==> order@[t] < old(path)@.len(),
    ensures
        final(path)@ == walked(old(path)@, order@),
{
    let ghost s = path@;
    let n: usize = path.len();
    let mut slots: Vec<Option<T>> = Vec::new();
    while path.len() > 0
        invariant
            n == s.len(),
            path@.len() + slots@.len() == n,
            path@ == s.take(path@.len() as int),
            forall|i: int| 0 <= i < slots@.len() ==> #[trigger] slots@[i] == Some(s[n - 1 - i]),
        decreases path@.len(),
    {
        let last = path.pop();
        slots.push(last);
    }
    let mut t: usize = 0;
    assert(path@ =~= walked(s, order@.take(0)));
    while t < n
        invariant
            n == s.len(),
            order@.len() == n,
            order@.no_duplicates(),
            forall|u: int| 0 <= u < n ==> order@[u] < n,
            t <= n,
            slots@.len() == n,
            path@ == walked(s, order@.take(t as int)),
            forall|i: int|
                0 <= i < n ==> #[trigger] slots@[i] == if order@.take(t as int).contains(
                    (n - 1 - i) as usize,
                ) {
                    None
                } else {
                    Some(s[n - 1 - i])
                },
        decreases n - t,
    {
        let at: usize = n - 1 - order[t];
        let ghost before = slots@;
        let ghost done = order@.take(t as int);
        let mut taken: Option<T> = None;
        core::mem::swap(&mut slots[at], &mut taken);
        proof {
            assert(!done.contains(order@[t as int])) by {
                if done.contains(order@[t as int]) {
                    let u = choose|u: int| 0 <= u < done.len() && done[u] == order@[t as int];
                    assert(order@[u] == order@[t as int]);
                }
            }
            assert(before[at as int] == Some(s[order@[t as int] as int]));
            let more = order@.take(t + 1);
            assert(more =~= done.push(order@[t as int]));
            assert(walked(s, more) =~= walked(s, done).push(s[order@[t as int] as int]));
            assert forall|i: int| 0 <= i < n implies #[trigger] slots@[i] == if more.contains(
                (n - 1 - i) as usize,
            ) {
                None
            } else {
                Some(s[n - 1 - i])
            } by {
                let q = (n - 1 - i) as usize;
                if i == at {
                    assert(more[t as int] == q);
                } else if done.contains(q) {
                    let u = choose|u: int| 0 <= u < done.len() && done[u] == q;
                    assert(more[u] == q);
                } else if more.contains(q) {
                    let u = choose|u: int| 0 <= u < more.len() && more[u] == q;
                    if u < t {
                        assert(done[u] == q);
                    }
                }
            }
        }
        match taken {
            Some(node) => {
                path.push(node);
            },
            None => {},
        }
        t = t + 1;
    }
    assert(order@.take(n as int) =~= order@);
}

/// Looks among `others` for the nearest neighbour of `node` that is not yet
/// visited, and gives its position among them: that of the candidate of least
/// cost from `node` whose index `visited` does not hold, and of several such the
/// first. If every candidate is visited, the result is `None`.
pub fn nearest_position<T: Metrizable>(
    node: &T,
    others: &Vec<IndexedT<&T>>,
    visited: &HashSet<usize>,
) -> (found: Option<usize>)
    ensures
        found is None <==> forall|q: int|
            0 <= q < others@.len() ==> visited@.contains(#[trigger] others@[q].index),
        found matches Some(p) ==> p == nearest(*node, others@, visited@) && is_nearest(
            *node,
            others@,
            visited@,
            p as int,
        ),
{
    broadcast use vstd::std_specs::hash::group_hash_axioms;

    let mut least: u64 = 0;
    let mut least_at: Option<usize> = None;
    let mut q: usize = 0;
    while q < others.len()
        invariant
            q <= others@.len(),
            least_at is None ==> forall|r: int|
                0 <= r < q ==> visited@.contains(#[trigger] others@[r].index),
            least_at matches Some(p) ==> {
                &&& p < q
                &&& !visited@.contains(others@[p as int].index)
                &&& least == node.metric(others@[p as int].value)
                &&& forall|r: int|
                    0 <= r < q && !visited@.contains(#[trigger] others@[r].index) ==> least
                        <= node.metric(others@[r].value)
                &&& forall|r: int|
                    0 <= r < p && !visited@.contains(#[trigger] others@[r].index) ==> least
                        < node.metric(others@[r].value)
            },
        decreases others@.len() - q,
    {
        let dist: u64 = node.cost(others[q].value);
        let nearer: bool = match least_at {
            None => true,
            Some(_) => dist < least,
        };
        if nearer && !visited.contains(&others[q].index) {
            least = dist;
            least_at = Some(q);
        }
        q = q + 1;
    }
    proof {
        if let Some(p) = least_at {
            lemma_nearest_unique(*node, others@, visited@, p as int);
        }
    }
    least_at
}

/// Looks among `others` for the nearest neighbour of `node` that is not yet
/// visited: the candidate of least cost from `node` whose index `visited` does
/// not hold, and of several such the one that stands first. If there is one, its
/// index is added to `visited` and its node is returned. If every candidate is
/// visited, the result is `None` and `visited` stays as it is.
pub fn nearest_neighbor<'a, T: Metrizable>(
    node: &T,
    others: &Vec<IndexedT<&'a T>>,
    visited: &mut HashSet<usize>,
) -> (found: Option<&'a T>)
    ensures
        found is None <==> forall|q: int|
            0 <= q < others@.len() ==> old(visited)@.contains(#[trigger] others@[q].index),
        found is None ==> final(visited)@ == old(visited)@,
        found is Some ==> {
            let p = nearest(*node, others@, old(visited)@);
            &&& is_nearest(*node, others@, old(visited)@, p)
            &&& found == Some(others@[p].value)
            &&& final(visited)@ == old(visited)@.insert(others@[p].index)
        },
{
    broadcast use vstd::std_specs::hash::group_hash_axioms;

    match nearest_position(node, others, visited) {
        Some(p) => {
            visited.insert(others[p].index);
            Some(others[p].value)
        },
        None => None,
    }
}

impl<T: Metrizable + Clone> Tour<T> {
    /// The positions of the tour in the order in which the nearest-neighbour
    /// walk from position `start` visits them: the walk goes each time to the
    /// nearest node that it has not visited, the first of them in the tour's
    /// order where several are equally near, until none is left.
    pub fn nn_order_from(&self, start: usize) -> (order: Vec<usize>)
        requires
            start < self@.len(),
        ensures
            order@ == nn_order(self@, start, self@.len()),
    {
        broadcast use vstd::std_specs::hash::group_hash_axioms;
        broadcast use vstd::multiset::group_multiset_axioms;

        let ghost s = self@;
        let ghost n = s.len();
        let nodes = index_path(&self.path);
        let mut visited: HashSet<usize> = HashSet::new();
        let mut order: Vec<usize> = Vec::new();
        let mut curr: &T = nodes[start].value;
        order.push(nodes[start].index);
        visited.insert(nodes[start].index);
        proof {
            assert(self.path.len() == n);
            assert(nodes@[start as int].index == start);
            assert(order@ =~= seq![start]);
            assert(order@[0] == start);
            assert(visited@ =~= order@.to_set());
        }
        loop
            invariant
                s == self@,
                n == s.len(),
                start < n <= usize::MAX,
                nodes@ == indexed(s),
                1 <= order@.len() <= n,
                order@ == nn_order(s, start, order@.len()),
                visited@ == order@.to_set(),
                *curr == s[order@.last() as int],
            ensures
                order@.len() == n,
                order@ == nn_order(s, start, n),
            decreases n - order@.len(),
        {
            proof {
                lemma_nn_order(s, start, order@.len());
            }
            let ghost seen = visited@;
            let ghost prior = order@;
            match nearest_position(curr, &nodes, &visited) {
                Some(p) => {
                    proof {
                        assert(nodes@[p as int].index == p);
                        lemma_unvisited_visit(s, seen, n, p);
                    }
                    visited.insert(nodes[p].index);
                    order.push(nodes[p].index);
                    curr = nodes[p].value;
                    proof {
                        assert(order@.drop_last() =~= prior);
                        prior.lemma_push_to_set_commute(p);
                    }
                },
                None => {
                    proof {
                        assert forall|q: usize| q < n implies seen.contains(q) by {
                            assert(nodes@[q as int].index == q);
                        }
                        lemma_unvisited_none(s, seen, n);
                    }
                    break ;
                },
            }
        }
        order
    }

    /// Rebuilds the tour by the nearest-neighbour walk from the node at position
    /// `start`: afterwards it holds its nodes in the order in which the walk
    /// visits them. The nodes are moved; the tour is a rearrangement of the
    /// tour before.
    pub fn optimize_nn_from(&mut self, start: usize)
        requires
            start < old(self)@.len(),
        ensures
            final(self)@ == nn_tour(old(self)@, start),
            final(self)@.len() == old(self)@.len(),
            final(self)@.to_multiset() == old(self)@.to_multiset(),
    {
        let order = self.nn_order_from(start);
        proof {
            assert(self.path.len() == self@.len());
            lemma_nn_order(self@, start, self@.len());
            lemma_nn_tour_permutes(self@, start);
        }
        rearrange(&mut self.path, &order);
    }

    /// Builds the tour anew by the nearest-neighbour heuristic, from a node
    /// drawn at random. A tour of fewer than two nodes stays as it is, and
    /// nothing is drawn. Otherwise the tour is afterwards the tour of the walk
    /// from some start, a rearrangement of the tour before.
    pub fn optimize_nn(&mut self)
        ensures
            old(self)@.len() <= 1 ==> final(self)@ == old(self)@,
            old(self)@.len() > 1 ==> exists|start: usize|
                start < old(self)@.len() && final(self)@ == #[trigger] nn_tour(old(self)@, start),
            final(self)@.len() == old(self)@.len(),
            final(self)@.to_multiset() == old(self)@.to_multiset(),
    {
        if self.path.len() <= 1 {
            return ;
        }
        let start: usize = rand_index(self);
        self.optimize_nn_from(start);
    }
}

impl<T: Metrizable + Clone> Path<T> {
    /// Builds the tour anew by the nearest-neighbour heuristic, from a node
    /// drawn at random, and leaves its length in `len`. A tour of fewer than
    /// two nodes keeps its nodes as they are, and nothing is drawn. Otherwise
    /// the tour is afterwards the tour of the walk from some start, a
    /// rearrangement of the tour before.
    pub fn solve_nn(&mut self)
        ensures
            final(self).measured(),
            old(self)@.len() <= 1 ==> final(self)@ == old(self)@,
            old(self)@.len() > 1 ==> exists|start: usize|
                start < old(self)@.len() && final(self)@ == #[trigger] nn_tour(old(self)@, start),
            final(self)@.len() == old(self)@.len(),
            final(self)@.to_multiset() == old(self)@.to_multiset(),
    {
        let mut tour: Tour<T> = Tour::new();
        core::mem::swap(&mut self.path, &mut tour.path);
        tour.optimize_nn();
        core::mem::swap(&mut self.path, &mut tour.path);
        self.len = length(&self.path);
    }
}

} // verus!
