use rand::Rng;
use vstd::prelude::*;
use vstd::relations::{sorted_by, total_ordering};
use crate::common::{lemma_tour_length_signed, tour_length, Tour};
use crate::metrizable::Metrizable;

verus! {

/// The cycle `s` with the segment of positions `i <= p < j` in reverse order.
pub open spec fn reversed<T>(s: Seq<T>, i: int, j: int) -> Seq<T>
    recommends
        0 <= i <= j <= s.len(),
{
    Seq::new(
        s.len(),
        |p: int|
            if i <= p < j {
                s[i + j - 1 - p]
            } else {
                s[p]
            },
    )
}

/// What a move that turned `before` into `after` reports: the change in
/// length, the new length minus the old, which is below zero; or `None` if the
/// cycle did not become shorter.
pub open spec fn delta<T: Metrizable>(before: Seq<T>, after: Seq<T>) -> Option<i128> {
    if tour_length(after) < tour_length(before) {
        Some((tour_length(after) - tour_length(before)) as i128)
    } else {
        None
    }
}

/// The cycle that a 2-opt move on the segment `i <= p < j` leaves: the cycle
/// with that segment reversed if that is strictly shorter, else `s` itself.
pub open spec fn two_opt_outcome<T: Metrizable>(s: Seq<T>, i: int, j: int) -> Seq<T> {
    if tour_length(reversed(s, i, j)) < tour_length(s) {
        reversed(s, i, j)
    } else {
        s
    }
}

/// The cycle that a 3-opt move on the cuts `i <= j <= k` leaves: a 2-opt move
/// on the first segment, then one on the second.
pub open spec fn three_opt_outcome<T: Metrizable>(s: Seq<T>, i: int, j: int, k: int) -> Seq<T> {
    two_opt_outcome(two_opt_outcome(s, i, j), j, k)
}

/// The cycle that a 4-opt move on the cuts `i <= j <= k <= l` leaves: a 2-opt
/// move on each of the three segments in turn.
pub open spec fn four_opt_outcome<T: Metrizable>(s: Seq<T>, i: int, j: int, k: int, l: int) -> Seq<
    T,
> {
    two_opt_outcome(three_opt_outcome(s, i, j, k), k, l)
}

/// Reversing a segment keeps every node, each as often as before.
pub proof fn lemma_reversed_permutes<T>(s: Seq<T>, i: int, j: int)
    requires
        0 <= i <= j <= s.len(),
    ensures
        reversed(s, i, j).len() == s.len(),
        reversed(s, i, j).to_multiset() == s.to_multiset(),
{
    let head = s.subrange(0, i);
    let mid = s.subrange(i, j);
    let tail = s.subrange(j, s.len() as int);
    assert(s =~= head + mid + tail);
    assert(reversed(s, i, j) =~= head + mid.reverse() + tail);
    mid.lemma_reverse_to_multiset();
    vstd::seq_lib::lemma_multiset_commutative(head, mid);
    vstd::seq_lib::lemma_multiset_commutative(head + mid, tail);
    vstd::seq_lib::lemma_multiset_commutative(head, mid.reverse());
    vstd::seq_lib::lemma_multiset_commutative(head + mid.reverse(), tail);
}

/// Reversing the same segment twice gives the cycle back.
pub proof fn lemma_reversed_twice<T>(s: Seq<T>, i: int, j: int)
    requires
        0 <= i <= j <= s.len(),
    ensures
        reversed(reversed(s, i, j), i, j) == s,
{
    assert(reversed(reversed(s, i, j), i, j) =~= s);
}

/// A 2-opt move keeps every node, never makes the cycle longer, and leaves it
/// as it was unless it made it strictly shorter.
pub proof fn lemma_two_opt_outcome<T: Metrizable>(s: Seq<T>, i: int, j: int)
    requires
        0 <= i <= j <= s.len(),
    ensures
        two_opt_outcome(s, i, j).len() == s.len(),
        two_opt_outcome(s, i, j).to_multiset() == s.to_multiset(),
        tour_length(two_opt_outcome(s, i, j)) <= tour_length(s),
        tour_length(two_opt_outcome(s, i, j)) == tour_length(s) ==> two_opt_outcome(s, i, j) == s,
{
    lemma_reversed_permutes(s, i, j);
}

/// Exchanges the nodes at positions `a` and `b`.
pub fn swap_nodes<T>(v: &mut Vec<T>, a: usize, b: usize)
    requires
        a < old(v)@.len(),
        b < old(v)@.len(),
    ensures
        final(v)@ == old(v)@.update(a as int, old(v)@[b as int]).update(
            b as int,
            old(v)@[a as int],
        ),
{
    if a < b {
        let (left, right) = v.as_mut_slice().split_at_mut(b);
        core::mem::swap(&mut left[a], &mut right[0]);
    } else if b < a {
        let (left, right) = v.as_mut_slice().split_at_mut(a);
        core::mem::swap(&mut left[b], &mut right[0]);
    }
    assert(v@ =~= old(v)@.update(a as int, old(v)@[b as int]).update(b as int, old(v)@[a as int]));
}

/// Reverses the segment of positions `i <= p < j` in place.
pub fn reverse_segment<T>(v: &mut Vec<T>, i: usize, j: usize)
    requires
        i <= j <= old(v)@.len(),
    ensures
        final(v)@ == reversed(old(v)@, i as int, j as int),
{
    let mut lo: usize = i;
    let mut hi: usize = j;
    while hi - lo > 1
        invariant
            i <= lo <= hi <= j <= v@.len(),
            lo + hi == i + j,
            v@.len() == old(v)@.len(),
            forall|p: int|
                0 <= p < v@.len() ==> #[trigger] v@[p] == if i <= p < lo || hi <= p < j {
                    old(v)@[i + j - 1 - p]
                } else {
                    old(v)@[p]
                },
        decreases hi - lo,
    {
        swap_nodes(v, lo, hi - 1);
        lo = lo + 1;
        hi = hi - 1;
    }
    assert(v@ =~= reversed(old(v)@, i as int, j as int));
}

/// A 2-opt move: reverses the segment of positions `i <= p < j` if that makes
/// the tour strictly shorter, and reports the change in length, the new length
/// minus the old. Otherwise the tour stays as it is and the result is `None`.
///
/// The tour must hold no more than `isize::MAX` nodes, as every `Vec` of nodes
/// that take up memory does: the change in length then fits in an `i128`.
pub fn two_opt<T: Metrizable + Clone>(i: usize, j: usize, path: &mut Tour<T>) -> (gain: Option<i128>)
    requires
        i <= j <= old(path)@.len(),
        old(path)@.len() <= isize::MAX,
    ensures
        final(path)@ == two_opt_outcome(old(path)@, i as int, j as int),
        gain == delta(old(path)@, final(path)@),
        final(path)@.len() == old(path)@.len(),
        final(path)@.to_multiset() == old(path)@.to_multiset(),
        gain is Some ==> tour_length(final(path)@) < tour_length(old(path)@),
        gain is None ==> final(path)@ == old(path)@,
{
    proof {
        lemma_two_opt_outcome(old(path)@, i as int, j as int);
        lemma_tour_length_signed(old(path)@);
    }
    let prev_len: u128 = path.tour_len();
    reverse_segment(&mut path.path, i, j);
    let post_len: u128 = path.tour_len();
    if post_len < prev_len {
        Some(post_len as i128 - prev_len as i128)
    } else {
        reverse_segment(&mut path.path, i, j);
        proof {
            lemma_reversed_twice(old(path)@, i as int, j as int);
        }
        None
    }
}

/// Adds up what two moves in a row reported.
fn sum_gains(first: Option<i128>, second: Option<i128>) -> (total: Option<i128>)
    requires
        i128::MIN <= first.unwrap_or(0) + second.unwrap_or(0) <= i128::MAX,
    ensures
        total == if first is None && second is None {
            None
        } else {
            Some((first.unwrap_or(0) + second.unwrap_or(0)) as i128)
        },
{
    match (first, second) {
        (None, None) => None,
        (Some(a), None) => Some(a),
        (None, Some(b)) => Some(b),
        (Some(a), Some(b)) => Some(a + b),
    }
}

/// A 3-opt move on the cuts `i <= j <= k`, in its sequential form: a 2-opt move
/// on the segment between the first two cuts, then one on the segment between
/// the last two. Each reversal is kept only if it makes the tour strictly
/// shorter, so the tour is unchanged when the result is `None`. The combinations
/// of reversals are not searched for the best one.
pub fn three_opt<T: Metrizable + Clone>(i: usize, j: usize, k: usize, path: &mut Tour<T>) -> (gain:
    Option<i128>)
    requires
        i <= j <= k <= old(path)@.len(),
        old(path)@.len() <= isize::MAX,
    ensures
        final(path)@ == three_opt_outcome(old(path)@, i as int, j as int, k as int),
        gain == delta(old(path)@, final(path)@),
        final(path)@.len() == old(path)@.len(),
        final(path)@.to_multiset() == old(path)@.to_multiset(),
        gain is Some ==> tour_length(final(path)@) < tour_length(old(path)@),
        gain is None ==> final(path)@ == old(path)@,
{
    proof {
        let s1 = two_opt_outcome(old(path)@, i as int, j as int);
        lemma_two_opt_outcome(old(path)@, i as int, j as int);
        lemma_two_opt_outcome(s1, j as int, k as int);
        lemma_tour_length_signed(old(path)@);
    }
    let first = two_opt(i, j, path);
    let second = two_opt(j, k, path);
    sum_gains(first, second)
}

/// A 4-opt move on the cuts `i <= j <= k <= l`, in its sequential form: a 2-opt
/// move on each of the three segments between neighbouring cuts, in turn. Each
/// reversal is kept only if it makes the tour strictly shorter, so the tour is
/// unchanged when the result is `None`.
pub fn four_opt<T: Metrizable + Clone>(
    i: usize,
    j: usize,
    k: usize,
    l: usize,
    path: &mut Tour<T>,
) -> (gain: Option<i128>)
    requires
        i <= j <= k <= l <= old(path)@.len(),
        old(path)@.len() <= isize::MAX,
    ensures
        final(path)@ == four_opt_outcome(old(path)@, i as int, j as int, k as int, l as int),
        gain == delta(old(path)@, final(path)@),
        final(path)@.len() == old(path)@.len(),
        final(path)@.to_multiset() == old(path)@.to_multiset(),
        gain is Some ==> tour_length(final(path)@) < tour_length(old(path)@),
        gain is None ==> final(path)@ == old(path)@,
{
    proof {
        let s1 = two_opt_outcome(old(path)@, i as int, j as int);
        let s2 = two_opt_outcome(s1, j as int, k as int);
        lemma_two_opt_outcome(old(path)@, i as int, j as int);
        lemma_two_opt_outcome(s1, j as int, k as int);
        lemma_two_opt_outcome(s2, k as int, l as int);
        lemma_tour_length_signed(old(path)@);
    }
    let first = three_opt(i, j, k, path);
    let second = two_opt(k, l, path);
    sum_gains(first, second)
}

/// The order of positions: `a` comes no later than `b`.
pub open spec fn index_leq() -> spec_fn(usize, usize) -> bool {
    |a: usize, b: usize| a <= b
}

/// The positions `draws` in ascending order.
pub open spec fn ascending(draws: Seq<usize>) -> Seq<usize> {
    draws.sort_by(index_leq())
}

/// `ascending(draws)` is the one arrangement of `draws` that ascends.
pub proof fn lemma_ascending(draws: Seq<usize>)
    ensures
        ascending(draws).len() == draws.len(),
        ascending(draws).to_multiset() == draws.to_multiset(),
        forall|a: int, b: int|
            0 <= a <= b < draws.len() ==> ascending(draws)[a] <= ascending(draws)[b],
        forall|a: int| 0 <= a < draws.len() ==> draws.contains(#[trigger] ascending(draws)[a]),
        forall|other: Seq<usize>|
            sorted_by(other, index_leq()) && other.to_multiset() == draws.to_multiset()
                ==> other == ascending(draws),
{
    broadcast use vstd::seq_lib::group_to_multiset_ensures;

    assert(total_ordering(index_leq()));
    draws.lemma_sort_by_ensures(index_leq());
    let up = ascending(draws);
    assert(up.len() == up.to_multiset().len());
    assert(draws.len() == draws.to_multiset().len());
    assert forall|a: int, b: int| 0 <= a <= b < draws.len() implies up[a] <= up[b] by {
        if a < b {
            assert(index_leq()(up[a], up[b]));
        }
    }
    assert forall|a: int| 0 <= a < draws.len() implies draws.contains(#[trigger] up[a]) by {
        assert(up.contains(up[a]));
    }
    assert forall|other: Seq<usize>|
        sorted_by(other, index_leq()) && other.to_multiset() == draws.to_multiset() implies other
        == up by {
        vstd::seq_lib::lemma_sorted_unique(other, up, index_leq());
    }
}

/// Puts the positions in `v` into ascending order.
pub fn sort_indices(v: &mut Vec<usize>)
    ensures
        final(v)@ == ascending(old(v)@),
{
    let mut out: Vec<usize> = Vec::new();
    let mut t: usize = 0;
    assert(out@ =~= v@.take(0));
    while t < v.len()
        invariant
            t <= v@.len(),
            v@ == old(v)@,
            sorted_by(out@, index_leq()),
            out@.to_multiset() == v@.take(t as int).to_multiset(),
        decreases v@.len() - t,
    {
        let x: usize = v[t];
        let mut p: usize = 0;
        while p < out.len() && out[p] <= x
            invariant
                p <= out@.len(),
                forall|q: int| 0 <= q < p ==> out@[q] <= x,
            decreases out@.len() - p,
        {
            p = p + 1;
        }
        let ghost before = out@;
        out.insert(p, x);
        proof {
            broadcast use vstd::seq_lib::group_to_multiset_ensures;

            assert(v@.take(t + 1) =~= v@.take(t as int).push(x));
            assert forall|a: int, b: int| 0 <= a < b < out@.len() implies #[trigger] index_leq()(
                out@[a],
                out@[b],
            ) by {
                if a < p && b > p {
                    assert(index_leq()(before[a], before[b - 1]));
                } else if a > p {
                    assert(index_leq()(before[a - 1], before[b - 1]));
                } else if b < p {
                    assert(index_leq()(before[a], before[b]));
                } else if a == p {
                    assert(index_leq()(before[p as int], before[b - 1]) || p == b - 1);
                }
            }
        }
        t = t + 1;
    }
    proof {
        assert(v@.take(t as int) =~= v@);
        lemma_ascending(v@);
    }
    *v = out;
}

/// Whether `draws` is what `k` draws of a position in a cycle of `n` nodes can
/// give.
pub open spec fn drawn_from(draws: Seq<usize>, k: usize, n: nat) -> bool {
    draws.len() == k && forall|t: int| 0 <= t < k ==> draws[t] < n
}

/// Whether `k` drawn positions collide, so that the move is not attempted: for
/// 2 and 3 draws if any two of them are equal, for 4 draws if two that were
/// drawn one after the other are.
pub open spec fn degenerate(k: usize, draws: Seq<usize>) -> bool {
    if k == 2 {
        draws[0] == draws[1]
    } else if k == 3 {
        draws[0] == draws[1] || draws[1] == draws[2] || draws[0] == draws[2]
    } else {
        draws[0] == draws[1] || draws[1] == draws[2] || draws[2] == draws[3]
    }
}

/// The cycle that a `k`-opt move leaves when the positions drawn for it are
/// `draws`: `s` itself if the draws collide, else the outcome of the move on the
/// draws in ascending order.
pub open spec fn k_opt_outcome<T: Metrizable>(k: usize, s: Seq<T>, draws: Seq<usize>) -> Seq<T> {
    let cuts = ascending(draws);
    if degenerate(k, draws) {
        s
    } else if k == 2 {
        two_opt_outcome(s, cuts[0] as int, cuts[1] as int)
    } else if k == 3 {
        three_opt_outcome(s, cuts[0] as int, cuts[1] as int, cuts[2] as int)
    } else {
        four_opt_outcome(s, cuts[0] as int, cuts[1] as int, cuts[2] as int, cuts[3] as int)
    }
}

/// A `k`-opt move keeps every node, never makes the cycle longer, and leaves it
/// as it was unless it made it strictly shorter.
pub proof fn lemma_k_opt_outcome<T: Metrizable>(k: usize, s: Seq<T>, draws: Seq<usize>)
    requires
        2 <= k <= 4,
        draws.len() == k,
        forall|t: int| 0 <= t < k ==> draws[t] <= s.len(),
    ensures
        k_opt_outcome(k, s, draws).len() == s.len(),
        k_opt_outcome(k, s, draws).to_multiset() == s.to_multiset(),
        tour_length(k_opt_outcome(k, s, draws)) <= tour_length(s),
        tour_length(k_opt_outcome(k, s, draws)) == tour_length(s) ==> k_opt_outcome(k, s, draws)
            == s,
{
    lemma_ascending(draws);
    let cuts = ascending(draws);
    assert forall|t: int| 0 <= t < k implies #[trigger] cuts[t] <= s.len() by {
        assert(draws.contains(cuts[t]));
    }
    let s1 = two_opt_outcome(s, cuts[0] as int, cuts[1] as int);
    lemma_two_opt_outcome(s, cuts[0] as int, cuts[1] as int);
    if k >= 3 {
        let s2 = two_opt_outcome(s1, cuts[1] as int, cuts[2] as int);
        lemma_two_opt_outcome(s1, cuts[1] as int, cuts[2] as int);
        if k == 4 {
            lemma_two_opt_outcome(s2, cuts[2] as int, cuts[3] as int);
        }
    }
}

/// The `k`-opt move for the positions `draws`, given in the order in which they
/// were drawn: nothing if they collide, else the move on the draws in ascending
/// order. The result is the change in length, the new length minus the old; it
/// is `None` if the tour is unchanged. The tour must hold no more than
/// `isize::MAX` nodes.
pub fn k_opt_at<T: Metrizable + Clone>(k: usize, draws: &Vec<usize>, path: &mut Tour<T>) -> (gain:
    Option<i128>)
    requires
        2 <= k <= 4,
        draws@.len() == k,
        forall|t: int| 0 <= t < k ==> draws@[t] <= old(path)@.len(),
        old(path)@.len() <= isize::MAX,
    ensures
        final(path)@ == k_opt_outcome(k, old(path)@, draws@),
        gain == delta(old(path)@, final(path)@),
        final(path)@.len() == old(path)@.len(),
        final(path)@.to_multiset() == old(path)@.to_multiset(),
        gain is Some ==> tour_length(final(path)@) < tour_length(old(path)@),
        gain is None ==> final(path)@ == old(path)@,
{
    proof {
        lemma_k_opt_outcome(k, old(path)@, draws@);
    }
    let collide: bool = if k == 2 {
        draws[0] == draws[1]
    } else if k == 3 {
        draws[0] == draws[1] || draws[1] == draws[2] || draws[0] == draws[2]
    } else {
        draws[0] == draws[1] || draws[1] == draws[2] || draws[2] == draws[3]
    };
    if collide {
        return None;
    }
    let mut cuts: Vec<usize> = Vec::new();
    let mut t: usize = 0;
    while t < k
        invariant
            t <= k,
            draws@.len() == k,
            cuts@ == draws@.take(t as int),
        decreases k - t,
    {
        cuts.push(draws[t]);
        assert(draws@.take(t + 1) =~= draws@.take(t as int).push(draws@[t as int]));
        t = t + 1;
    }
    assert(draws@.take(k as int) =~= draws@);
    sort_indices(&mut cuts);
    proof {
        lemma_ascending(draws@);
        assert forall|a: int| 0 <= a < k implies #[trigger] cuts@[a] <= old(path)@.len() by {
            assert(draws@.contains(cuts@[a]));
        }
    }
    if k == 2 {
        two_opt(cuts[0], cuts[1], path)
    } else if k == 3 {
        three_opt(cuts[0], cuts[1], cuts[2], path)
    } else {
        four_opt(cuts[0], cuts[1], cuts[2], cuts[3], path)
    }
}

/// Draws a number below `n` at random: `rand::Rng::gen_range(0, n)` on the
/// thread's generator. All that is claimed of the result is that it lies below
/// `n`. `n` must not be 0: the generator panics on an empty range.
#[verifier::external_body]
pub(crate) fn rand_below(n: usize) -> (index: usize)
    requires
        n > 0,
    ensures
        index < n,
{
    rand::thread_rng().gen_range(0, n)
}

/// Draws a position of the tour at random. The tour must hold a node.
pub fn rand_index<T: Metrizable>(path: &Tour<T>) -> (index: usize)
    requires
        path@.len() > 0,
    ensures
        index < path@.len(),
{
    rand_below(path.path.len())
}

/// A `k`-opt move at positions drawn at random, for `k` of 2, 3 or 4. The
/// result is the change in length, the new length minus the old, which is
/// below zero; it is `None` if the draws collided or no reversal made the tour
/// shorter, and the tour is then unchanged. On a tour of no nodes nothing is
/// drawn. The tour must hold no more than `isize::MAX` nodes.
pub fn k_opt<T: Metrizable + Clone>(k: usize, path: &mut Tour<T>) -> (gain: Option<i128>)
    requires
        2 <= k <= 4,
        old(path)@.len() <= isize::MAX,
    ensures
        old(path)@.len() == 0 ==> final(path)@ == old(path)@,
        old(path)@.len() > 0 ==> exists|draws: Seq<usize>|
            drawn_from(draws, k, old(path)@.len()) && final(path)@ == k_opt_outcome(
                k,
                old(path)@,
                draws,
            ),
        gain == delta(old(path)@, final(path)@),
        final(path)@.len() == old(path)@.len(),
        final(path)@.to_multiset() == old(path)@.to_multiset(),
        gain is Some ==> tour_length(final(path)@) < tour_length(old(path)@),
        gain is None ==> final(path)@ == old(path)@,
{
    if path.path.len() == 0 {
        return None;
    }
    let mut draws: Vec<usize> = Vec::new();
    let mut t: usize = 0;
    while t < k
        invariant
            t <= k,
            path@ == old(path)@,
            path@.len() > 0,
            draws@.len() == t,
            forall|a: int| 0 <= a < t ==> draws@[a] < path@.len(),
        decreases k - t,
    {
        let index: usize = rand_index(path);
        draws.push(index);
        t = t + 1;
    }
    proof {
        lemma_k_opt_outcome(k, old(path)@, draws@);
        assert(drawn_from(draws@, k, old(path)@.len()));
    }
    k_opt_at(k, &draws, path)
}

} // verus!
