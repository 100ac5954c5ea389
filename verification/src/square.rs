use vstd::prelude::*;
use crate::common::{indexed, legs, lemma_leg, tour_length};
use crate::kopt::{
    ascending, degenerate, k_opt_outcome, lemma_ascending, lemma_two_opt_outcome, reversed,
    two_opt_outcome,
};
use crate::metrizable::{faithful_clone, Metrizable};
use crate::nn::{
    constructed, lemma_nn_order, lemma_nn_order_prefix, lemma_nn_tour_permutes, nn_order, nn_tour,
};
use crate::solvers::{
    clone_of, lemma_clone_of_exact, lemma_rounds_keep_below_best, lemma_well_drawn_take, optimized,
    rounds_outcome, searched, well_drawn,
};

verus! {

/// Whether the four nodes of `s` cost each other what the corners of a square
/// cost: each node has one node opposite, the one that `opposite` names for
/// its position, at the cost `diagonal`; the two other nodes lie at the cost
/// `side`, which is less.
pub open spec fn is_square<T: Metrizable>(
    s: Seq<T>,
    side: u64,
    diagonal: u64,
    opposite: Seq<int>,
) -> bool {
    &&& s.len() == 4
    &&& opposite.len() == 4
    &&& side < diagonal
    &&& forall|i: int|
        0 <= i < 4 ==> 0 <= #[trigger] opposite[i] < 4 && opposite[i] != i && opposite[opposite[i]]
            == i
    &&& forall|i: int, j: int|
        0 <= i < 4 && 0 <= j < 4 && i != j ==> #[trigger] s[i].metric(&s[j]) == if j
            == opposite[i] {
            diagonal
        } else {
            side
        }
}

/// A cycle of four nodes is as long as its four legs.
pub proof fn lemma_four_legs<T: Metrizable>(s: Seq<T>)
    requires
        s.len() == 4,
    ensures
        tour_length(s) == s[0].metric(&s[1]) + s[1].metric(&s[2]) + s[2].metric(&s[3]) + s[3].metric(
            &s[0],
        ),
{
    reveal_with_fuel(legs, 5);
    lemma_leg(s, 0);
    lemma_leg(s, 1);
    lemma_leg(s, 2);
    lemma_leg(s, 3);
}

/// No tour over the corners of a square is shorter than four sides.
pub proof fn lemma_square_at_least<T: Metrizable>(
    s: Seq<T>,
    side: u64,
    diagonal: u64,
    opposite: Seq<int>,
)
    requires
        is_square(s, side, diagonal, opposite),
    ensures
        tour_length(s) >= 4 * side,
{
    lemma_four_legs(s);
    assert(s[0].metric(&s[1]) >= side);
    assert(s[1].metric(&s[2]) >= side);
    assert(s[2].metric(&s[3]) >= side);
    assert(s[3].metric(&s[0]) >= side);
}

/// Every nearest-neighbour walk over the corners of a square goes round it:
/// its tour is four sides long.
pub proof fn lemma_square_walk<T: Metrizable>(
    s: Seq<T>,
    side: u64,
    diagonal: u64,
    opposite: Seq<int>,
    start: usize,
)
    requires
        is_square(s, side, diagonal, opposite),
        start < 4,
    ensures
        tour_length(nn_tour(s, start)) == 4 * side,
{
    let order = nn_order(s, start, 4);
    let w = nn_tour(s, start);
    lemma_nn_order(s, start, 4);
    lemma_nn_order(s, start, 3);
    lemma_nn_order(s, start, 2);
    lemma_nn_order_prefix(s, start, 3, 4);
    lemma_nn_order_prefix(s, start, 2, 4);
    let two = nn_order(s, start, 2);
    let three = nn_order(s, start, 3);
    assert(two == order.take(2));
    assert(three == order.take(3));
    assert(two[0] == order[0] && two[1] == order[1]);
    assert(three[0] == order[0] && three[1] == order[1] && three[2] == order[2]);
    let a = order[0] as int;
    let b = order[1] as int;
    let c = order[2] as int;
    let d = order[3] as int;
    assert(a != b && a != c && a != d && b != c && b != d && c != d) by {
        assert(order[0] != order[1]);
        assert(order[0] != order[2]);
        assert(order[0] != order[3]);
        assert(order[1] != order[2]);
        assert(order[1] != order[3]);
        assert(order[2] != order[3]);
    }
    assert forall|q: int| 0 <= q < 4 implies (#[trigger] indexed(s)[q]).index == q && *indexed(
        s,
    )[q].value == s[q] by {}
    // The first step goes along a side: two nodes lie at that cost.
    assert(b != opposite[a]) by {
        let seen = two.drop_last().to_set();
        assert(two.drop_last() =~= seq![order[0]]);
        assert forall|x: usize| seen.contains(x) implies x == order[0] by {
            let at = choose|at: int| 0 <= at < two.drop_last().len() && two.drop_last()[at] == x;
        }
        let other = if c == opposite[a] {
            d
        } else {
            c
        };
        assert(!seen.contains(indexed(s)[other].index));
        assert(s[a].metric(&s[b]) <= s[a].metric(&s[other]));
    }
    // The second step goes along a side too: the node opposite the start.
    assert(c == opposite[a]) by {
        let seen = three.drop_last().to_set();
        assert(three.drop_last() =~= seq![order[0], order[1]]);
        assert forall|x: usize| seen.contains(x) implies x == order[0] || x == order[1] by {
            let at = choose|at: int|
                0 <= at < three.drop_last().len() && three.drop_last()[at] == x;
        }
        let far = opposite[a];
        assert(far == c || far == d);
        assert(!seen.contains(indexed(s)[far].index));
        assert(opposite[b] != far);
        assert(s[b].metric(&s[c]) <= s[b].metric(&s[far]));
        assert(opposite[b] == c || opposite[b] == d);
    }
    assert(d == opposite[b]);
    assert(w =~= seq![s[a], s[b], s[c], s[d]]);
    lemma_four_legs(w);
    assert(s[a].metric(&s[b]) == side);
    assert(s[b].metric(&s[c]) == side);
    assert(s[c].metric(&s[d]) == side);
    assert(s[d].metric(&s[a]) == side);
}

/// Whether the four nodes of `s` cost each other what the corners of a square
/// with these costs of a side and of a diagonal cost.
pub open spec fn square_like<T: Metrizable>(s: Seq<T>, side: u64, diagonal: u64) -> bool {
    exists|opposite: Seq<int>| is_square(s, side, diagonal, opposite)
}

/// The corners of a square in another order are the corners of a square:
/// `x` holds at each position the node that stood at the position that `place`
/// names, and `back` names for each old position the new one.
pub proof fn lemma_square_rearranged<T: Metrizable>(
    s: Seq<T>,
    side: u64,
    diagonal: u64,
    x: Seq<T>,
    place: Seq<int>,
    back: Seq<int>,
)
    requires
        square_like(s, side, diagonal),
        x.len() == 4,
        place.len() == 4,
        back.len() == 4,
        forall|i: int|
            0 <= i < 4 ==> 0 <= #[trigger] place[i] < 4 && back[place[i]] == i && x[i]
                == s[place[i]],
        forall|q: int| 0 <= q < 4 ==> 0 <= #[trigger] back[q] < 4 && place[back[q]] == q,
    ensures
        square_like(x, side, diagonal),
{
    let opposite = choose|opposite: Seq<int>| is_square(s, side, diagonal, opposite);
    let moved = Seq::new(4, |i: int| back[opposite[place[i]]]);
    assert forall|i: int| 0 <= i < 4 implies 0 <= #[trigger] moved[i] < 4 && moved[i] != i
        && moved[moved[i]] == i by {
        let q = place[i];
        assert(opposite[q] != q);
        assert(opposite[opposite[q]] == q);
        assert(place[back[opposite[q]]] == opposite[q]);
    }
    assert forall|i: int, j: int| 0 <= i < 4 && 0 <= j < 4 && i != j implies #[trigger] x[i].metric(
        &x[j],
    ) == if j == moved[i] {
        diagonal
    } else {
        side
    } by {
        let q = place[i];
        let r = place[j];
        assert(back[q] == i && back[r] == j);
        assert(q != r);
        assert(s[q].metric(&s[r]) == if r == opposite[q] {
            diagonal
        } else {
            side
        });
        assert(place[back[opposite[q]]] == opposite[q]);
    }
    assert(is_square(x, side, diagonal, moved));
}

/// Reversing a segment of a tour over the corners of a square leaves a tour
/// over the corners of a square.
pub proof fn lemma_square_reversed<T: Metrizable>(
    s: Seq<T>,
    side: u64,
    diagonal: u64,
    i: int,
    j: int,
)
    requires
        square_like(s, side, diagonal),
        0 <= i <= j <= 4,
    ensures
        square_like(reversed(s, i, j), side, diagonal),
        square_like(two_opt_outcome(s, i, j), side, diagonal),
{
    let opposite = choose|opposite: Seq<int>| is_square(s, side, diagonal, opposite);
    let place = Seq::new(
        4,
        |p: int|
            if i <= p < j {
                i + j - 1 - p
            } else {
                p
            },
    );
    lemma_square_rearranged(s, side, diagonal, reversed(s, i, j), place, place);
}

/// A move over the corners of a square leaves a tour over the corners of a
/// square.
pub proof fn lemma_square_moved<T: Metrizable>(
    s: Seq<T>,
    side: u64,
    diagonal: u64,
    k: usize,
    draws: Seq<usize>,
)
    requires
        square_like(s, side, diagonal),
        2 <= k <= 4,
        draws.len() == k,
        forall|t: int| 0 <= t < k ==> draws[t] <= 4,
    ensures
        square_like(k_opt_outcome(k, s, draws), side, diagonal),
{
    let opposite = choose|opposite: Seq<int>| is_square(s, side, diagonal, opposite);
    lemma_ascending(draws);
    let cuts = ascending(draws);
    assert forall|t: int| 0 <= t < k implies #[trigger] cuts[t] <= 4 by {
        assert(draws.contains(cuts[t]));
    }
    if !degenerate(k, draws) {
        let s1 = two_opt_outcome(s, cuts[0] as int, cuts[1] as int);
        lemma_square_reversed(s, side, diagonal, cuts[0] as int, cuts[1] as int);
        if k >= 3 {
            let s2 = two_opt_outcome(s1, cuts[1] as int, cuts[2] as int);
            lemma_square_reversed(s1, side, diagonal, cuts[1] as int, cuts[2] as int);
            if k == 4 {
                lemma_square_reversed(s2, side, diagonal, cuts[2] as int, cuts[3] as int);
            }
        }
    }
}

/// The rounds of a search over the corners of a square leave a tour over the
/// corners of a square.
pub proof fn lemma_square_searched<T: Metrizable>(
    s: Seq<T>,
    side: u64,
    diagonal: u64,
    stalled: usize,
    threshold: usize,
    draws: Seq<(Seq<usize>, Seq<usize>)>,
)
    requires
        square_like(s, side, diagonal),
        well_drawn(draws, 4),
    ensures
        square_like(rounds_outcome(s, stalled, threshold, draws).0, side, diagonal),
    decreases draws.len(),
{
    if draws.len() > 0 {
        let fewer = draws.drop_last();
        assert(fewer =~= draws.take(draws.len() - 1));
        lemma_well_drawn_take(draws, 4, draws.len() - 1);
        lemma_square_searched(s, side, diagonal, stalled, threshold, fewer);
        let prior = rounds_outcome(s, stalled, threshold, fewer);
        let first = draws.last().0;
        let kick = draws.last().1;
        assert(draws[draws.len() - 1] == draws.last());
        lemma_square_moved(prior.0, side, diagonal, 2, first);
        lemma_square_moved(k_opt_outcome(2, prior.0, first), side, diagonal, 4, kick);
    }
}

/// The tour of a nearest-neighbour walk over the corners of a square is a tour
/// over the corners of a square.
pub proof fn lemma_square_walked<T: Metrizable>(s: Seq<T>, side: u64, diagonal: u64, start: usize)
    requires
        square_like(s, side, diagonal),
        start < 4,
    ensures
        square_like(nn_tour(s, start), side, diagonal),
{
    let opposite = choose|opposite: Seq<int>| is_square(s, side, diagonal, opposite);
    let order = nn_order(s, start, 4);
    lemma_nn_order(s, start, 4);
    assert(order[0] != order[1] && order[0] != order[2] && order[0] != order[3] && order[1]
        != order[2] && order[1] != order[3] && order[2] != order[3]);
    let place = Seq::new(4, |i: int| order[i] as int);
    let back = Seq::new(
        4,
        |q: int|
            if order[0] == q {
                0int
            } else if order[1] == q {
                1int
            } else if order[2] == q {
                2int
            } else {
                3int
            },
    );
    assert forall|q: int| 0 <= q < 4 implies 0 <= #[trigger] back[q] < 4 && place[back[q]] == q by {
        assert(order[0] < 4 && order[1] < 4 && order[2] < 4 && order[3] < 4);
    }
    assert forall|i: int| 0 <= i < 4 implies 0 <= #[trigger] place[i] < 4 && back[place[i]] == i
        && nn_tour(s, start)[i] == s[place[i]] by {
        assert(order[i] < 4);
    }
    lemma_square_rearranged(s, side, diagonal, nn_tour(s, start), place, back);
}

/// Optimizing a tour over the corners of a square solves it, whatever is drawn
/// and whatever the time: the result is four sides long, and no tour over the
/// corners is shorter. This holds where cloning a node gives an equal node.
pub proof fn lemma_square_is_solved<T: Metrizable + Clone>(
    given: Seq<T>,
    side: u64,
    diagonal: u64,
    nanos: u128,
    after: Seq<T>,
)
    requires
        faithful_clone::<T>(),
        square_like(given, side, diagonal),
        optimized(given, nanos, after),
    ensures
        tour_length(after) == 4 * side,
        square_like(after, side, diagonal),
{
    let opposite = choose|opposite: Seq<int>| is_square(given, side, diagonal, opposite);
    let threshold = ((given.len() as usize) ^ 2) as usize;
    let start = choose|start: usize|
        {
            &&& start < given.len()
            &&& nanos == 0 ==> after == constructed(given, start)
            &&& searched(#[trigger] constructed(given, start), threshold, after)
        };
    let begun = constructed(given, start);
    let from = if nn_tour(given, 0) == given {
        0usize
    } else {
        start
    };
    assert(begun == nn_tour(given, from));
    lemma_nn_tour_permutes(given, from);
    lemma_square_walk(given, side, diagonal, opposite, from);
    lemma_square_walked(given, side, diagonal, from);
    let (run, kept) = choose|run: Seq<(Seq<usize>, Seq<usize>)>, kept: int|
        {
            &&& well_drawn(run, begun.len())
            &&& 0 <= kept <= run.len()
            &&& clone_of(
                (#[trigger] rounds_outcome(begun, 0usize, threshold, run.take(kept))).0,
                after,
            )
        };
    let made = run.take(kept);
    lemma_well_drawn_take(run, 4, kept);
    lemma_clone_of_exact(rounds_outcome(begun, 0usize, threshold, made).0, after);
    lemma_rounds_keep_below_best(begun, 0usize, threshold, made);
    lemma_square_searched(begun, side, diagonal, 0usize, threshold, made);
    let turned = choose|turned: Seq<int>| is_square(after, side, diagonal, turned);
    lemma_square_at_least(after, side, diagonal, turned);
}

} // verus!
