use vstd::prelude::*;
use crate::common::{leg, legs, lemma_leg, next_on_cycle, tour_length};
use crate::kopt::reversed;
use crate::metrizable::{symmetric, Metrizable};

verus! {

/// The sum of the legs of the cycle `s` that leave the positions `a <= p < b`.
pub open spec fn span<T: Metrizable>(s: Seq<T>, a: int, b: int) -> nat
    decreases b - a,
{
    if b <= a {
        0
    } else {
        span(s, a, b - 1) + leg(s, b - 1)
    }
}

/// The position that precedes `p` on a cycle of `n` positions.
pub open spec fn prev_on_cycle(n: int, p: int) -> int {
    if p == 0 {
        n - 1
    } else {
        p - 1
    }
}

/// The cycle `s` with position `k` as its starting point.
pub open spec fn rotated<T>(s: Seq<T>, k: int) -> Seq<T>
    recommends
        0 <= k <= s.len(),
{
    s.subrange(k, s.len() as int) + s.subrange(0, k)
}

/// The first `k` legs are the span from the start to `k`.
pub proof fn lemma_span_from_start<T: Metrizable>(s: Seq<T>, k: nat)
    ensures
        legs(s, k) == span(s, 0, k as int),
    decreases k,
{
    if k > 0 {
        lemma_span_from_start(s, (k - 1) as nat);
    }
}

/// A span is the sum of its two parts.
pub proof fn lemma_span_split<T: Metrizable>(s: Seq<T>, a: int, m: int, b: int)
    requires
        a <= m <= b,
    ensures
        span(s, a, b) == span(s, a, m) + span(s, m, b),
    decreases b - m,
{
    if m < b {
        lemma_span_split(s, a, m, b - 1);
    }
}

/// Two spans are equal if they hold the same legs in the same order, `d`
/// positions apart.
pub proof fn lemma_span_shift<T: Metrizable>(x: Seq<T>, y: Seq<T>, a: int, b: int, d: int)
    requires
        forall|p: int| a <= p < b ==> #[trigger] leg(x, p) == leg(y, p + d),
    ensures
        span(x, a, b) == span(y, a + d, b + d),
    decreases b - a,
{
    if a < b {
        lemma_span_shift(x, y, a, b - 1, d);
        assert(leg(x, b - 1) == leg(y, b - 1 + d));
    }
}

/// Two spans are equal if one holds the legs of the other in reverse order:
/// the leg at `p` of the one is the leg at `c - p` of the other.
pub proof fn lemma_span_mirror<T: Metrizable>(x: Seq<T>, y: Seq<T>, a: int, b: int, c: int)
    requires
        forall|p: int| a <= p < b ==> #[trigger] leg(x, p) == leg(y, c - p),
    ensures
        span(x, a, b) == span(y, c - b + 1, c - a + 1),
    decreases b - a,
{
    if a < b {
        lemma_span_mirror(x, y, a, b - 1, c);
        assert(leg(x, b - 1) == leg(y, c - (b - 1)));
        lemma_span_split(y, c - b + 1, c - b + 2, c - a + 1);
        assert(span(y, c - b + 1, c - b + 2) == span(y, c - b + 1, c - b + 1) + leg(y, c - b + 1));
    }
}

/// The length of a tour does not depend on the node that the cycle is written
/// from: rotating the starting point leaves it as it is.
pub proof fn lemma_rotation_keeps_length<T: Metrizable>(s: Seq<T>, k: int)
    requires
        0 <= k <= s.len(),
    ensures
        rotated(s, k).len() == s.len(),
        rotated(s, k).to_multiset() == s.to_multiset(),
        tour_length(rotated(s, k)) == tour_length(s),
{
    let n = s.len() as int;
    let r = rotated(s, k);
    assert(s =~= s.subrange(0, k) + s.subrange(k, n));
    vstd::seq_lib::lemma_multiset_commutative(s.subrange(0, k), s.subrange(k, n));
    vstd::seq_lib::lemma_multiset_commutative(s.subrange(k, n), s.subrange(0, k));
    assert(s.subrange(0, k).to_multiset().add(s.subrange(k, n).to_multiset()) =~= s.subrange(
        k,
        n,
    ).to_multiset().add(s.subrange(0, k).to_multiset())) by {
        broadcast use vstd::multiset::group_multiset_axioms;

    }
    assert forall|p: int| 0 <= p < n - k implies #[trigger] leg(r, p) == leg(s, p + k) by {
        lemma_leg(r, p);
        lemma_leg(s, p + k);
    }
    assert forall|p: int| n - k <= p < n implies #[trigger] leg(r, p) == leg(s, p + (k - n)) by {
        lemma_leg(r, p);
        lemma_leg(s, p + k - n);
    }
    lemma_span_shift(r, s, 0, n - k, k);
    lemma_span_shift(r, s, n - k, n, k - n);
    lemma_span_split(r, 0, n - k, n);
    lemma_span_split(s, 0, k, n);
    lemma_span_from_start(r, n as nat);
    lemma_span_from_start(s, n as nat);
}

/// Where cost is the same in both directions, reversing the segment of
/// positions `i <= p < j` changes the length of a tour by the two edges at the
/// segment's ends alone: the edge into the segment and the edge out of it are
/// taken away, and the edge from the node before the segment to the segment's
/// last node and the edge from its first node to the node after it are put in.
/// The segment must hold a node and leave one out.
pub proof fn lemma_reversal_delta<T: Metrizable>(s: Seq<T>, i: int, j: int)
    requires
        symmetric::<T>(),
        0 <= i < j <= s.len(),
        j - i < s.len(),
    ensures
        ({
            let before = s[prev_on_cycle(s.len() as int, i)];
            let after = s[next_on_cycle(s.len() as int, j - 1)];
            tour_length(reversed(s, i, j)) + before.metric(&s[i]) + s[j - 1].metric(&after)
                == tour_length(s) + before.metric(&s[j - 1]) + s[i].metric(&after)
        }),
{
    let n = s.len() as int;
    let r = reversed(s, i, j);
    let before = s[prev_on_cycle(n, i)];
    let after = s[next_on_cycle(n, j - 1)];
    lemma_span_from_start(r, n as nat);
    lemma_span_from_start(s, n as nat);
    assert forall|p: int| i <= p < j - 1 implies #[trigger] leg(r, p) == leg(s, (i + j - 2) - p) by {
        lemma_leg(r, p);
        lemma_leg(s, i + j - 2 - p);
        assert(s[i + j - 1 - p].metric(&s[i + j - 2 - p]) == s[i + j - 2 - p].metric(
            &s[i + j - 1 - p],
        ));
    }
    lemma_span_mirror(r, s, i, j - 1, i + j - 2);
    lemma_leg(r, j - 1);
    lemma_leg(s, j - 1);
    assert(leg(r, j - 1) == s[i].metric(&after));
    assert(leg(s, j - 1) == s[j - 1].metric(&after));
    assert(span(r, j - 1, j) == span(r, j - 1, j - 1) + leg(r, j - 1));
    assert(span(s, j - 1, j) == span(s, j - 1, j - 1) + leg(s, j - 1));
    if i > 0 {
        assert forall|p: int| 0 <= p < i - 1 implies #[trigger] leg(r, p) == leg(s, p + 0) by {
            lemma_leg(r, p);
            lemma_leg(s, p);
        }
        assert forall|p: int| j <= p < n implies #[trigger] leg(r, p) == leg(s, p + 0) by {
            lemma_leg(r, p);
            lemma_leg(s, p);
        }
        lemma_span_shift(r, s, 0, i - 1, 0);
        lemma_span_shift(r, s, j, n, 0);
        lemma_leg(r, i - 1);
        lemma_leg(s, i - 1);
        assert(leg(r, i - 1) == before.metric(&s[j - 1]));
        assert(leg(s, i - 1) == before.metric(&s[i]));
        assert(span(r, i - 1, i) == span(r, i - 1, i - 1) + leg(r, i - 1));
        assert(span(s, i - 1, i) == span(s, i - 1, i - 1) + leg(s, i - 1));
        lemma_span_split(r, 0, i - 1, n);
        lemma_span_split(r, i - 1, i, n);
        lemma_span_split(r, i, j - 1, n);
        lemma_span_split(r, j - 1, j, n);
        lemma_span_split(s, 0, i - 1, n);
        lemma_span_split(s, i - 1, i, n);
        lemma_span_split(s, i, j - 1, n);
        lemma_span_split(s, j - 1, j, n);
    } else {
        assert forall|p: int| j <= p < n - 1 implies #[trigger] leg(r, p) == leg(s, p + 0) by {
            lemma_leg(r, p);
            lemma_leg(s, p);
        }
        lemma_span_shift(r, s, j, n - 1, 0);
        lemma_leg(r, n - 1);
        lemma_leg(s, n - 1);
        assert(leg(r, n - 1) == before.metric(&s[j - 1]));
        assert(leg(s, n - 1) == before.metric(&s[i]));
        assert(span(r, n - 1, n) == span(r, n - 1, n - 1) + leg(r, n - 1));
        assert(span(s, n - 1, n) == span(s, n - 1, n - 1) + leg(s, n - 1));
        lemma_span_split(r, 0, j - 1, n);
        lemma_span_split(r, j - 1, j, n);
        lemma_span_split(r, j, n - 1, n);
        lemma_span_split(s, 0, j - 1, n);
        lemma_span_split(s, j - 1, j, n);
        lemma_span_split(s, j, n - 1, n);
    }
}

} // verus!
