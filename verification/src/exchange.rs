use core::time::Duration;
use std::collections::HashSet;
use vstd::std_specs::hash::spec_hash_keys_iter;
use vstd::std_specs::iter::IteratorSpec;
use itertools::Itertools;
use std::time::Instant;
use vstd::prelude::*;
use crate::common::{lemma_tour_length_fits, length, tour_length, Path};
use crate::kopt::{rand_below, swap_nodes};
use crate::metrizable::{faithful_clone, Metrizable};
use crate::solvers::{clone_of, duration_nanos, Search};

verus! {

/// The cycle `s` with the nodes at positions `a` and `b` exchanged.
pub open spec fn exchanged<T>(s: Seq<T>, a: int, b: int) -> Seq<T>
    recommends
        0 <= a < s.len(),
        0 <= b < s.len(),
{
    s.update(a, s[b]).update(b, s[a])
}

/// The cycle `s` after the exchanges `pairs`, made one after the other.
pub open spec fn exchanged_all<T>(s: Seq<T>, pairs: Seq<(usize, usize)>) -> Seq<T>
    decreases pairs.len(),
{
    if pairs.len() == 0 {
        s
    } else {
        exchanged(
            exchanged_all(s, pairs.drop_last()),
            pairs.last().0 as int,
            pairs.last().1 as int,
        )
    }
}

/// What an exchange move that turned `before` into `after` reports: by how much
/// the cycle became shorter, the old length minus the new; or `None` if it did
/// not become shorter.
pub open spec fn saving<T: Metrizable>(before: Seq<T>, after: Seq<T>) -> Option<u128> {
    if tour_length(after) < tour_length(before) {
        Some((tour_length(before) - tour_length(after)) as u128)
    } else {
        None
    }
}

/// The cycle that an exchange move on the positions `a` and `b` leaves: the
/// cycle with the two nodes exchanged if that is strictly shorter, else `s`
/// itself.
pub open spec fn exchange_outcome<T: Metrizable>(s: Seq<T>, a: int, b: int) -> Seq<T> {
    if tour_length(exchanged(s, a, b)) < tour_length(s) {
        exchanged(s, a, b)
    } else {
        s
    }
}

/// The cycle that a move of several exchanges leaves when it must not end
/// longer than `limit`: the cycle after the exchanges `pairs` if that is no
/// longer than `limit`, else `s` itself.
pub open spec fn n_opt_outcome<T: Metrizable>(
    s: Seq<T>,
    pairs: Seq<(usize, usize)>,
    limit: u128,
) -> Seq<T> {
    if tour_length(exchanged_all(s, pairs)) > limit {
        s
    } else {
        exchanged_all(s, pairs)
    }
}

/// What a move of several exchanges reports when it must not end longer than
/// `limit`: the length of the cycle after the exchanges `pairs` if that is no
/// longer than `limit`, else `None`.
pub open spec fn n_opt_report<T: Metrizable>(
    s: Seq<T>,
    pairs: Seq<(usize, usize)>,
    limit: u128,
) -> Option<u128> {
    if tour_length(exchanged_all(s, pairs)) > limit {
        None
    } else {
        Some(tour_length(exchanged_all(s, pairs)) as u128)
    }
}

/// Whether each of `pairs` names two positions of a cycle of `n` nodes.
pub open spec fn pairs_within(pairs: Seq<(usize, usize)>, n: nat) -> bool {
    forall|t: int| 0 <= t < pairs.len() ==> (#[trigger] pairs[t]).0 < n && pairs[t].1 < n
}

/// An exchange keeps every node, and made twice gives the cycle back.
pub proof fn lemma_exchanged<T>(s: Seq<T>, a: int, b: int)
    requires
        0 <= a < s.len(),
        0 <= b < s.len(),
    ensures
        exchanged(s, a, b).len() == s.len(),
        exchanged(s, a, b).to_multiset() == s.to_multiset(),
        exchanged(exchanged(s, a, b), a, b) == s,
{
    broadcast use vstd::seq_lib::group_to_multiset_ensures;
    broadcast use vstd::multiset::group_multiset_axioms;

    assert(exchanged(exchanged(s, a, b), a, b) =~= s);
    let mid = s.update(a, s[b]);
    assert(mid.to_multiset() =~= s.to_multiset().insert(s[b]).remove(s[a]));
    assert(exchanged(s, a, b).to_multiset() =~= mid.to_multiset().insert(s[a]).remove(mid[b]));
    assert(exchanged(s, a, b).to_multiset() =~= s.to_multiset());
}

/// A row of exchanges keeps every node.
pub proof fn lemma_exchanged_all<T>(s: Seq<T>, pairs: Seq<(usize, usize)>)
    requires
        pairs_within(pairs, s.len()),
    ensures
        exchanged_all(s, pairs).len() == s.len(),
        exchanged_all(s, pairs).to_multiset() == s.to_multiset(),
    decreases pairs.len(),
{
    if pairs.len() > 0 {
        assert forall|t: int| 0 <= t < pairs.drop_last().len() implies (
        #[trigger] pairs.drop_last()[t]).0 < s.len() && pairs.drop_last()[t].1 < s.len() by {
            assert(pairs.drop_last()[t] == pairs[t]);
        }
        lemma_exchanged_all(s, pairs.drop_last());
        lemma_exchanged(
            exchanged_all(s, pairs.drop_last()),
            pairs.last().0 as int,
            pairs.last().1 as int,
        );
    }
}

/// An exchange move on the positions `a` and `b`: exchanges the two nodes if
/// that makes the cycle strictly shorter, and says by how much. Otherwise the
/// cycle stays as it is and the result is `None`.
pub fn two_opt_at<T: Metrizable>(a: usize, b: usize, v: &mut Vec<T>) -> (gain: Option<u128>)
    requires
        a < old(v)@.len(),
        b < old(v)@.len(),
    ensures
        final(v)@ == exchange_outcome(old(v)@, a as int, b as int),
        gain == saving(old(v)@, final(v)@),
        final(v)@.len() == old(v)@.len(),
        final(v)@.to_multiset() == old(v)@.to_multiset(),
        gain is Some ==> tour_length(final(v)@) < tour_length(old(v)@),
        gain is None ==> final(v)@ == old(v)@,
{
    proof {
        lemma_exchanged(v@, a as int, b as int);
    }
    if a == b {
        assert(exchanged(v@, a as int, b as int) =~= v@);
        return None;
    }
    let prev_len: u128 = length(v);
    swap_nodes(v, a, b);
    let post_len: u128 = length(v);
    if post_len < prev_len {
        Some(prev_len - post_len)
    } else {
        swap_nodes(v, a, b);
        None
    }
}

/// An exchange move on two positions drawn at random. The result says by how
/// much the cycle became shorter; it is `None` if it did not, and the cycle is
/// then unchanged. On a cycle of no nodes nothing is drawn.
pub fn two_opt<T: Metrizable>(v: &mut Vec<T>) -> (gain: Option<u128>)
    ensures
        old(v)@.len() == 0 ==> final(v)@ == old(v)@,
        old(v)@.len() > 0 ==> exists|a: usize, b: usize|
            a < old(v)@.len() && b < old(v)@.len() && final(v)@ == #[trigger] exchange_outcome(
                old(v)@,
                a as int,
                b as int,
            ),
        gain == saving(old(v)@, final(v)@),
        final(v)@.len() == old(v)@.len(),
        final(v)@.to_multiset() == old(v)@.to_multiset(),
        gain is Some ==> tour_length(final(v)@) < tour_length(old(v)@),
        gain is None ==> final(v)@ == old(v)@,
{
    if v.len() == 0 {
        return None;
    }
    let a: usize = rand_below(v.len());
    let b: usize = rand_below(v.len());
    two_opt_at(a, b, v)
}

/// The positions `points` grouped two by two, in the order given: the first
/// pair holds the first two positions, the next pair the two after them, and so
/// on. A last position without a partner is left out.
pub open spec fn paired(points: Seq<usize>) -> Seq<(usize, usize)> {
    Seq::new(points.len() / 2, |t: int| (points[2 * t], points[2 * t + 1]))
}

/// Whether `picks` can be the positions picked for a move of exchanges on
/// `count` positions of a cycle of `n` nodes: that many positions of the
/// cycle, no two of them the same.
pub open spec fn picked(picks: Seq<usize>, count: usize, n: nat) -> bool {
    &&& picks.len() == count
    &&& picks.no_duplicates()
    &&& forall|t: int| 0 <= t < picks.len() ==> picks[t] < n
}

/// Groups the positions two by two, in the order given:
/// `itertools::Itertools::tuples` on the positions, which hands out the items
/// of an iterator in tuples of neighbours and leaves out what is left at the
/// end when the items do not fill a last tuple.
#[verifier::external_body]
pub(crate) fn pair_up(points: &Vec<usize>) -> (pairs: Vec<(usize, usize)>)
    ensures
        pairs@ == paired(points@),
{
    points.iter().copied().tuples().collect()
}

/// The positions that `points` holds, each once, in the order in which the set
/// hands them out.
fn positions_of(points: &HashSet<usize>) -> (picks: Vec<usize>)
    ensures
        picks@.no_duplicates(),
        picks@.to_set() == points@,
        picks@.len() == points@.len(),
{
    broadcast use vstd::std_specs::hash::group_hash_axioms;

    let mut picks: Vec<usize> = Vec::new();
    for p in it: points.iter()
        invariant
            picks@.len() == it.index(),
            forall|j: int| 0 <= j < picks@.len() ==> picks@[j] == *it.seq()[j],
    {
        picks.push(*p);
    }
    proof {
        let keys = spec_hash_keys_iter(points).remaining().unref();
        assert(picks@ =~= keys);
    }
    picks
}

/// The move of several exchanges for the pairs of positions given: makes the
/// exchanges one after the other and keeps them if the cycle is then no longer
/// than `limit`; the result is then the new length. Otherwise the exchanges are
/// undone, the last one first, and the result is `None`.
pub fn n_opt_at<T: Metrizable>(pairs: &Vec<(usize, usize)>, v: &mut Vec<T>, limit: u128) -> (len:
    Option<u128>)
    requires
        pairs_within(pairs@, old(v)@.len()),
    ensures
        final(v)@ == n_opt_outcome(old(v)@, pairs@, limit),
        len == n_opt_report(old(v)@, pairs@, limit),
        final(v)@.len() == old(v)@.len(),
        final(v)@.to_multiset() == old(v)@.to_multiset(),
{
    let ghost s = v@;
    let mut t: usize = 0;
    assert(pairs@.take(0) =~= Seq::<(usize, usize)>::empty());
    while t < pairs.len()
        invariant
            t <= pairs@.len(),
            pairs_within(pairs@, s.len()),
            s == old(v)@,
            v@.len() == s.len(),
            v@ == exchanged_all(s, pairs@.take(t as int)),
        decreases pairs@.len() - t,
    {
        let pair: (usize, usize) = pairs[t];
        swap_nodes(v, pair.0, pair.1);
        proof {
            let longer = pairs@.take(t + 1);
            assert(longer.drop_last() =~= pairs@.take(t as int));
            assert(longer.last() == pairs@[t as int]);
        }
        t = t + 1;
    }
    proof {
        assert(pairs@.take(t as int) =~= pairs@);
        lemma_exchanged_all(s, pairs@);
    }
    let new_len: u128 = length(v);
    if new_len > limit {
        while t > 0
            invariant
                t <= pairs@.len(),
                pairs_within(pairs@, s.len()),
                v@.len() == s.len(),
                v@ == exchanged_all(s, pairs@.take(t as int)),
            decreases t,
        {
            t = t - 1;
            let pair: (usize, usize) = pairs[t];
            proof {
                let longer = pairs@.take(t + 1);
                let shorter = pairs@.take(t as int);
                assert(longer.drop_last() =~= shorter);
                assert(longer.last() == pairs@[t as int]);
                assert forall|u: int| 0 <= u < shorter.len() implies (#[trigger] shorter[u]).0
                    < s.len() && shorter[u].1 < s.len() by {
                    assert(shorter[u] == pairs@[u]);
                }
                lemma_exchanged_all(s, shorter);
                lemma_exchanged(exchanged_all(s, shorter), pair.0 as int, pair.1 as int);
            }
            swap_nodes(v, pair.1, pair.0);
            assert(v@ =~= exchanged_all(s, pairs@.take(t as int)));
        }
        assert(pairs@.take(0) =~= Seq::<(usize, usize)>::empty());
        return None;
    }
    Some(new_len)
}

/// A set that holds every position below `n` holds `n` positions at least.
proof fn lemma_all_picked(picks: Set<usize>, n: nat)
    requires
        n <= usize::MAX,
        picks.finite(),
        forall|r: usize| r < n ==> picks.contains(r),
    ensures
        picks.len() >= n,
    decreases n,
{
    if n > 0 {
        let top = (n - 1) as usize;
        assert(picks.contains(top));
        lemma_all_picked(picks.remove(top), (n - 1) as nat);
    }
}

/// A move of several exchanges at `n` positions drawn at random, no two of
/// them the same: the positions are paired in the order in which the set that
/// gathers them hands them out, the exchanges are made one after the other,
/// and they are kept if the cycle is then no longer than `limit`. The result
/// is then the new length. Otherwise the cycle stays as it is and the result
/// is `None`.
///
/// Positions are drawn until the set holds `n` of them. Should `u64::MAX`
/// draws not give `n` different positions, the lowest positions not yet drawn
/// fill the rest.
///
/// The cycle must hold `n` nodes at least. With `n` below 2 no positions are
/// exchanged: the result is then the length of the cycle as it stands, if that
/// is within `limit`.
pub fn n_opt<T: Metrizable>(n: usize, v: &mut Vec<T>, limit: u128) -> (len: Option<u128>)
    requires
        n <= old(v)@.len(),
    ensures
        exists|picks: Seq<usize>|
            {
                &&& #[trigger] picked(picks, n, old(v)@.len())
                &&& final(v)@ == n_opt_outcome(old(v)@, paired(picks), limit)
                &&& len == n_opt_report(old(v)@, paired(picks), limit)
            },
        n <= 1 ==> final(v)@ == old(v)@ && len == if tour_length(old(v)@) > limit {
            None
        } else {
            Some(tour_length(old(v)@) as u128)
        },
        final(v)@.len() == old(v)@.len(),
        final(v)@.to_multiset() == old(v)@.to_multiset(),
        len is None ==> final(v)@ == old(v)@,
        len matches Some(reached) ==> reached == tour_length(final(v)@) && reached <= limit,
{
    broadcast use vstd::std_specs::hash::group_hash_axioms;

    let mut unq_points: HashSet<usize> = HashSet::new();
    let mut draws: u64 = 0;
    while unq_points.len() < n && draws < u64::MAX
        invariant
            v@ == old(v)@,
            n <= v@.len(),
            unq_points@.finite(),
            unq_points@.len() <= n,
            forall|p: usize| unq_points@.contains(p) ==> p < v@.len(),
        decreases u64::MAX - draws,
    {
        let p: usize = rand_below(v.len());
        unq_points.insert(p);
        draws = draws + 1;
    }
    let mut lowest: usize = 0;
    while unq_points.len() < n
        invariant
            v@ == old(v)@,
            n <= v@.len(),
            unq_points@.finite(),
            unq_points@.len() <= n,
            forall|p: usize| unq_points@.contains(p) ==> p < v@.len(),
            lowest <= v@.len(),
            forall|r: usize| r < lowest ==> unq_points@.contains(r),
        decreases v@.len() - lowest,
    {
        proof {
            assert(v.len() == v@.len());
            if lowest == v@.len() {
                lemma_all_picked(unq_points@, v@.len());
            }
        }
        unq_points.insert(lowest);
        lowest = lowest + 1;
    }
    let picks: Vec<usize> = positions_of(&unq_points);
    let pairs: Vec<(usize, usize)> = pair_up(&picks);
    proof {
        assert forall|t: int| 0 <= t < picks@.len() implies picks@[t] < v@.len() by {
            assert(picks@.to_set().contains(picks@[t]));
        }
        assert(picked(picks@, n, v@.len()));
        assert(pairs_within(pairs@, v@.len()));
        assert(v.len() == v@.len());
        lemma_exchanged_all(v@, pairs@);
        lemma_tour_length_fits(exchanged_all(v@, pairs@));
        if n <= 1 {
            assert(pairs@.len() == 0);
        }
    }
    n_opt_at(&pairs, v, limit)
}

/// The number of positions that a kick on a cycle of `n` nodes exchanges: 4, or
/// all of them where the cycle holds fewer.
pub open spec fn kick_positions(n: nat) -> usize {
    if n < 4 {
        n as usize
    } else {
        4
    }
}

/// The tour that one round of the iterated search by exchanges leaves of the
/// cycle `s`, and the count of stalled rounds after it, when `stalled` rounds
/// without improvement came before, the positions drawn for the exchange move
/// are `a` and `b`, and those picked for the kick are `picks`: after an
/// exchange move that improves, the count starts again; after one that does
/// not, it goes up by one, unless `threshold` such rounds came before: then the
/// kick is made, a move of exchanges that must not make the cycle longer, and
/// the count starts again.
pub open spec fn exchange_round_outcome<T: Metrizable>(
    s: Seq<T>,
    stalled: usize,
    threshold: usize,
    a: usize,
    b: usize,
    picks: Seq<usize>,
) -> (Seq<T>, usize) {
    let mid = exchange_outcome(s, a as int, b as int);
    if saving(s, mid) is Some {
        (mid, 0usize)
    } else if stalled < threshold {
        (mid, (stalled + 1) as usize)
    } else {
        (n_opt_outcome(mid, paired(picks), tour_length(mid) as u128), 0usize)
    }
}

/// The cycle that the rounds of an iterated search by exchanges leave of the
/// cycle `s`, and the count of stalled rounds after them, when `draws` holds
/// for each round in turn the two positions drawn for its exchange move and
/// the positions picked for its kick.
pub open spec fn exchange_rounds_outcome<T: Metrizable>(
    s: Seq<T>,
    stalled: usize,
    threshold: usize,
    draws: Seq<(usize, usize, Seq<usize>)>,
) -> (Seq<T>, usize)
    decreases draws.len(),
{
    if draws.len() == 0 {
        (s, stalled)
    } else {
        let prior = exchange_rounds_outcome(s, stalled, threshold, draws.drop_last());
        exchange_round_outcome(
            prior.0,
            prior.1,
            threshold,
            draws.last().0,
            draws.last().1,
            draws.last().2,
        )
    }
}

/// Whether `draws` can be what the rounds of a search by exchanges of a cycle
/// of `n` nodes draw: for each round two positions of the cycle, and as many
/// different positions as a kick exchanges.
pub open spec fn exchanges_well_drawn(draws: Seq<(usize, usize, Seq<usize>)>, n: nat) -> bool {
    forall|t: int|
        0 <= t < draws.len() ==> {
            &&& (#[trigger] draws[t]).0 < n
            &&& draws[t].1 < n
            &&& picked(draws[t].2, kick_positions(n), n)
        }
}

/// The number of positions that a kick on a cycle of `n` nodes exchanges: 4, or
/// all of them where the cycle holds fewer.
pub fn kick_size(n: usize) -> (count: usize)
    ensures
        count == kick_positions(n as nat),
{
    if n < 4 {
        n
    } else {
        4
    }
}

/// One round of the iterated search by exchanges: an exchange move at
/// positions drawn at random, then, if `threshold` rounds without improvement
/// came before and this one brought none either, a look at the best cycle so
/// far and, as a kick, a move of exchanges at `kick_size` positions that is
/// kept if it does not make the cycle longer.
///
/// The cycle and the count of stalled rounds are afterwards what
/// `exchange_round_outcome` gives for the positions drawn. A cycle that the
/// round records as the best so far is the cycle as the round found it.
/// Whatever is drawn, the cycle keeps its nodes and does not get longer, and the
/// best length recorded does not go up.
pub fn exchange_round<T: Metrizable + Clone>(
    path: &mut Vec<T>,
    search: &mut Search<T>,
    threshold: usize,
)
    requires
        old(search).tracks(old(path)@),
    ensures
        old(path)@.len() > 0 ==> exists|a: usize, b: usize, picks: Seq<usize>|
            {
                &&& a < old(path)@.len()
                &&& b < old(path)@.len()
                &&& picked(picks, kick_positions(old(path)@.len()), old(path)@.len())
                &&& #[trigger] exchange_round_outcome(
                    old(path)@,
                    old(search).stalled,
                    threshold,
                    a,
                    b,
                    picks,
                ) == (final(path)@, final(search).stalled)
            },
        final(search).best_len == old(search).best_len ==> final(search).best@ == old(search).best@,
        final(search).best_len < old(search).best_len ==> clone_of(
            old(path)@,
            final(search).best@,
        ),
        final(search).tracks(final(path)@),
        final(search).best_len <= old(search).best_len,
        final(path)@.len() == old(path)@.len(),
        final(path)@.to_multiset() == old(path)@.to_multiset(),
        tour_length(final(path)@) <= tour_length(old(path)@),
        final(search).stalled == 0 || {
            &&& final(search).stalled == old(search).stalled + 1
            &&& old(search).stalled < threshold
            &&& final(path)@ == old(path)@
            &&& final(search).best_len == old(search).best_len
            &&& final(search).best@ == old(search).best@
        },
{
    let ghost n = path@.len();
    let ghost stalled = search.stalled;
    let gain = two_opt(path);
    let ghost mid = path@;
    let ghost mut picks: Seq<usize> = Seq::new(kick_positions(n) as nat, |t: int| t as usize);
    proof {
        assert(path.len() == n);
    }
    if search.note_outcome(path, threshold, gain.is_some()) {
        let current: u128 = length(path);
        n_opt(kick_size(path.len()), path, current);
        proof {
            picks = choose|picks: Seq<usize>|
                {
                    &&& #[trigger] picked(picks, kick_positions(n), n)
                    &&& path@ == n_opt_outcome(mid, paired(picks), current)
                };
        }
    }
    proof {
        if n > 0 {
            let (a, b) = choose|a: usize, b: usize|
                a < n && b < n && mid == #[trigger] exchange_outcome(
                    old(path)@,
                    a as int,
                    b as int,
                );
            assert(exchange_round_outcome(old(path)@, stalled, threshold, a, b, picks) == (
                path@,
                search.stalled,
            ));
        }
    }
}

/// The iterated search by exchanges on the cycle as it stands: rounds of
/// exchange moves, with a kick after every run of more than `threshold` rounds
/// without improvement, until more than `budget` nanoseconds have passed on
/// the clock, which is read once after each round. The search also ends after
/// `u64::MAX` rounds.
///
/// A cycle of fewer than two nodes, and any cycle with a `budget` of zero, is
/// left as it is, at once. Otherwise the cycle is afterwards what the rounds
/// have made of it, or the best cycle that they recorded on the way if that is
/// as short: in both cases what `exchange_rounds_outcome` gives for some rounds
/// of draws, in clones of its nodes where a recorded cycle was put back. Where
/// cloning a node gives an equal node, it is a rearrangement of the cycle
/// before, and no longer than it.
pub fn search_by_exchange<T: Metrizable + Clone>(path: &mut Vec<T>, budget: u128, threshold: usize)
    ensures
        exists|draws: Seq<(usize, usize, Seq<usize>)>|
            exchanges_well_drawn(draws, old(path)@.len()) && clone_of(
                (#[trigger] exchange_rounds_outcome(old(path)@, 0usize, threshold, draws)).0,
                final(path)@,
            ),
        final(path)@.len() == old(path)@.len(),
        old(path)@.len() <= 1 || budget == 0 ==> final(path)@ == old(path)@,
        faithful_clone::<T>() ==> {
            &&& final(path)@.to_multiset() == old(path)@.to_multiset()
            &&& tour_length(final(path)@) <= tour_length(old(path)@)
        },
{
    let ghost n = path@.len();
    let ghost mut log: Seq<(usize, usize, Seq<usize>)> = Seq::empty();
    let ghost mut best_log: Seq<(usize, usize, Seq<usize>)> = Seq::empty();
    proof {
        assert(exchange_rounds_outcome(path@, 0usize, threshold, log) == (path@, 0usize));
        assert(clone_of(path@, path@));
    }
    if path.len() <= 1 || budget == 0 {
        return ;
    }
    proof {
        lemma_tour_length_fits(path@);
    }
    let start_time = Instant::now();
    let mut search: Search<T> = Search::new();
    let mut rounds: u64 = 0;
    while rounds < u64::MAX
        invariant
            n == old(path)@.len(),
            n > 0,
            search.tracks(path@),
            path@.len() == old(path)@.len(),
            path@.to_multiset() == old(path)@.to_multiset(),
            tour_length(path@) <= tour_length(old(path)@),
            exchanges_well_drawn(log, n),
            exchanges_well_drawn(best_log, n),
            exchange_rounds_outcome(old(path)@, 0usize, threshold, log) == (path@, search.stalled),
            search.best_len < u128::MAX ==> clone_of(
                exchange_rounds_outcome(old(path)@, 0usize, threshold, best_log).0,
                search.best@,
            ),
        decreases u64::MAX - rounds,
    {
        let ghost before = path@;
        let ghost stalled = search.stalled;
        let ghost best_len = search.best_len;
        exchange_round(path, &mut search, threshold);
        proof {
            let (a, b, picks) = choose|a: usize, b: usize, picks: Seq<usize>|
                {
                    &&& a < n
                    &&& b < n
                    &&& picked(picks, kick_positions(n), n)
                    &&& #[trigger] exchange_round_outcome(before, stalled, threshold, a, b, picks)
                        == (path@, search.stalled)
                };
            let longer = log.push((a, b, picks));
            assert(longer.drop_last() =~= log);
            assert(longer.last() == (a, b, picks));
            if search.best_len < best_len {
                best_log = log;
            }
            log = longer;
        }
        rounds = rounds + 1;
        let passed: u128 = start_time.elapsed().as_nanos();
        if passed > budget {
            break ;
        }
    }
    proof {
        assert(path.len() == path@.len());
        lemma_tour_length_fits(path@);
        assert(clone_of(path@, path@));
    }
    search.settle(path);
}

impl<T: Metrizable + Clone> Path<T> {
    /// Improves the tour within the time `timeout` by the iterated search by
    /// exchanges, on the tour as it stands, with a threshold of half the number
    /// of nodes, and leaves its length in `len`.
    ///
    /// A tour of fewer than two nodes, and any tour with a `timeout` of zero,
    /// keeps its nodes as they are. Otherwise the tour is afterwards what
    /// `exchange_rounds_outcome` gives for some rounds of draws, in clones of
    /// its nodes where a recorded tour was put back. Where cloning a node gives
    /// an equal node, the result is a rearrangement of the tour before, and no
    /// longer than it.
    pub fn solve_kopt(&mut self, timeout: Duration)
        ensures
            exists|draws: Seq<(usize, usize, Seq<usize>)>|
                exchanges_well_drawn(draws, old(self)@.len()) && clone_of(
                    (#[trigger] exchange_rounds_outcome(
                        old(self)@,
                        0usize,
                        (old(self)@.len() / 2) as usize,
                        draws,
                    )).0,
                    final(self)@,
                ),
            final(self).measured(),
            final(self)@.len() == old(self)@.len(),
            old(self)@.len() <= 1 || duration_nanos(timeout) == 0 ==> final(self)@ == old(self)@,
            faithful_clone::<T>() ==> {
                &&& final(self)@.to_multiset() == old(self)@.to_multiset()
                &&& tour_length(final(self)@) <= tour_length(old(self)@)
            },
    {
        let threshold: usize = self.path.len() / 2;
        proof {
            assert(self.path.len() == self@.len());
            assert(threshold == (old(self)@.len() / 2) as usize);
        }
        search_by_exchange(&mut self.path, timeout.as_nanos(), threshold);
        proof {
            let draws = choose|draws: Seq<(usize, usize, Seq<usize>)>|
                exchanges_well_drawn(draws, old(self)@.len()) && clone_of(
                    (#[trigger] exchange_rounds_outcome(old(self)@, 0usize, threshold, draws)).0,
                    self@,
                );
            assert(exchanges_well_drawn(draws, old(self)@.len()) && clone_of(
                exchange_rounds_outcome(
                    old(self)@,
                    0usize,
                    (old(self)@.len() / 2) as usize,
                    draws,
                ).0,
                self@,
            ));
        }
        self.len = length(&self.path);
    }
}

} // verus!
