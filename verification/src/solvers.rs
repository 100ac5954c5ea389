use core::time::Duration;
use std::time::Instant;
use vstd::prelude::*;
use crate::common::{lemma_tour_length_fits, length, tour_length, Tour};
use crate::kopt::{delta, drawn_from, k_opt, k_opt_outcome, lemma_k_opt_outcome};
use crate::metrizable::{faithful_clone, Metrizable};
use crate::kopt::rand_index;
use crate::nn::{
    constructed, is_in_order, lemma_nn_order, lemma_nn_tour_permutes, lemma_own_walk, nn_tour,
};

verus! {

/// The length of the span of time `d` in nanoseconds: what
/// `Duration::as_nanos` returns for it.
pub uninterp spec fn duration_nanos(d: Duration) -> u128;

/// `std::time::Instant`, a reading of the monotonic clock. Nothing is known of
/// what a reading holds.
#[verifier::external_type_specification]
#[verifier::external_body]
pub struct ExInstant(Instant);

/// `Instant::now` reads the clock. Nothing is promised of the reading.
pub assume_specification[ Instant::now ]() -> (now: Instant)
;

/// `Instant::elapsed` gives the time that has passed since the reading was
/// made. Nothing is promised of it: it depends on the clock.
pub assume_specification[ Instant::elapsed ](start: &Instant) -> (passed: Duration)
;

/// `Duration::as_nanos` gives the whole span in nanoseconds, a function of the
/// span alone.
pub assume_specification[ Duration::as_nanos ](d: &Duration) -> (nanos: u128)
    ensures
        nanos == duration_nanos(*d),
;

/// The number of rounds without improvement after which the search of a tour
/// of `n` nodes takes stock and kicks, where the caller names none: `n` with
/// its second bit flipped, which is `n + 2` or `n - 2`.
pub fn stagnation_threshold(n: usize) -> (threshold: usize)
    ensures
        threshold == n ^ 2,
{
    n ^ 2
}

/// What an iterated search remembers from round to round.
pub struct Search<T: Metrizable> {
    /// The rounds without improvement since the last improvement or kick.
    pub stalled: usize,
    /// The length of the best tour recorded so far; `u128::MAX`, which no
    /// tour's length reaches, while none is recorded.
    pub best_len: u128,
    /// The best tour recorded so far; empty while none is recorded.
    pub best: Vec<T>,
}

impl<T: Metrizable + Clone> Search<T> {
    /// Whether this can be the state of a search whose working tour is `tour`:
    /// the working tour is no longer than the best length recorded, and the
    /// recorded tour, if there is one, has as many nodes. Where cloning a node
    /// gives an equal node, the recorded tour is a rearrangement of the working
    /// tour, and the recorded length is its length.
    pub open spec fn tracks(&self, tour: Seq<T>) -> bool {
        &&& tour_length(tour) <= self.best_len
        &&& self.best_len < u128::MAX ==> self.best@.len() == tour.len()
        &&& self.best_len < u128::MAX && faithful_clone::<T>() ==> {
            &&& self.best@.to_multiset() == tour.to_multiset()
            &&& tour_length(self.best@) == self.best_len
        }
    }

    /// The state in which a search starts: no round has run and no tour is
    /// recorded.
    pub fn new() -> (search: Search<T>)
        ensures
            search.stalled == 0,
            search.best_len == u128::MAX,
            search.best@ == Seq::<T>::empty(),
    {
        Search { stalled: 0, best_len: u128::MAX, best: Vec::new() }
    }

    /// Takes note of whether a move on the working tour `path` improved it, and
    /// says whether a kick is due.
    ///
    /// After an improvement the count of stalled rounds starts again. After an
    /// attempt without improvement it goes up by one, unless `threshold` such
    /// rounds came before: then the search takes stock, that is, it records the
    /// working tour if that is strictly shorter than the best recorded so far,
    /// the count starts again, and a kick is due. The best length recorded never
    /// goes up.
    pub fn note_outcome(&mut self, path: &Vec<T>, threshold: usize, improved: bool) -> (kick: bool)
        requires
            old(self).tracks(path@),
        ensures
            final(self).tracks(path@),
            final(self).best_len <= old(self).best_len,
            kick <==> !improved && old(self).stalled >= threshold,
            final(self).stalled == if !improved && old(self).stalled < threshold {
                (old(self).stalled + 1) as usize
            } else {
                0
            },
            final(self).best_len == if kick && tour_length(path@) < old(self).best_len {
                tour_length(path@) as u128
            } else {
                old(self).best_len
            },
            final(self).best_len == old(self).best_len ==> final(self).best@ == old(self).best@,
            final(self).best_len < old(self).best_len ==> {
                &&& final(self).best@.len() == path@.len()
                &&& forall|i: int|
                    0 <= i < path@.len() ==> cloned(path@[i], #[trigger] final(self).best@[i])
            },
    {
        if improved {
            self.stalled = 0;
            false
        } else if self.stalled < threshold {
            self.stalled = self.stalled + 1;
            false
        } else {
            let current: u128 = length(path);
            if current < self.best_len {
                self.best = path.clone();
                self.best_len = current;
                assert(faithful_clone::<T>() ==> self.best@ =~= path@);
            }
            self.stalled = 0;
            true
        }
    }

    /// Ends a search whose working tour is `path`: the working tour stays if it
    /// is strictly shorter than the best length recorded, else the recorded
    /// tour takes its place.
    pub fn settle(self, path: &mut Vec<T>)
        requires
            self.tracks(old(path)@),
        ensures
            final(path)@ == if tour_length(old(path)@) < self.best_len {
                old(path)@
            } else {
                self.best@
            },
            final(path)@.len() == old(path)@.len(),
            faithful_clone::<T>() ==> {
                &&& final(path)@.to_multiset() == old(path)@.to_multiset()
                &&& tour_length(final(path)@) == tour_length(old(path)@)
            },
    {
        proof {
            assert(path.len() == path@.len());
            lemma_tour_length_fits(path@);
        }
        let current: u128 = length(path);
        if !(current < self.best_len) {
            *path = self.best;
        }
    }
}

/// Whether `to` holds, position by position, the node of `from` or a clone of
/// it.
pub open spec fn clone_of<T: Clone>(from: Seq<T>, to: Seq<T>) -> bool {
    &&& to.len() == from.len()
    &&& forall|i: int| 0 <= i < from.len() ==> cloned(from[i], #[trigger] to[i])
}

/// The tour that one round of the iterated search leaves of the tour `s`, and
/// the count of stalled rounds after it, when `stalled` rounds without
/// improvement came before and the positions drawn are `first` for the 2-opt
/// move and `kick` for the kick: after a 2-opt move that improves, the count
/// starts again; after one that does not, it goes up by one, unless
/// `threshold` such rounds came before: then the 4-opt move is made as a kick
/// and the count starts again.
pub open spec fn round_outcome<T: Metrizable>(
    s: Seq<T>,
    stalled: usize,
    threshold: usize,
    first: Seq<usize>,
    kick: Seq<usize>,
) -> (Seq<T>, usize) {
    let mid = k_opt_outcome(2, s, first);
    if delta(s, mid) is Some {
        (mid, 0usize)
    } else if stalled < threshold {
        (mid, (stalled + 1) as usize)
    } else {
        (k_opt_outcome(4, mid, kick), 0usize)
    }
}

/// The tour that the rounds of an iterated search leave of the tour `s`, and
/// the count of stalled rounds after them, when `draws` holds for each round in
/// turn the positions drawn for its 2-opt move and those drawn for its kick.
pub open spec fn rounds_outcome<T: Metrizable>(
    s: Seq<T>,
    stalled: usize,
    threshold: usize,
    draws: Seq<(Seq<usize>, Seq<usize>)>,
) -> (Seq<T>, usize)
    decreases draws.len(),
{
    if draws.len() == 0 {
        (s, stalled)
    } else {
        let prior = rounds_outcome(s, stalled, threshold, draws.drop_last());
        round_outcome(prior.0, prior.1, threshold, draws.last().0, draws.last().1)
    }
}

/// The best length recorded after one round of the iterated search of the tour
/// `s`, when `best` was the best length recorded before it: the length of the
/// tour as the round found it, if the round took stock and that length is
/// strictly below `best`; else `best`.
pub open spec fn round_best<T: Metrizable>(
    s: Seq<T>,
    stalled: usize,
    threshold: usize,
    first: Seq<usize>,
    best: u128,
) -> u128 {
    let mid = k_opt_outcome(2, s, first);
    if delta(s, mid) is None && stalled >= threshold && tour_length(mid) < best {
        tour_length(mid) as u128
    } else {
        best
    }
}

/// The best length recorded after the rounds of an iterated search of the tour
/// `s` for which `draws` holds the draws; `u128::MAX`, which no tour's length
/// reaches, while no round has taken stock.
pub open spec fn rounds_best<T: Metrizable>(
    s: Seq<T>,
    stalled: usize,
    threshold: usize,
    draws: Seq<(Seq<usize>, Seq<usize>)>,
) -> u128
    decreases draws.len(),
{
    if draws.len() == 0 {
        u128::MAX
    } else {
        let prior = rounds_outcome(s, stalled, threshold, draws.drop_last());
        round_best(
            prior.0,
            prior.1,
            threshold,
            draws.last().0,
            rounds_best(s, stalled, threshold, draws.drop_last()),
        )
    }
}

/// Whether `draws` can be what the rounds of a search of a tour of `n` nodes
/// draw: for each round two positions of the tour and four more.
pub open spec fn well_drawn(draws: Seq<(Seq<usize>, Seq<usize>)>, n: nat) -> bool {
    forall|t: int|
        0 <= t < draws.len() ==> drawn_from((#[trigger] draws[t]).0, 2, n) && drawn_from(
            draws[t].1,
            4,
            n,
        )
}

/// The first rounds of well-drawn rounds are well drawn.
pub proof fn lemma_well_drawn_take(draws: Seq<(Seq<usize>, Seq<usize>)>, n: nat, k: int)
    requires
        well_drawn(draws, n),
        0 <= k <= draws.len(),
    ensures
        well_drawn(draws.take(k), n),
{
    assert forall|t: int| 0 <= t < draws.take(k).len() implies drawn_from(
        (#[trigger] draws.take(k)[t]).0,
        2,
        n,
    ) && drawn_from(draws.take(k)[t].1, 4, n) by {
        assert(draws.take(k)[t] == draws[t]);
    }
}

/// Whatever is drawn, the rounds of a search keep every node of the tour and
/// leave it no longer than the best length recorded.
pub proof fn lemma_rounds_keep_below_best<T: Metrizable>(
    s: Seq<T>,
    stalled: usize,
    threshold: usize,
    draws: Seq<(Seq<usize>, Seq<usize>)>,
)
    requires
        s.len() <= usize::MAX,
        well_drawn(draws, s.len()),
    ensures
        rounds_outcome(s, stalled, threshold, draws).0.len() == s.len(),
        rounds_outcome(s, stalled, threshold, draws).0.to_multiset() == s.to_multiset(),
        tour_length(rounds_outcome(s, stalled, threshold, draws).0) <= tour_length(s),
        tour_length(rounds_outcome(s, stalled, threshold, draws).0) <= rounds_best(
            s,
            stalled,
            threshold,
            draws,
        ),
    decreases draws.len(),
{
    if draws.len() == 0 {
        lemma_tour_length_fits(s);
    } else {
        let fewer = draws.drop_last();
        assert(fewer =~= draws.take(draws.len() - 1));
        lemma_well_drawn_take(draws, s.len(), draws.len() - 1);
        lemma_rounds_keep_below_best(s, stalled, threshold, fewer);
        let prior = rounds_outcome(s, stalled, threshold, fewer);
        let first = draws.last().0;
        let kick = draws.last().1;
        assert(drawn_from(draws[draws.len() - 1].0, 2, s.len()));
        let mid = k_opt_outcome(2, prior.0, first);
        lemma_k_opt_outcome(2, prior.0, first);
        lemma_k_opt_outcome(4, mid, kick);
    }
}

/// The best length recorded in an iterated search never goes up: after any
/// rounds it is no greater than it was after the first `k` of them.
pub proof fn lemma_best_never_rises<T: Metrizable>(
    s: Seq<T>,
    stalled: usize,
    threshold: usize,
    draws: Seq<(Seq<usize>, Seq<usize>)>,
    k: int,
)
    requires
        0 <= k <= draws.len(),
    ensures
        rounds_best(s, stalled, threshold, draws) <= rounds_best(
            s,
            stalled,
            threshold,
            draws.take(k),
        ),
    decreases draws.len() - k,
{
    if k == draws.len() {
        assert(draws.take(k) =~= draws);
    } else {
        lemma_best_never_rises(s, stalled, threshold, draws.drop_last(), k);
        assert(draws.drop_last().take(k) =~= draws.take(k));
    }
}

/// In any run of rounds, the best length recorded after any of them is no
/// greater than it was after fewer.
pub proof fn lemma_run_never_rises<T: Metrizable>(
    s: Seq<T>,
    threshold: usize,
    run: Seq<(Seq<usize>, Seq<usize>)>,
)
    ensures
        forall|i: int, j: int|
            0 <= i <= j <= run.len() ==> rounds_best(s, 0usize, threshold, #[trigger] run.take(j))
                <= rounds_best(s, 0usize, threshold, #[trigger] run.take(i)),
{
    assert forall|i: int, j: int| 0 <= i <= j <= run.len() implies rounds_best(
        s,
        0usize,
        threshold,
        #[trigger] run.take(j),
    ) <= rounds_best(s, 0usize, threshold, #[trigger] run.take(i)) by {
        lemma_best_never_rises(s, 0usize, threshold, run.take(j), i);
        assert(run.take(j).take(i) =~= run.take(i));
    }
}

/// Where cloning a node gives an equal node, a tour of clones is the tour
/// itself.
pub proof fn lemma_clone_of_exact<T: Clone>(from: Seq<T>, to: Seq<T>)
    requires
        faithful_clone::<T>(),
        clone_of(from, to),
    ensures
        to == from,
{
    assert(to =~= from);
}

/// Whether `after` can be what an iterated search of the tour `s` leaves: for
/// some run of rounds, `after` is the tour after the first `kept` of them, in
/// clones of its nodes where a recorded tour was put back; that tour is no
/// longer than the best length recorded in the run; and the best length
/// recorded after any rounds of the run is no greater than it was after fewer.
pub open spec fn searched<T: Metrizable + Clone>(s: Seq<T>, threshold: usize, after: Seq<T>) -> bool {
    exists|run: Seq<(Seq<usize>, Seq<usize>)>, kept: int|
        {
            &&& well_drawn(run, s.len())
            &&& 0 <= kept <= run.len()
            &&& clone_of((#[trigger] rounds_outcome(s, 0usize, threshold, run.take(kept))).0, after)
            &&& tour_length(rounds_outcome(s, 0usize, threshold, run.take(kept)).0) <= rounds_best(
                s,
                0usize,
                threshold,
                run,
            )
            &&& forall|i: int, j: int|
                0 <= i <= j <= run.len() ==> rounds_best(
                    s,
                    0usize,
                    threshold,
                    #[trigger] run.take(j),
                ) <= rounds_best(s, 0usize, threshold, #[trigger] run.take(i))
        }
}

/// Whether `after` can be what optimizing the tour `given` leaves within
/// `nanos` nanoseconds. For a tour of two nodes or more, the search starts from
/// the constructed tour: the tour as given if it is constructed already, else
/// the tour of the nearest-neighbour walk from some start. With no time,
/// `after` is that tour. Otherwise `after` is what a search of that tour
/// leaves, at a threshold of the number of nodes with its second bit flipped.
pub open spec fn optimized<T: Metrizable + Clone>(given: Seq<T>, nanos: u128, after: Seq<T>) -> bool {
    given.len() > 1 ==> exists|start: usize|
        {
            &&& start < given.len()
            &&& nanos == 0 ==> after == constructed(given, start)
            &&& searched(
                #[trigger] constructed(given, start),
                ((given.len() as usize) ^ 2) as usize,
                after,
            )
        }
}

impl<T: Metrizable + Clone> Tour<T> {
    /// One round of the iterated search: a 2-opt move at positions drawn at
    /// random, then, if `threshold` rounds without improvement came before and
    /// this one brought none either, a look at the best tour so far and a 4-opt
    /// move at positions drawn at random as a kick.
    ///
    /// The tour and the count of stalled rounds are afterwards what
    /// `round_outcome` gives for the positions drawn. A tour that the round
    /// records as the best so far is the tour as the round found it. Whatever
    /// is drawn, the tour keeps its nodes and is either strictly shorter
    /// afterwards or as it was, and the best length recorded does not go up.
    /// The tour must hold no more than `isize::MAX` nodes.
    pub fn search_round(&mut self, search: &mut Search<T>, threshold: usize)
        requires
            old(search).tracks(old(self)@),
            old(self)@.len() <= isize::MAX,
        ensures
            old(self)@.len() > 0 ==> exists|first: Seq<usize>, kick: Seq<usize>|
                {
                    &&& drawn_from(first, 2, old(self)@.len())
                    &&& drawn_from(kick, 4, old(self)@.len())
                    &&& #[trigger] round_outcome(
                        old(self)@,
                        old(search).stalled,
                        threshold,
                        first,
                        kick,
                    ) == (final(self)@, final(search).stalled)
                    &&& final(search).best_len == round_best(
                        old(self)@,
                        old(search).stalled,
                        threshold,
                        first,
                        old(search).best_len,
                    )
                },
            final(search).best_len == old(search).best_len ==> final(search).best@ == old(
                search,
            ).best@,
            final(search).best_len < old(search).best_len ==> clone_of(
                old(self)@,
                final(search).best@,
            ) && final(search).best_len == tour_length(old(self)@),
            final(search).tracks(final(self)@),
            final(search).best_len <= old(search).best_len,
            final(self)@.len() == old(self)@.len(),
            final(self)@.to_multiset() == old(self)@.to_multiset(),
            tour_length(final(self)@) < tour_length(old(self)@) || final(self)@ == old(self)@,
            final(search).stalled == 0 || {
                &&& final(search).stalled == old(search).stalled + 1
                &&& old(search).stalled < threshold
                &&& final(self)@ == old(self)@
                &&& final(search).best_len == old(search).best_len
                &&& final(search).best@ == old(search).best@
            },
    {
        let ghost n = self@.len();
        let ghost stalled = search.stalled;
        let gain = k_opt(2, self);
        let ghost mid = self@;
        let ghost mut kick: Seq<usize> = seq![0usize, 0usize, 0usize, 0usize];
        if search.note_outcome(&self.path, threshold, gain.is_some()) {
            k_opt(4, self);
            proof {
                if n > 0 {
                    kick = choose|kick: Seq<usize>|
                        drawn_from(kick, 4, n) && self@ == k_opt_outcome(4, mid, kick);
                }
            }
        }
        proof {
            if n > 0 {
                let first = choose|first: Seq<usize>|
                    drawn_from(first, 2, n) && mid == k_opt_outcome(2, old(self)@, first);
                assert(round_outcome(old(self)@, stalled, threshold, first, kick) == (
                    self@,
                    search.stalled,
                ));
                assert(search.best_len == round_best(
                    old(self)@,
                    stalled,
                    threshold,
                    first,
                    old(search).best_len,
                ));
            }
        }
    }

    /// The iterated search on the tour as it stands: rounds of 2-opt moves, with
    /// a 4-opt kick after every run of more than `threshold` rounds without
    /// improvement, until more than `budget` nanoseconds have passed on the
    /// clock, which is read once after each round. The search also ends after
    /// `u64::MAX` rounds.
    ///
    /// A tour of fewer than two nodes, and any tour with a `budget` of zero, is
    /// left as it is, at once. Otherwise the tour is afterwards what the rounds
    /// have made of it, or the best tour that they recorded on the way if that
    /// is as short, in clones of its nodes: `searched` says so, with the best
    /// lengths that the run recorded, which never go up and bound the result.
    /// Where cloning a node gives an equal node, it is a rearrangement of the
    /// tour before, and no longer than it. The tour must hold no more than
    /// `isize::MAX` nodes.
    pub fn search(&mut self, budget: u128, threshold: usize)
        requires
            old(self)@.len() <= isize::MAX,
        ensures
            searched(old(self)@, threshold, final(self)@),
            final(self)@.len() == old(self)@.len(),
            old(self)@.len() <= 1 || budget == 0 ==> final(self)@ == old(self)@,
            faithful_clone::<T>() ==> {
                &&& final(self)@.to_multiset() == old(self)@.to_multiset()
                &&& tour_length(final(self)@) <= tour_length(old(self)@)
            },
    {
        let ghost n = self@.len();
        let ghost mut log: Seq<(Seq<usize>, Seq<usize>)> = Seq::empty();
        let ghost mut best_log: Seq<(Seq<usize>, Seq<usize>)> = Seq::empty();
        proof {
            assert(self.path.len() == self@.len());
            lemma_tour_length_fits(self@);
            assert(log.take(0) =~= log);
            assert(rounds_outcome(self@, 0usize, threshold, log.take(0)) == (self@, 0usize));
            assert(clone_of(self@, self@));
            lemma_run_never_rises(self@, threshold, log);
        }
        if self.path.len() <= 1 || budget == 0 {
            return ;
        }
        proof {
            lemma_tour_length_fits(self@);
        }
        let start_time = Instant::now();
        let mut search: Search<T> = Search::new();
        let mut rounds: u64 = 0;
        while rounds < u64::MAX
            invariant
                n == old(self)@.len(),
                0 < n <= isize::MAX,
                search.tracks(self@),
                self@.len() == old(self)@.len(),
                self@.to_multiset() == old(self)@.to_multiset(),
                tour_length(self@) <= tour_length(old(self)@),
                well_drawn(log, n),
                well_drawn(best_log, n),
                rounds_outcome(old(self)@, 0usize, threshold, log) == (self@, search.stalled),
                search.best_len == rounds_best(old(self)@, 0usize, threshold, log),
                search.best_len < u128::MAX ==> clone_of(
                    rounds_outcome(old(self)@, 0usize, threshold, best_log).0,
                    search.best@,
                ) && tour_length(rounds_outcome(old(self)@, 0usize, threshold, best_log).0)
                    == search.best_len,
                best_log.len() <= log.len(),
                best_log == log.take(best_log.len() as int),
            decreases u64::MAX - rounds,
        {
            let ghost before = self@;
            let ghost stalled = search.stalled;
            let ghost best_len = search.best_len;
            self.search_round(&mut search, threshold);
            proof {
                let (first, kick) = choose|first: Seq<usize>, kick: Seq<usize>|
                    {
                        &&& drawn_from(first, 2, n)
                        &&& drawn_from(kick, 4, n)
                        &&& #[trigger] round_outcome(before, stalled, threshold, first, kick) == (
                            self@,
                            search.stalled,
                        )
                        &&& search.best_len == round_best(
                            before,
                            stalled,
                            threshold,
                            first,
                            best_len,
                        )
                    };
                let longer = log.push((first, kick));
                assert(longer.drop_last() =~= log);
                assert(longer.last() == (first, kick));
                if search.best_len < best_len {
                    best_log = log;
                }
                assert(longer.take(best_log.len() as int) =~= log.take(best_log.len() as int));
                log = longer;
            }
            rounds = rounds + 1;
            let passed: u128 = start_time.elapsed().as_nanos();
            if passed > budget {
                break ;
            }
        }
        proof {
            assert(self.path.len() == self@.len());
            lemma_tour_length_fits(self@);
            assert(clone_of(self@, self@));
            assert(log.take(log.len() as int) =~= log);
            lemma_run_never_rises(old(self)@, threshold, log);
        }
        let ghost working = self@;
        let ghost best_len = search.best_len;
        search.settle(&mut self.path);
        proof {
            let kept = if tour_length(working) < best_len {
                log.len() as int
            } else {
                best_log.len() as int
            };
            assert(clone_of(rounds_outcome(old(self)@, 0usize, threshold, log.take(kept)).0, self@));
        }
    }

    /// Improves the tour within the time `timeout`. It first constructs the
    /// tour: a tour that is its own nearest-neighbour walk from its first node
    /// is constructed already and stays as it is; any other tour is built anew
    /// by the walk from a node drawn at random. Then it runs the iterated
    /// search, with the threshold that `stagnation_threshold` gives for the
    /// tour's size.
    ///
    /// A tour of fewer than two nodes is left as it is, at once. With a
    /// `timeout` of zero the result is the constructed tour. Where cloning a
    /// node gives an equal node, the result is a rearrangement of the tour as
    /// given and no longer than the tour of the walk from some start; it is no
    /// longer than the tour as given if that was constructed already. The tour
    /// must hold no more than `isize::MAX` nodes.
    pub fn optimize_kopt(&mut self, timeout: Duration)
        requires
            old(self)@.len() <= isize::MAX,
        ensures
            optimized(old(self)@, duration_nanos(timeout), final(self)@),
            final(self)@.len() == old(self)@.len(),
            old(self)@.len() <= 1 ==> final(self)@ == old(self)@,
            old(self)@.len() > 1 && duration_nanos(timeout) == 0 ==> exists|start: usize|
                start < old(self)@.len() && final(self)@ == #[trigger] constructed(
                    old(self)@,
                    start,
                ),
            faithful_clone::<T>() ==> final(self)@.to_multiset() == old(self)@.to_multiset(),
            faithful_clone::<T>() && nn_tour(old(self)@, 0) == old(self)@ ==> tour_length(
                final(self)@,
            ) <= tour_length(old(self)@),
            faithful_clone::<T>() && old(self)@.len() > 1 ==> exists|start: usize|
                start < old(self)@.len() && tour_length(final(self)@) <= tour_length(
                    #[trigger] nn_tour(old(self)@, start),
                ),
    {
        let ghost given = self@;
        let ghost mut from: usize = 0;
        if self.path.len() > 1 {
            let own = self.nn_order_from(0);
            proof {
                assert(self.path.len() == self@.len());
                lemma_nn_order(given, 0, given.len());
                lemma_own_walk(given);
            }
            if !is_in_order(&own) {
                let start: usize = rand_index(self);
                proof {
                    from = start;
                    lemma_nn_tour_permutes(given, start);
                }
                self.optimize_nn_from(start);
            }
        }
        let ghost begun = self@;
        let threshold: usize = stagnation_threshold(self.path.len());
        self.search(timeout.as_nanos(), threshold);
        proof {
            if given.len() > 1 {
                assert(begun == constructed(given, from));
                assert(searched(
                    constructed(given, from),
                    ((given.len() as usize) ^ 2) as usize,
                    self@,
                ));
                if faithful_clone::<T>() {
                    assert(tour_length(self@) <= tour_length(nn_tour(given, from)));
                }
            }
        }
    }

    /// Improves the tour within the time `timeout`; the same as
    /// `optimize_kopt`.
    pub fn solve_kopt(&mut self, timeout: Duration)
        requires
            old(self)@.len() <= isize::MAX,
        ensures
            optimized(old(self)@, duration_nanos(timeout), final(self)@),
            final(self)@.len() == old(self)@.len(),
            old(self)@.len() <= 1 ==> final(self)@ == old(self)@,
            old(self)@.len() > 1 && duration_nanos(timeout) == 0 ==> exists|start: usize|
                start < old(self)@.len() && final(self)@ == #[trigger] constructed(
                    old(self)@,
                    start,
                ),
            faithful_clone::<T>() ==> final(self)@.to_multiset() == old(self)@.to_multiset(),
            faithful_clone::<T>() && nn_tour(old(self)@, 0) == old(self)@ ==> tour_length(
                final(self)@,
            ) <= tour_length(old(self)@),
            faithful_clone::<T>() && old(self)@.len() > 1 ==> exists|start: usize|
                start < old(self)@.len() && tour_length(final(self)@) <= tour_length(
                    #[trigger] nn_tour(old(self)@, start),
                ),
    {
        self.optimize_kopt(timeout);
    }
}

} // verus!
