//! The search driver: many trials of one problem, and the choice of the
//! best among them.

use crate::layout::Layout;
use crate::optimizer::{pieces_wanted, width_of, SolveError};
use crate::problem::Problem;
use vstd::prelude::*;

verus! {

/// What one trial came to.
pub type Trial = Result<Layout, SolveError>;

/// Whether `a` is the better layout: the cheaper one, or of two that cost
/// the same the one that places fewer cut pieces.
pub open spec fn beats(a: Layout, b: Layout) -> bool {
    a.cost() < b.cost() || (a.cost() == b.cost() && a.segments() < b.segments())
}

/// Whether the trial at `i` is the one to select: it gave a layout that
/// beats those of all trials before it and is beaten by none after it.
pub open spec fn is_best(trials: Seq<Trial>, i: int) -> bool {
    &&& 0 <= i < trials.len()
    &&& trials[i] is Ok
    &&& forall|j: int|
        0 <= j < i && (#[trigger] trials[j]) is Ok ==> beats(trials[i]->Ok_0, trials[j]->Ok_0)
    &&& forall|j: int|
        i < j < trials.len() && (#[trigger] trials[j]) is Ok ==> !beats(
            trials[j]->Ok_0,
            trials[i]->Ok_0,
        )
}

/// No layout beats itself, and beating carries over: the order in which
/// layouts are preferred has no cycles.
pub proof fn lemma_beats_is_strict(a: Layout, b: Layout, c: Layout)
    ensures
        !beats(a, a),
        beats(a, b) ==> !beats(b, a),
        beats(a, b) && beats(b, c) ==> beats(a, c),
        !beats(a, b) && !beats(b, c) ==> !beats(a, c),
{
}

/// Of two layouts one beats the other unless they cost the same and place
/// as many cut pieces.
pub proof fn lemma_beats_is_total(a: Layout, b: Layout)
    ensures
        beats(a, b) || beats(b, a) || (a.cost() == b.cost() && a.segments() == b.segments()),
{
}

/// There is at most one best trial: selection does not depend on anything
/// but the trials and their order.
pub proof fn lemma_best_is_unique(trials: Seq<Trial>, i: int, j: int)
    requires
        is_best(trials, i),
        is_best(trials, j),
    ensures
        i == j,
{
    if i < j {
        assert(trials[i] is Ok);
        assert(beats(trials[j]->Ok_0, trials[i]->Ok_0));
        assert(!beats(trials[j]->Ok_0, trials[i]->Ok_0));
    } else if j < i {
        assert(trials[j] is Ok);
        assert(beats(trials[i]->Ok_0, trials[j]->Ok_0));
        assert(!beats(trials[i]->Ok_0, trials[j]->Ok_0));
    }
}

/// Selects the best trial: the cheapest layout, of those the one that
/// places the fewest cut pieces, and of those the first. Failed trials do
/// not count; there is no best trial only if all failed.
pub fn select_best(trials: &Vec<Trial>) -> (best: Option<usize>)
    ensures
        match best {
            Some(i) => is_best(trials@, i as int),
            None => forall|j: int| 0 <= j < trials.len() ==> (#[trigger] trials[j]) is Err,
        },
{
    let mut best: Option<(usize, u128, u128)> = None;
    let mut k: usize = 0;
    while k < trials.len()
        invariant
            k <= trials.len(),
            match best {
                Some((i, cost, segments)) => is_best(trials@.take(k as int), i as int) && cost
                    == trials[i as int]->Ok_0.cost() && segments
                    == trials[i as int]->Ok_0.segments(),
                None => forall|j: int| 0 <= j < k ==> (#[trigger] trials[j]) is Err,
            },
        decreases trials.len() - k,
    {
        let ghost done = trials@.take(k as int);
        let ghost next = trials@.take(k + 1);
        proof {
            assert forall|j: int| 0 <= j < k implies #[trigger] next[j] == done[j] by {}
            assert(next[k as int] == trials[k as int]);
        }
        match &trials[k] {
            Err(_) => {
                proof {
                    if let Some((i, cost, segments)) = best {
                        assert(next[i as int] == done[i as int]);
                        assert forall|j: int|
                            i < j < next.len() && (#[trigger] next[j]) is Ok implies !beats(
                            next[j]->Ok_0,
                            next[i as int]->Ok_0,
                        ) by {
                            assert(next[j] == done[j]);
                        }
                    }
                }
            },
            Ok(layout) => {
                let cost = layout.get_cumulative_cost();
                let segments = layout.get_cut_count();
                let better = match best {
                    Some((_, best_cost, best_segments)) => cost < best_cost || (cost == best_cost
                        && segments < best_segments),
                    None => true,
                };
                proof {
                    if let Some((i, best_cost, best_segments)) = best {
                        assert(next[i as int] == done[i as int]);
                        if better {
                            assert forall|j: int|
                                0 <= j < k && (#[trigger] next[j]) is Ok implies beats(
                                next[k as int]->Ok_0,
                                next[j]->Ok_0,
                            ) by {
                                assert(next[j] == done[j]);
                                if j < i {
                                    assert(beats(done[i as int]->Ok_0, done[j]->Ok_0));
                                } else if j > i {
                                    assert(!beats(done[j]->Ok_0, done[i as int]->Ok_0));
                                }
                            }
                        } else {
                            assert forall|j: int|
                                i < j < next.len() && (#[trigger] next[j]) is Ok implies !beats(
                                next[j]->Ok_0,
                                next[i as int]->Ok_0,
                            ) by {
                                if j < k {
                                    assert(next[j] == done[j]);
                                }
                            }
                        }
                    }
                }
                if better {
                    best = Some((k, cost, segments));
                }
            },
        }
        k = k + 1;
    }
    assert(trials@.take(k as int) =~= trials@);
    match best {
        Some((i, _, _)) => Some(i),
        None => None,
    }
}

/// Whether `best` is what the trials come to: the layout of the best
/// trial, or nothing where every trial failed.
pub open spec fn is_best_of(trials: Seq<Trial>, best: Option<Layout>) -> bool {
    match best {
        Some(layout) => exists|i: int|
            is_best(trials, i) && #[trigger] trials[i] == Ok::<Layout, SolveError>(layout),
        None => forall|j: int| 0 <= j < trials.len() ==> (#[trigger] trials[j]) is Err,
    }
}

/// Takes the layout of the best trial out of the trials: see `select_best`.
pub fn take_best(trials: Vec<Trial>) -> (best: Option<Layout>)
    ensures
        is_best_of(trials@, best),
{
    let mut trials = trials;
    match select_best(&trials) {
        Some(i) => {
            match trials.swap_remove(i) {
                Ok(layout) => Some(layout),
                Err(_) => None,
            }
        },
        None => None,
    }
}

/// `rand::random`. Trusted: nothing is claimed of the number.
#[verifier::external_body]
fn random_seed() -> u64 {
    rand::random()
}

/// The seed of the first trial: the requested one, or one drawn at random.
pub fn base_seed(requested: Option<u64>) -> (seed: u64)
    ensures
        requested matches Some(wanted) ==> seed == wanted,
{
    match requested {
        Some(wanted) => wanted,
        None => random_seed(),
    }
}

impl Problem {
    /// Whether `trials` may be a run of `trial_count` trials of the problem
    /// with this cut width: there are that many, and each is what a trial
    /// may come to.
    pub open spec fn may_run(
        &self,
        trial_count: u64,
        cut_width: Option<usize>,
        trials: Seq<Trial>,
    ) -> bool {
        &&& trials.len() == trial_count
        &&& forall|i: int| 0 <= i < trials.len() ==> self.may_give(cut_width, #[trigger] trials[i])
    }

    /// Runs `trial_count` trials of the problem, the first with the seed
    /// `base_seed` and each further one with the next seed.
    pub fn run_trials(&self, trial_count: u64, base_seed: u64, cut_width: Option<usize>) -> (trials:
        Vec<Trial>)
        requires
            self.wf(),
            base_seed + trial_count <= u64::MAX,
            trial_count <= usize::MAX,
        ensures
            self.may_run(trial_count, cut_width, trials@),
    {
        let mut trials: Vec<Trial> = Vec::new();
        let mut done: u64 = 0;
        while done < trial_count
            invariant
                self.wf(),
                base_seed + trial_count <= u64::MAX,
                trial_count <= usize::MAX,
                done <= trial_count,
                self.may_run(done, cut_width, trials@),
            decreases trial_count - done,
        {
            let trial = self.solve(Some(base_seed + done), cut_width);
            trials.push(trial);
            done = done + 1;
        }
        trials
    }

    /// Solves the problem `trial_count` times over and returns the best
    /// layout found, or nothing if no trial gave one: the result is what a
    /// run of that many trials comes to. So a layout that is returned is
    /// one that the problem can report on; without trials, or beyond the
    /// optimizer's limits, nothing is returned; and with a trial, within
    /// the limits, where no cut piece is wanted at all, the layout that
    /// uses no stock is returned.
    pub fn solve_best(&self, trial_count: u64, base_seed: u64, cut_width: Option<usize>) -> (best:
        Option<Layout>)
        requires
            self.wf(),
            base_seed + trial_count <= u64::MAX,
            trial_count <= usize::MAX,
        ensures
            exists|trials: Seq<Trial>|
                self.may_run(trial_count, cut_width, trials) && #[trigger] is_best_of(trials, best),
            best matches Some(layout) ==> self.covers(&layout),
            trial_count == 0 || !self.within_limits(width_of(cut_width)) ==> best is None,
            trial_count > 0 && self.within_limits(width_of(cut_width)) && pieces_wanted(self@.cuts)
                == 0 ==> best is Some && best->0.stock_pieces@.len() == 0,
    {
        let trials = self.run_trials(trial_count, base_seed, cut_width);
        let ghost run = trials@;
        let best = take_best(trials);
        proof {
            assert(is_best_of(run, best));
            if best is Some {
                let i = choose|i: int|
                    is_best(run, i) && #[trigger] run[i] == Ok::<Layout, SolveError>(best->0);
                assert(self.may_give(cut_width, run[i]));
            } else if trial_count > 0 {
                assert(self.may_give(cut_width, run[0]));
                assert(run[0] is Err);
            }
        }
        best
    }
}

} // verus!
