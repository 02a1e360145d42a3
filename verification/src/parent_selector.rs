use vstd::prelude::*;

use crate::problem::ProblemSolution;
use crate::problem::SolutionField;
use crate::randomness::RandomSource;
use crate::survivor_selection::solution_in;

verus! {

/// All values of the score vector are equal.
pub open spec fn all_equal(s: Seq<i64>) -> bool {
    forall|a: int, b: int| 0 <= a < s.len() && 0 <= b < s.len() ==> #[trigger] s[a] == #[trigger] s[b]
}

/// Sum of the first `i` weights.
pub open spec fn wsum(ws: Seq<u64>, i: int) -> int
    decreases i,
{
    if i <= 0 {
        0
    } else {
        wsum(ws, i - 1) + ws[i - 1]
    }
}

proof fn lemma_wsum_mono(ws: Seq<u64>, i: int, j: int)
    requires
        0 <= i <= j <= ws.len(),
    ensures
        wsum(ws, i) <= wsum(ws, j),
    decreases j - i,
{
    if i < j {
        lemma_wsum_mono(ws, i, j - 1);
    }
}

proof fn lemma_wsum_zero(ws: Seq<u64>, i: int)
    requires
        0 <= i <= ws.len(),
        wsum(ws, i) == 0,
    ensures
        forall|k: int| 0 <= k < i ==> ws[k] == 0,
    decreases i,
{
    if i > 0 {
        lemma_wsum_mono(ws, 0, i - 1);
        lemma_wsum_zero(ws, i - 1);
    }
}

/// The token sequence `x` is a candidate's, and that candidate carried a
/// positive selection weight unless every score was tied.
pub open spec fn weighted_choice_ok(
    candidates: Seq<ProblemSolution>,
    evals: Seq<i64>,
    x: Seq<SolutionField>,
) -> bool {
    exists|k: int|
        0 <= k < candidates.len() && (#[trigger] candidates[k]).0@ == x && (!all_equal(evals)
            ==> exists|m: int| 0 <= m < evals.len() && #[trigger] evals[m] < evals[k])
}

/// Smallest position interval of the cumulative weights that contains `r`:
/// the weighted draw `r` selects index `k`.
fn weighted_pick(weights: &Vec<u64>, r: u128) -> (k: usize)
    requires
        weights@.len() >= 1,
        (r as int) < wsum(weights@, weights@.len() as int),
        wsum(weights@, weights@.len() as int) <= u128::MAX,
    ensures
        (k as int) < weights@.len(),
        wsum(weights@, k as int) <= r as int,
        (r as int) < wsum(weights@, k as int + 1),
        weights@[k as int] > 0,
{
    let mut k: usize = 0;
    let mut acc: u128 = 0;
    proof {
        lemma_wsum_mono(weights@, 1, weights@.len() as int);
    }
    while k < weights.len() - 1 && acc + weights[k] as u128 <= r
        invariant
            weights@.len() >= 1,
            (r as int) < wsum(weights@, weights@.len() as int),
            wsum(weights@, weights@.len() as int) <= u128::MAX,
            k < weights@.len(),
            acc == wsum(weights@, k as int),
            acc <= r,
            wsum(weights@, k as int + 1) <= u128::MAX,
        decreases weights@.len() - k,
    {
        acc = acc + weights[k] as u128;
        k += 1;
        proof {
            lemma_wsum_mono(weights@, k as int + 1, weights@.len() as int);
        }
    }
    proof {
        if acc + weights@[k as int] <= r {
            lemma_wsum_mono(weights@, k as int + 1, weights@.len() as int);
            assert(false);
        }
    }
    k
}

/// The parent slot: draws the mating pool from the evaluated population.
pub trait ParentSelector: Sized {
    /// The selection policy of this variant, relating the mating pool to
    /// the candidates and their scores.
    spec fn ens(
        &self,
        candidates: Seq<ProblemSolution>,
        candidate_fitnesses: Seq<i64>,
        r: Seq<ProblemSolution>,
    ) -> bool;

    fn select_parents(
        &self,
        rng: &mut RandomSource,
        candidates: &Vec<ProblemSolution>,
        candidate_fitnesses: &Vec<i64>,
    ) -> (r: Vec<ProblemSolution>)
        requires
            candidates@.len() >= 1,
            candidate_fitnesses@.len() == candidates@.len(),
            forall|k: int|
                0 <= k < candidate_fitnesses@.len() ==> -4000000000000000000
                    <= #[trigger] candidate_fitnesses@[k] <= 4000000000000000000,
        ensures
            r@.len() == candidates@.len(),
            forall|j: int|
                0 <= j < r@.len() ==> solution_in(candidates@, (#[trigger] r@[j]).0@),
            self.ens(candidates@, candidate_fitnesses@, r@),
    ;
}

/// Fitness-proportional selection: scores are shifted so the minimum is
/// zero and individuals are drawn, with replacement, with probability
/// proportional to the shifted score; a zero-variance population is
/// treated as uniform.
pub struct DefaultParentSelector {}

impl ParentSelector for DefaultParentSelector {
    /// Every drawn parent is a candidate, and unless all scores are tied,
    /// never one of minimal score (its selection weight is zero).
    open spec fn ens(
        &self,
        candidates: Seq<ProblemSolution>,
        candidate_fitnesses: Seq<i64>,
        r: Seq<ProblemSolution>,
    ) -> bool {
        forall|j: int|
            0 <= j < r.len() ==> weighted_choice_ok(
                candidates,
                candidate_fitnesses,
                (#[trigger] r[j]).0@,
            )
    }

    fn select_parents(
        &self,
        rng: &mut RandomSource,
        candidates: &Vec<ProblemSolution>,
        candidate_fitnesses: &Vec<i64>,
    ) -> (r: Vec<ProblemSolution>)
    {
        let ghost evals = candidate_fitnesses@;
        // The minimal score, for shifting.
        let mut min_fitness: i64 = candidate_fitnesses[0];
        let mut i: usize = 1;
        let ghost mut min_at: int = 0;
        while i < candidate_fitnesses.len()
            invariant
                evals == candidate_fitnesses@,
                1 <= i <= evals.len(),
                0 <= min_at < i,
                evals[min_at] == min_fitness,
                forall|k: int| 0 <= k < i ==> #[trigger] evals[k] >= min_fitness,
            decreases evals.len() - i,
        {
            if candidate_fitnesses[i] < min_fitness {
                min_fitness = candidate_fitnesses[i];
                proof {
                    min_at = i as int;
                }
            }
            i += 1;
        }

        // Shifted weights, all non-negative.
        let mut scaled_fitnesses: Vec<u64> = Vec::new();
        let mut i: usize = 0;
        while i < candidate_fitnesses.len()
            invariant
                evals == candidate_fitnesses@,
                forall|k: int|
                    0 <= k < evals.len() ==> -4000000000000000000 <= #[trigger] evals[k]
                        <= 4000000000000000000,
                forall|k: int| 0 <= k < evals.len() ==> #[trigger] evals[k] >= min_fitness,
                -4000000000000000000 <= min_fitness <= 4000000000000000000,
                i <= evals.len(),
                scaled_fitnesses@.len() == i,
                forall|k: int|
                    0 <= k < i ==> #[trigger] scaled_fitnesses@[k] == evals[k] - min_fitness,
                forall|k: int|
                    0 <= k < i ==> #[trigger] scaled_fitnesses@[k] <= 8000000000000000000,
            decreases evals.len() - i,
        {
            scaled_fitnesses.push((candidate_fitnesses[i] - min_fitness) as u64);
            i += 1;
        }

        // Total weight; zero variance means uniform weights.
        let mut total: u128 = 0;
        let mut i: usize = 0;
        while i < scaled_fitnesses.len()
            invariant
                i <= scaled_fitnesses@.len(),
                scaled_fitnesses@.len() <= usize::MAX,
                forall|k: int|
                    0 <= k < scaled_fitnesses@.len() ==> #[trigger] scaled_fitnesses@[k]
                        <= 8000000000000000000,
                total == wsum(scaled_fitnesses@, i as int),
                total <= i * 8000000000000000000,
            decreases scaled_fitnesses@.len() - i,
        {
            total = total + scaled_fitnesses[i] as u128;
            i += 1;
        }

        let uniform_mode = total == 0;
        proof {
            if total == 0 {
                lemma_wsum_zero(scaled_fitnesses@, scaled_fitnesses@.len() as int);
                assert forall|a: int, b: int|
                    0 <= a < evals.len() && 0 <= b < evals.len() implies #[trigger] evals[a]
                    == #[trigger] evals[b] by {
                    assert(scaled_fitnesses@[a] == 0);
                    assert(scaled_fitnesses@[b] == 0);
                }
            }
        }

        // Draw with replacement, population-size times.
        let mut chosen_parents: Vec<ProblemSolution> = Vec::new();
        let mut j: usize = 0;
        while j < candidates.len()
            invariant
                evals == candidate_fitnesses@,
                candidates@.len() >= 1,
                evals.len() == candidates@.len(),
                scaled_fitnesses@.len() == candidates@.len(),
                uniform_mode ==> all_equal(evals),
                !uniform_mode ==> total == wsum(
                    scaled_fitnesses@,
                    scaled_fitnesses@.len() as int,
                ) && total >= 1,
                0 <= min_at < evals.len(),
                forall|k: int| 0 <= k < evals.len() ==> #[trigger] evals[k] >= min_fitness,
                evals[min_at] == min_fitness,
                forall|k: int|
                    0 <= k < scaled_fitnesses@.len() ==> #[trigger] scaled_fitnesses@[k]
                        == evals[k] - min_fitness,
                j <= candidates@.len(),
                chosen_parents@.len() == j,
                forall|p: int|
                    0 <= p < j ==> solution_in(candidates@, (#[trigger] chosen_parents@[p]).0@),
                forall|p: int|
                    0 <= p < j ==> weighted_choice_ok(
                        candidates@,
                        evals,
                        (#[trigger] chosen_parents@[p]).0@,
                    ),
            decreases candidates@.len() - j,
        {
            let pick: usize = if uniform_mode {
                rng.next_below(candidates.len())
            } else {
                let draw = rng.next_below_u128(total);
                weighted_pick(&scaled_fitnesses, draw)
            };
            chosen_parents.push(candidates[pick].clone());
            proof {
                assert(solution_in(candidates@, (#[trigger] candidates@[pick as int]).0@));
                if !all_equal(evals) {
                    assert(!uniform_mode);
                    assert(scaled_fitnesses@[pick as int] == evals[pick as int] - min_fitness);
                    assert(evals[pick as int] > min_fitness);
                    assert(0 <= min_at < evals.len() && #[trigger] evals[min_at]
                        < evals[pick as int]);
                }
                assert(weighted_choice_ok(candidates@, evals, candidates@[pick as int].0@));
            }
            j += 1;
        }
        chosen_parents
    }
}

proof fn lemma_wsum_prefix_agree(a: Seq<u64>, b: Seq<u64>, i: int)
    requires
        0 <= i <= a.len(),
        a.len() <= b.len(),
        forall|k: int| 0 <= k < a.len() ==> a[k] == b[k],
    ensures
        wsum(a, i) == wsum(b, i),
    decreases i,
{
    if i > 0 {
        lemma_wsum_prefix_agree(a, b, i - 1);
    }
}

/// Pass-through selection: the population itself is the mating pool.
pub struct IdentityParentSelector;

impl ParentSelector for IdentityParentSelector {
    /// The pool is the candidate list, unchanged and in order.
    open spec fn ens(
        &self,
        candidates: Seq<ProblemSolution>,
        candidate_fitnesses: Seq<i64>,
        r: Seq<ProblemSolution>,
    ) -> bool {
        &&& r.len() == candidates.len()
        &&& forall|j: int| 0 <= j < r.len() ==> (#[trigger] r[j]).0@ == candidates[j].0@
    }

    fn select_parents(
        &self,
        rng: &mut RandomSource,
        candidates: &Vec<ProblemSolution>,
        candidate_fitnesses: &Vec<i64>,
    ) -> (r: Vec<ProblemSolution>)
    {
        let mut out: Vec<ProblemSolution> = Vec::new();
        let mut j: usize = 0;
        while j < candidates.len()
            invariant
                j <= candidates@.len(),
                out@.len() == j,
                forall|k: int| 0 <= k < j ==> (#[trigger] out@[k]).0@ == candidates@[k].0@,
            decreases candidates@.len() - j,
        {
            out.push(candidates[j].clone());
            j += 1;
        }
        proof {
            assert forall|j2: int| 0 <= j2 < out@.len() implies solution_in(
                candidates@,
                (#[trigger] out@[j2]).0@,
            ) by {
                assert(out@[j2].0@ == (#[trigger] candidates@[j2]).0@);
            }
        }
        out
    }
}

} // verus!
