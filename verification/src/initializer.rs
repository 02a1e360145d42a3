use vstd::prelude::*;

use crate::problem::{
    lemma_routes_ms_prefix_agree, lemma_routes_ms_update_push, lemma_routes_seq_sep_order,
    lemma_swap_ms, routes_ms, sep_seq, valid_solution, Phenotype, ProblemSolution,
    SolutionField,
};
use crate::randomness::RandomSource;

verus! {

use vstd::multiset::Multiset;

broadcast use {
    vstd::seq_lib::group_to_multiset_ensures,
    vstd::multiset::group_multiset_axioms,
    vstd::multiset::group_multiset_properties,
};

/// The initialization slot: produces the first population.
pub trait PopulationInitializer: Sized {
    /// How many individuals the initializer produces.
    spec fn pop_count(&self) -> int;

    /// The client count its solutions are laid out for.
    spec fn n_patients(&self) -> int;

    /// The worker count its solutions are laid out for.
    spec fn n_workers(&self) -> int;

    /// The layout policy of this variant.
    spec fn ens(&self, r: Seq<ProblemSolution>) -> bool;

    fn initialize_population(&self, rng: &mut RandomSource) -> (r: Vec<ProblemSolution>)
        requires
            self.n_workers() >= 1,
        ensures
            r@.len() == self.pop_count(),
            forall|k: int|
                0 <= k < r@.len() ==> valid_solution(
                    (#[trigger] r@[k]).0@,
                    self.n_patients(),
                    self.n_workers(),
                ),
            self.ens(r@),
    ;
}

/// Random initialization: shuffle the clients, assign each to a uniformly
/// random worker, and serialize every worker's route in worker order.
pub struct DefaultInitializer {
    pub initial_population: usize,
    pub patient_amount: usize,
    pub nurses: usize,
}

impl PopulationInitializer for DefaultInitializer {
    open spec fn pop_count(&self) -> int {
        self.initial_population as int
    }

    open spec fn n_patients(&self) -> int {
        self.patient_amount as int
    }

    open spec fn n_workers(&self) -> int {
        self.nurses as int
    }

    /// Every solution serializes its routes in worker order: the
    /// separator subsequence is 0, 1, .., nurses-1, so each route's
    /// clients stand before its separator and an empty route shows as
    /// adjacent separators.
    open spec fn ens(&self, r: Seq<ProblemSolution>) -> bool {
        forall|k: int|
            0 <= k < r.len() ==> sep_seq((#[trigger] r[k]).0@) == Seq::new(
                self.nurses as nat,
                |i: int| SolutionField::Separator(i as usize),
            )
    }

    fn initialize_population(&self, rng: &mut RandomSource) -> (r: Vec<ProblemSolution>)
    {
        let ghost n = self.patient_amount as int;
        let ghost w = self.nurses as int;
        let mut solutions: Vec<ProblemSolution> = Vec::new();
        let mut c: usize = 0;
        while c < self.initial_population
            invariant
                n == self.patient_amount as int,
                w == self.nurses as int,
                w >= 1,
                c <= self.initial_population,
                solutions@.len() == c,
                forall|k: int|
                    0 <= k < c ==> valid_solution((#[trigger] solutions@[k]).0@, n, w),
                forall|k: int|
                    0 <= k < c ==> sep_seq((#[trigger] solutions@[k]).0@) == Seq::new(
                        self.nurses as nat,
                        |i: int| SolutionField::Separator(i as usize),
                    ),
            decreases self.initial_population - c,
        {
            // The full client range, then shuffled.
            let mut shuffled_patients: Vec<usize> = Vec::new();
            let mut k: usize = 0;
            proof {
                assert(Seq::<usize>::empty().to_multiset() =~= Multiset::<usize>::empty());
            }
            while k < self.patient_amount
                invariant
                    n == self.patient_amount as int,
                    k <= self.patient_amount,
                    shuffled_patients@.len() == k,
                    forall|v: usize|
                        #![trigger shuffled_patients@.to_multiset().count(v)]
                        shuffled_patients@.to_multiset().count(v) == if (v as int) < k {
                            1nat
                        } else {
                            0nat
                        },
                decreases self.patient_amount - k,
            {
                shuffled_patients.push(k);
                k += 1;
            }
            let mut idx: usize = self.patient_amount;
            while idx > 1
                invariant
                    n == self.patient_amount as int,
                    idx <= self.patient_amount,
                    shuffled_patients@.len() == n,
                    forall|v: usize|
                        #![trigger shuffled_patients@.to_multiset().count(v)]
                        shuffled_patients@.to_multiset().count(v) == if (v as int) < n {
                            1nat
                        } else {
                            0nat
                        },
                decreases idx,
            {
                let j = rng.next_below(idx);
                idx -= 1;
                let ghost before = shuffled_patients@;
                let a = shuffled_patients[idx];
                let b = shuffled_patients[j];
                shuffled_patients.set(idx, b);
                shuffled_patients.set(j, a);
                proof {
                    lemma_swap_ms(before, idx as int, j as int);
                }
            }

            // One route per worker, each client to a random worker.
            let mut nurses_routes: Vec<Vec<usize>> = Vec::new();
            let mut b: usize = 0;
            while b < self.nurses
                invariant
                    w == self.nurses as int,
                    b <= self.nurses,
                    nurses_routes@.len() == b,
                    routes_ms(nurses_routes@, b as int) == Multiset::<usize>::empty(),
                decreases self.nurses - b,
            {
                let ghost before = nurses_routes@;
                nurses_routes.push(Vec::new());
                proof {
                    lemma_routes_ms_prefix_agree(before, nurses_routes@, b as int);
                    assert(Seq::<usize>::empty().to_multiset() =~= Multiset::<usize>::empty());
                    assert(routes_ms(nurses_routes@, b as int + 1) =~= Multiset::<
                        usize,
                    >::empty());
                }
                b += 1;
            }

            let mut k: usize = 0;
            proof {
                assert(shuffled_patients@.take(0) =~= Seq::<usize>::empty());
                assert(Seq::<usize>::empty().to_multiset() =~= Multiset::<usize>::empty());
            }
            while k < shuffled_patients.len()
                invariant
                    n == self.patient_amount as int,
                    w == self.nurses as int,
                    w >= 1,
                    k <= shuffled_patients@.len(),
                    shuffled_patients@.len() == n,
                    forall|v: usize|
                        #![trigger shuffled_patients@.to_multiset().count(v)]
                        shuffled_patients@.to_multiset().count(v) == if (v as int) < n {
                            1nat
                        } else {
                            0nat
                        },
                    nurses_routes@.len() == w,
                    routes_ms(nurses_routes@, w) == shuffled_patients@.take(
                        k as int,
                    ).to_multiset(),
                decreases shuffled_patients@.len() - k,
            {
                let num = rng.next_below(self.nurses);
                let patient = shuffled_patients[k];
                let ghost before = nurses_routes@;
                nurses_routes[num].push(patient);
                proof {
                    lemma_routes_ms_update_push(
                        before,
                        nurses_routes@,
                        w,
                        num as int,
                        patient,
                    );
                    assert(shuffled_patients@.take(k as int + 1) =~= shuffled_patients@.take(
                        k as int,
                    ).push(patient));
                }
                k += 1;
            }

            let ps = Phenotype(nurses_routes);
            let ghost routes = ps.0@;
            let solution = ps.into_solution();
            proof {
                assert(shuffled_patients@.take(n) =~= shuffled_patients@);
                let sq = solution.0@;
                let full = shuffled_patients@.to_multiset();
                assert(routes_ms(routes, w) == full);
                assert(full.len() == shuffled_patients@.len());
                assert forall|k2: int| 0 <= k2 < sq.len() implies crate::problem::token_in_range(
                    #[trigger] sq[k2],
                    n,
                    w,
                ) by {
                    match sq[k2] {
                        SolutionField::Patient(id) => {
                            assert(full.count(id) > 0);
                        },
                        SolutionField::Separator(_) => {},
                    }
                }
                assert(valid_solution(sq, n, w));
                lemma_routes_seq_sep_order(routes, w);
            }
            solutions.push(solution);
            c += 1;
        }
        solutions
    }
}

} // verus!
