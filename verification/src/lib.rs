//! An evolutionary optimizer for a capacitated routing problem with time
//! windows: a fixed number of workers based at a depot must visit every
//! client once, and the search minimizes total travel time while penalizing
//! capacity, time-window and late-return violations.

pub mod crossover;
pub mod fitness_function;
pub mod initializer;
pub mod mutator;
pub mod parent_selector;
pub mod penalty_function;
pub mod problem;
pub mod randomness;
pub mod repair_mechanism;
pub mod survivor_selection;

use vstd::prelude::*;

use crate::crossover::ParentCrossoverSystem;
use crate::fitness_function::FitnessFunction;
use crate::initializer::PopulationInitializer;
use crate::mutator::Mutator;
use crate::parent_selector::ParentSelector;
use crate::penalty_function::PenaltyFunction;
use crate::problem::{
    all_semi_valid, lemma_semi_patients_in_range, lemma_ms_eq_preserves_semi,
    lemma_valid_implies_semi, patients_in_range, semi_valid_solution, InstanceDescription,
    ProblemSolution, MAX_TOKENS,
};
use crate::randomness::RandomSource;
use crate::repair_mechanism::RepairMechanism;
use crate::survivor_selection::{solution_in, uniform_len, SurvivorSelector};
use std::io::Write;

verus! {

/// Adds two score vectors element by element.
pub fn elementwise_addition(a: &Vec<i64>, b: &Vec<i64>) -> (r: Vec<i64>)
    requires
        a@.len() == b@.len(),
        forall|k: int|
            #![trigger a@[k]]
            0 <= k < a@.len() ==> i64::MIN <= a@[k] + b@[k] <= i64::MAX,
    ensures
        r@.len() == a@.len(),
        forall|k: int| 0 <= k < r@.len() ==> r@[k] == a@[k] + b@[k],
{
    let mut r: Vec<i64> = Vec::new();
    let mut i: usize = 0;
    while i < a.len()
        invariant
            a@.len() == b@.len(),
            i <= a@.len(),
            r@.len() == i,
            forall|k: int|
                #![trigger a@[k]]
                0 <= k < a@.len() ==> i64::MIN <= a@[k] + b@[k] <= i64::MAX,
            forall|k: int| 0 <= k < i ==> r@[k] == a@[k] + b@[k],
        decreases a@.len() - i,
    {
        r.push(a[i] + b[i]);
        i += 1;
    }
    r
}

/// Sum of a score vector.
pub open spec fn seq_sum(s: Seq<i64>) -> int
    decreases s.len(),
{
    if s.len() == 0 {
        0
    } else {
        seq_sum(s.drop_last()) + s.last()
    }
}

/// Largest value of a non-empty score vector.
pub open spec fn seq_max(s: Seq<i64>) -> int
    decreases s.len(),
{
    if s.len() <= 1 {
        s[0] as int
    } else {
        let m = seq_max(s.drop_last());
        if s.last() > m {
            s.last() as int
        } else {
            m
        }
    }
}

/// One periodic diagnostic summary of a generation: score totals and
/// extremes, for observability only.
pub struct DiagnosticsRow {
    pub generation: usize,
    pub count: usize,
    pub eval_sum: i128,
    pub eval_max: i64,
    pub penalty_sum: i128,
    pub penalty_max: i64,
}

fn vec_sum(s: &Vec<i64>) -> (r: i128)
    ensures
        r == seq_sum(s@),
{
    let mut acc: i128 = 0;
    let mut i: usize = 0;
    while i < s.len()
        invariant
            i <= s@.len(),
            acc == seq_sum(s@.take(i as int)),
            acc >= (-9223372036854775808) * i,
            acc <= 9223372036854775807 * i,
        decreases s@.len() - i,
    {
        proof {
            assert(s@.take(i as int + 1).drop_last() =~= s@.take(i as int));
        }
        acc = acc + s[i] as i128;
        i += 1;
    }
    proof {
        assert(s@.take(s@.len() as int) =~= s@);
    }
    acc
}

fn vec_max(s: &Vec<i64>) -> (r: i64)
    requires
        s@.len() >= 1,
    ensures
        r == seq_max(s@),
{
    let mut best: i64 = s[0];
    let mut i: usize = 1;
    while i < s.len()
        invariant
            1 <= i <= s@.len(),
            best == seq_max(s@.take(i as int)),
        decreases s@.len() - i,
    {
        proof {
            assert(s@.take(i as int + 1).drop_last() =~= s@.take(i as int));
        }
        if s[i] > best {
            best = s[i];
        }
        i += 1;
    }
    proof {
        assert(s@.take(s@.len() as int) =~= s@);
    }
    best
}

/// The diagnostic summary of one generation's score vectors.
pub fn diagnostics_row(generation: usize, evals: &Vec<i64>, penalties: &Vec<i64>) -> (r:
    DiagnosticsRow)
    requires
        evals@.len() >= 1,
        penalties@.len() == evals@.len(),
    ensures
        r.generation == generation,
        r.count == evals@.len(),
        r.eval_sum == seq_sum(evals@),
        r.eval_max == seq_max(evals@),
        r.penalty_sum == seq_sum(penalties@),
        r.penalty_max == seq_max(penalties@),
{
    let eval_sum = vec_sum(evals);
    let eval_max = vec_max(evals);
    let penalty_sum = vec_sum(penalties);
    let penalty_max = vec_max(penalties);
    DiagnosticsRow {
        generation,
        count: evals.len(),
        eval_sum,
        eval_max,
        penalty_sum,
        penalty_max,
    }
}

/// Relies on std::io::Stdout and the writeln macro to print one
/// diagnostics line; the values themselves are computed by verified code.
#[verifier::external_body]
fn emit_diagnostics(row: &DiagnosticsRow) {
    let mut out = std::io::stdout();
    let _ = writeln!(
        out,
        "Gen: {}, fitness sum: {}, max fitness: {}, penalty sum: {}, best penalty: {}, size: {}",
        row.generation,
        row.eval_sum,
        row.eval_max,
        row.penalty_sum,
        row.penalty_max,
        row.count,
    );
}

/// The evolution driver: owns the population, the cached score vectors and
/// one implementation per operator slot, and runs the generational loop.
pub struct GA<I, F, P, S, C, M, R, V> where
    I: PopulationInitializer,
    F: FitnessFunction,
    P: PenaltyFunction,
    S: ParentSelector,
    C: ParentCrossoverSystem,
    M: Mutator,
    R: RepairMechanism,
    V: SurvivorSelector,
 {
    pub instance_description: InstanceDescription,
    pub population_initializer: I,
    pub fitness_function: F,
    pub penalty_function: Option<P>,
    pub parent_selector: S,
    pub crossover_system: C,
    pub mutator: M,
    pub repair_mechanism: Option<R>,
    pub survivor_selector: V,
    pub population: Vec<ProblemSolution>,
    pub population_eval: Vec<i64>,
    pub population_penalites: Vec<i64>,
    pub children: Vec<ProblemSolution>,
    pub children_eval: Vec<i64>,
}

impl<I, F, P, S, C, M, R, V> GA<I, F, P, S, C, M, R, V> where
    I: PopulationInitializer,
    F: FitnessFunction,
    P: PenaltyFunction,
    S: ParentSelector,
    C: ParentCrossoverSystem,
    M: Mutator,
    R: RepairMechanism,
    V: SurvivorSelector,
 {
    /// The penalty part of a solution's selection score; zero when no
    /// penalty slot is plugged in.
    pub open spec fn penalty_eval_of(&self, s: Seq<crate::problem::SolutionField>) -> int {
        match self.penalty_function {
            Option::Some(p) => p.penalty_of(s, self.instance_description),
            Option::None => 0,
        }
    }

    /// A solution's selection score: fitness plus penalty.
    pub open spec fn eval_of(&self, s: Seq<crate::problem::SolutionField>) -> int {
        self.fitness_function.fitness_of(s, self.instance_description) + self.penalty_eval_of(s)
    }

    /// All configured operators are admissible for this instance.
    pub open spec fn wf(&self) -> bool {
        let n = self.instance_description.patients@.len() as int;
        let w = self.instance_description.nbr_nurses as int;
        &&& self.instance_description.wf()
        &&& match self.penalty_function {
            Option::Some(p) => p.wf(),
            Option::None => true,
        }
        &&& self.population_initializer.n_patients() == n
        &&& self.population_initializer.n_workers() == w
        &&& self.population_initializer.pop_count() >= 2
        &&& self.population_initializer.pop_count() % 2 == 0
        &&& n + w >= 3
        &&& forall|ps: Seq<ProblemSolution>|
            all_semi_valid(ps, n, w) ==> #[trigger] self.mutator.pre(ps)
    }

    /// Selection scores of a batch: fitness plus penalty when a penalty
    /// slot is plugged in.
    pub fn eval_pop(&self, population: &Vec<ProblemSolution>) -> (r: Vec<i64>)
        requires
            self.instance_description.wf(),
            match self.penalty_function {
                Option::Some(p) => p.wf(),
                Option::None => true,
            },
            forall|k: int|
                0 <= k < population@.len() ==> patients_in_range(
                    (#[trigger] population@[k]).0@,
                    self.instance_description.patients@.len() as int,
                ) && population@[k].0@.len() <= MAX_TOKENS,
        ensures
            r@.len() == population@.len(),
            forall|k: int|
                0 <= k < r@.len() ==> #[trigger] r@[k] == self.eval_of(population@[k].0@)
                    && -4000000000000000000 <= r@[k] <= 0,
    {
        let fitness = self.fitness_function.get_fitnesses(
            population,
            &self.instance_description,
        );
        match &self.penalty_function {
            Some(pf) => {
                let penalties = pf.get_penalties(population, &self.instance_description);
                elementwise_addition(&fitness, &penalties)
            },
            None => fitness,
        }
    }

    /// Penalty scores of a batch; a penalty slot must be plugged in.
    pub fn get_penalties(&self, population: &Vec<ProblemSolution>) -> (r: Vec<i64>)
        requires
            self.instance_description.wf(),
            self.penalty_function is Some,
            match self.penalty_function {
                Option::Some(p) => p.wf(),
                Option::None => true,
            },
            forall|k: int|
                0 <= k < population@.len() ==> patients_in_range(
                    (#[trigger] population@[k]).0@,
                    self.instance_description.patients@.len() as int,
                ) && population@[k].0@.len() <= MAX_TOKENS,
        ensures
            r@.len() == population@.len(),
            forall|k: int|
                0 <= k < r@.len() ==> #[trigger] r@[k] == self.penalty_eval_of(
                    population@[k].0@,
                ),
    {
        match &self.penalty_function {
            Some(pf) => pf.get_penalties(population, &self.instance_description),
            None => {
                proof {
                    assert(false);
                }
                Vec::new()
            },
        }
    }

    /// The generational loop: initialize, then per generation evaluate,
    /// select parents, recombine, mutate, optionally repair, evaluate the
    /// children and select survivors; finally the evaluated population is
    /// returned.  Periodic diagnostic summaries are observability only.
    pub fn start(
        self,
        rng: &mut RandomSource,
        generations: usize,
        diagnostics: bool,
        diagnostics_interval: usize,
    ) -> (r: (Vec<ProblemSolution>, Vec<i64>, Vec<i64>))
        requires
            self.wf(),
            self.penalty_function is Some,
            diagnostics ==> diagnostics_interval >= 1,
        ensures
            r.0@.len() == self.population_initializer.pop_count(),
            forall|k: int|
                0 <= k < r.0@.len() ==> semi_valid_solution(
                    (#[trigger] r.0@[k]).0@,
                    self.instance_description.patients@.len() as int,
                    self.instance_description.nbr_nurses as int,
                ),
            r.1@.len() == r.0@.len(),
            r.2@.len() == r.0@.len(),
            forall|k: int|
                0 <= k < r.0@.len() ==> #[trigger] r.1@[k] == self.eval_of(r.0@[k].0@),
            forall|k: int|
                0 <= k < r.0@.len() ==> #[trigger] r.2@[k] == self.penalty_eval_of(
                    r.0@[k].0@,
                ),
    {
        let mut this = self;
        let ghost ga0 = this;
        let ghost n = this.instance_description.patients@.len() as int;
        let ghost w = this.instance_description.nbr_nurses as int;
        let ghost popc = this.population_initializer.pop_count();
        proof {
            assert(this.instance_description.patients@.len()
                == this.instance_description.patients.len());
        }
        let initial = this.population_initializer.initialize_population(rng);
        this.population = initial;
        proof {
            assert forall|k: int|
                0 <= k < this.population@.len() implies semi_valid_solution(
                (#[trigger] this.population@[k]).0@,
                n,
                w,
            ) by {
                lemma_valid_implies_semi(this.population@[k].0@, n, w);
            }
        }
        let mut i: usize = 0;
        while i < generations
            invariant
                this.instance_description == ga0.instance_description,
                this.population_initializer == ga0.population_initializer,
                this.fitness_function == ga0.fitness_function,
                this.penalty_function == ga0.penalty_function,
                this.parent_selector == ga0.parent_selector,
                this.crossover_system == ga0.crossover_system,
                this.mutator == ga0.mutator,
                this.repair_mechanism == ga0.repair_mechanism,
                this.survivor_selector == ga0.survivor_selector,
                ga0.wf(),
                this.penalty_function is Some,
                diagnostics ==> diagnostics_interval >= 1,
                n == this.instance_description.patients@.len() as int,
                w == this.instance_description.nbr_nurses as int,
                popc == this.population_initializer.pop_count(),
                i <= generations,
                this.population@.len() == popc,
                forall|k: int|
                    0 <= k < this.population@.len() ==> semi_valid_solution(
                        (#[trigger] this.population@[k]).0@,
                        n,
                        w,
                    ),
            decreases generations - i,
        {
            proof {
                lemma_semi_population_usable(this.population@, n, w, ga0.instance_description);
            }
            let pe = this.eval_pop(&this.population);
            this.population_eval = pe;
            let pp = this.get_penalties(&this.population);
            this.population_penalites = pp;

            if diagnostics && i % diagnostics_interval == 0 {
                let row = diagnostics_row(i, &this.population_eval, &this.population_penalites);
                emit_diagnostics(&row);
            }

            let selected_parents = this.parent_selector.select_parents(
                rng,
                &this.population,
                &this.population_eval,
            );
            proof {
                assert forall|k: int|
                    0 <= k < selected_parents@.len() implies semi_valid_solution(
                    (#[trigger] selected_parents@[k]).0@,
                    n,
                    w,
                ) by {
                    assert(solution_in(this.population@, selected_parents@[k].0@));
                    let j = choose|j: int|
                        0 <= j < this.population@.len() && (#[trigger] this.population@[j]).0@
                            == selected_parents@[k].0@;
                    assert(semi_valid_solution(this.population@[j].0@, n, w));
                }
                assert(all_semi_valid(selected_parents@, n, w));
            }
            let crossed = this.crossover_system.cross_over(rng, &selected_parents);
            proof {
                assert(all_semi_valid(crossed@, n, w));
                assert(ga0.mutator.pre(crossed@));
                assert(this.mutator.pre(crossed@));
            }
            let mutated = this.mutator.mutate(rng, &crossed);
            proof {
                assert forall|k: int|
                    0 <= k < mutated@.len() implies semi_valid_solution(
                    (#[trigger] mutated@[k]).0@,
                    n,
                    w,
                ) by {
                    assert(semi_valid_solution(crossed@[k].0@, n, w));
                    lemma_ms_eq_preserves_semi(crossed@[k].0@, mutated@[k].0@, n, w);
                }
            }
            let repaired = match &this.repair_mechanism {
                Some(repair) => {
                    proof {
                        lemma_semi_population_usable(mutated@, n, w, ga0.instance_description);
                    }
                    let rep = repair.repair(rng, &mutated, &this.instance_description);
                    proof {
                        assert forall|k: int|
                            0 <= k < rep@.len() implies semi_valid_solution(
                            (#[trigger] rep@[k]).0@,
                            n,
                            w,
                        ) by {
                            assert(semi_valid_solution(mutated@[k].0@, n, w));
                            lemma_ms_eq_preserves_semi(mutated@[k].0@, rep@[k].0@, n, w);
                        }
                    }
                    rep
                },
                None => mutated,
            };
            this.children = repaired;
            proof {
                lemma_semi_population_usable(this.children@, n, w, ga0.instance_description);
            }
            let ce = this.eval_pop(&this.children);
            this.children_eval = ce;

            proof {
                assert forall|k: int|
                    0 <= k < this.population@.len() implies (
                #[trigger] this.population@[k]).0@.len() == n + w by {
                    assert(semi_valid_solution(this.population@[k].0@, n, w));
                }
                assert(uniform_len(this.population@, n + w));
                assert forall|k: int|
                    0 <= k < this.children@.len() implies (#[trigger] this.children@[k]).0@.len()
                    == n + w by {
                    assert(semi_valid_solution(this.children@[k].0@, n, w));
                }
                assert(uniform_len(this.children@, n + w));
            }
            let survivors = this.survivor_selector.select_survivors(
                &this.population,
                &this.population_eval,
                &this.children,
                &this.children_eval,
            );
            proof {
                assert forall|k: int|
                    0 <= k < survivors@.len() implies semi_valid_solution(
                    (#[trigger] survivors@[k]).0@,
                    n,
                    w,
                ) by {
                    assert(solution_in(this.population@, survivors@[k].0@) || solution_in(
                        this.children@,
                        survivors@[k].0@,
                    ));
                    if solution_in(this.population@, survivors@[k].0@) {
                        let j = choose|j: int|
                            0 <= j < this.population@.len() && (
                            #[trigger] this.population@[j]).0@ == survivors@[k].0@;
                        assert(semi_valid_solution(this.population@[j].0@, n, w));
                    } else {
                        let j = choose|j: int|
                            0 <= j < this.children@.len() && (#[trigger] this.children@[j]).0@
                                == survivors@[k].0@;
                        assert(semi_valid_solution(this.children@[j].0@, n, w));
                    }
                }
            }
            this.population = survivors;
            i += 1;
        }
        proof {
            lemma_semi_population_usable(this.population@, n, w, ga0.instance_description);
        }
        let eval = this.eval_pop(&this.population);
        let penalties = this.get_penalties(&this.population);
        (this.population, eval, penalties)
    }
}

/// A semi-valid population of a well-formed instance meets what the score
/// functions ask: client tokens in range and a bounded token count.
proof fn lemma_semi_population_usable(
    ps: Seq<ProblemSolution>,
    n: int,
    w: int,
    inst: InstanceDescription,
)
    requires
        inst.wf(),
        n == inst.patients@.len() as int,
        w == inst.nbr_nurses as int,
        forall|k: int|
            0 <= k < ps.len() ==> semi_valid_solution((#[trigger] ps[k]).0@, n, w),
    ensures
        forall|k: int|
            0 <= k < ps.len() ==> patients_in_range((#[trigger] ps[k]).0@, n) && ps[k].0@.len()
                <= MAX_TOKENS,
{
    assert forall|k: int|
        0 <= k < ps.len() implies patients_in_range((#[trigger] ps[k]).0@, n) && ps[k].0@.len()
        <= MAX_TOKENS by {
        assert(inst.patients@.len() == inst.patients.len());
        lemma_semi_patients_in_range(ps[k].0@, n, w);
    }
}

} // verus!
