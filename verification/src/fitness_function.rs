use vstd::prelude::*;

use crate::problem::{
    InstanceDescription, ProblemSolution, SolutionField, patients_in_range, MAX_QUANTITY,
    MAX_TOKENS, SCORE_BOUND,
};

verus! {

/// Total travel time of a token sequence: depot to first client of each
/// route, client to client inside a route, last client back to the depot
/// at each separator.  `prev` is the client just left, if any; empty
/// routes contribute nothing.
pub open spec fn travel_total(
    inst: InstanceDescription,
    s: Seq<SolutionField>,
    prev: Option<usize>,
) -> int
    decreases s.len(),
{
    if s.len() == 0 {
        0
    } else {
        match s[0] {
            SolutionField::Patient(id) => (match prev {
                Option::None => inst.travel_time_depot_spec(id as int),
                Option::Some(p) => inst.travel_time_patient_spec(p as int, id as int),
            }) + travel_total(inst, s.drop_first(), Option::Some(id)),
            SolutionField::Separator(_) => (match prev {
                Option::None => 0,
                Option::Some(p) => inst.travel_time_depot_spec(p as int),
            }) + travel_total(inst, s.drop_first(), Option::None),
        }
    }
}

/// The raw objective of one solution: its negated total travel time, so
/// that larger is better.
pub open spec fn solution_fitness(inst: InstanceDescription, s: Seq<SolutionField>) -> int {
    -travel_total(inst, s, Option::None)
}

/// Stepping one position into a sequence.
pub proof fn lemma_skip_step(s: Seq<SolutionField>, i: int)
    requires
        0 <= i < s.len(),
    ensures
        s.skip(i).len() == s.len() - i,
        s.skip(i)[0] == s[i],
        s.skip(i).drop_first() == s.skip(i + 1),
{
    assert(s.skip(i).drop_first() =~= s.skip(i + 1));
}

/// The fitness slot: assigns every solution of a batch a score, larger is
/// better, determined by the solution and the instance alone.
pub trait FitnessFunction: Sized {
    /// The value this fitness assigns to one solution on one instance.
    spec fn fitness_of(&self, s: Seq<SolutionField>, inst: InstanceDescription) -> int;

    fn get_fitnesses(&self, solutions: &Vec<ProblemSolution>, instance: &InstanceDescription)
        -> (r: Vec<i64>)
        requires
            instance.wf(),
            forall|k: int|
                0 <= k < solutions@.len() ==> patients_in_range(
                    (#[trigger] solutions@[k]).0@,
                    instance.patients@.len() as int,
                ) && solutions@[k].0@.len() <= MAX_TOKENS,
        ensures
            r@.len() == solutions@.len(),
            forall|k: int|
                0 <= k < r@.len() ==> #[trigger] r@[k] == self.fitness_of(
                    solutions@[k].0@,
                    *instance,
                ) && -SCORE_BOUND <= r@[k] <= 0,
    ;
}

/// The one fitness of the engine: negated accumulated travel time.
pub struct DefaultFitness {}

impl FitnessFunction for DefaultFitness {
    open spec fn fitness_of(&self, s: Seq<SolutionField>, inst: InstanceDescription) -> int {
        solution_fitness(inst, s)
    }

    fn get_fitnesses(&self, solutions: &Vec<ProblemSolution>, instance: &InstanceDescription)
        -> (r: Vec<i64>)
    {
        let mut fitnesses: Vec<i64> = Vec::new();
        let mut k: usize = 0;
        while k < solutions.len()
            invariant
                instance.wf(),
                forall|j: int|
                    0 <= j < solutions@.len() ==> patients_in_range(
                        (#[trigger] solutions@[j]).0@,
                        instance.patients@.len() as int,
                    ) && solutions@[j].0@.len() <= MAX_TOKENS,
                k <= solutions@.len(),
                fitnesses@.len() == k,
                forall|j: int|
                    0 <= j < k ==> #[trigger] fitnesses@[j] == solution_fitness(
                        *instance,
                        solutions@[j].0@,
                    ) && -SCORE_BOUND <= fitnesses@[j] <= 0,
            decreases solutions@.len() - k,
        {
            let solution = &solutions[k];
            let s = &solution.0;
            let ghost sq = s@;
            let mut total_distance: u64 = 0;
            let mut previous_patient: Option<usize> = None;
            let mut i: usize = 0;
            proof {
                assert(sq.skip(0) =~= sq);
            }
            while i < s.len()
                invariant
                    instance.wf(),
                    patients_in_range(sq, instance.patients@.len() as int),
                    sq.len() <= MAX_TOKENS,
                    s@ == sq,
                    i <= sq.len(),
                    total_distance <= i * MAX_QUANTITY,
                    previous_patient matches Some(p) ==> (p as int)
                        < instance.patients@.len(),
                    total_distance + travel_total(*instance, sq.skip(i as int), previous_patient)
                        == travel_total(*instance, sq, Option::None),
                decreases sq.len() - i,
            {
                proof {
                    lemma_skip_step(sq, i as int);
                }
                let delta: u64 = match s[i] {
                    SolutionField::Patient(current_id) => {
                        let d = match previous_patient {
                            Some(previous_id) => instance.travel_time_patient(
                                previous_id,
                                current_id,
                            ),
                            None => instance.travel_time_depot(current_id),
                        };
                        previous_patient = Some(current_id);
                        d
                    },
                    SolutionField::Separator(_) => {
                        let d = match previous_patient {
                            Some(previous_id) => instance.travel_time_depot(previous_id),
                            None => 0,
                        };
                        previous_patient = None;
                        d
                    },
                };
                total_distance = total_distance + delta;
                i += 1;
            }
            proof {
                assert(sq.skip(sq.len() as int).len() == 0);
            }
            fitnesses.push(-(total_distance as i64));
            k += 1;
        }
        fitnesses
    }
}

} // verus!
