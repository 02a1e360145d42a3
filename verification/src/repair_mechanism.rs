use vstd::prelude::*;

use crate::problem::{
    lemma_ms_eq_preserves_in_range, lemma_relocate_ms, lemma_swap_ms, patients_in_range,
    InstanceDescription, ProblemSolution, SolutionField,
};
use crate::randomness::RandomSource;

verus! {

/// Ceiling on full scans per solution: the adjacent-pair fix-up has no
/// natural fixed point on mutually blocking pairs, so the pass loop is
/// bounded and returns the best effort reached.
pub const REPAIR_PASS_LIMIT: usize = 64;

/// Probability scale midpoint: a fair coin for choosing which of two
/// mutually infeasible neighbours to relocate.
pub const HALF_RATE: u64 = 500000;

/// Every adjacent client pair can be served in its given order: the
/// earliest departure from the first client reaches the second before its
/// feasible deadline.
pub open spec fn adjacent_pairs_feasible(inst: InstanceDescription, s: Seq<SolutionField>) -> bool {
    forall|i: int|
        0 <= i < s.len() - 1 ==> match (#[trigger] s[i], s[i + 1]) {
            (SolutionField::Patient(a), SolutionField::Patient(b)) => {
                inst.patients@[a as int].start_time + inst.patients@[a as int].care_time
                    + inst.travel_time_patient_spec(a as int, b as int) < inst.patients@[
                    b as int].end_time - inst.patients@[b as int].care_time
            },
            _ => true,
        }
}

/// The repair slot: a local feasibility fix-up pass over fresh children,
/// never changing a solution's token multiset; a solution whose adjacent
/// client pairs are already feasible passes through unchanged.
pub trait RepairMechanism: Sized {
    fn repair(
        &self,
        rng: &mut RandomSource,
        solutions: &Vec<ProblemSolution>,
        instance: &InstanceDescription,
    ) -> (r: Vec<ProblemSolution>)
        requires
            instance.wf(),
            forall|k: int|
                0 <= k < solutions@.len() ==> patients_in_range(
                    (#[trigger] solutions@[k]).0@,
                    instance.patients@.len() as int,
                ) && solutions@[k].0@.len() >= 2,
        ensures
            r@.len() == solutions@.len(),
            forall|k: int|
                0 <= k < r@.len() ==> (#[trigger] r@[k]).0@.to_multiset()
                    == solutions@[k].0@.to_multiset(),
            forall|k: int|
                0 <= k < r@.len() ==> (adjacent_pairs_feasible(*instance, solutions@[k].0@)
                    ==> (#[trigger] r@[k]).0@ == solutions@[k].0@),
    ;
}

/// Scans adjacent client pairs: an infeasible pair is swapped when the
/// reverse order is feasible, else one of the two is relocated at random;
/// scanning repeats until a pass changes nothing or the pass bound is hit.
pub struct DefaultRepair;

impl RepairMechanism for DefaultRepair {
    #[verifier::rlimit(60)]
    fn repair(
        &self,
        rng: &mut RandomSource,
        solutions: &Vec<ProblemSolution>,
        instance: &InstanceDescription,
    ) -> (r: Vec<ProblemSolution>)
    {
        let ghost n = instance.patients@.len() as int;
        let mut repaired_solutions: Vec<ProblemSolution> = Vec::new();
        let mut c: usize = 0;
        while c < solutions.len()
            invariant
                instance.wf(),
                n == instance.patients@.len() as int,
                forall|k: int|
                    0 <= k < solutions@.len() ==> patients_in_range(
                        (#[trigger] solutions@[k]).0@,
                        n,
                    ) && solutions@[k].0@.len() >= 2,
                c <= solutions@.len(),
                repaired_solutions@.len() == c,
                forall|k: int|
                    0 <= k < c ==> (#[trigger] repaired_solutions@[k]).0@.to_multiset()
                        == solutions@[k].0@.to_multiset(),
                forall|k: int|
                    0 <= k < c ==> (adjacent_pairs_feasible(*instance, solutions@[k].0@)
                        ==> (#[trigger] repaired_solutions@[k]).0@ == solutions@[k].0@),
            decreases solutions@.len() - c,
        {
            let solution = &solutions[c];
            let mut cloned = solution.clone();
            let mut done = false;
            let mut pass: usize = 0;
            while !done && pass < REPAIR_PASS_LIMIT
                invariant
                    instance.wf(),
                    n == instance.patients@.len() as int,
                    patients_in_range(solution.0@, n),
                    solution.0@.len() >= 2,
                    pass <= REPAIR_PASS_LIMIT,
                    cloned.0@.len() == solution.0@.len(),
                    cloned.0@.to_multiset() == solution.0@.to_multiset(),
                    adjacent_pairs_feasible(*instance, solution.0@) ==> cloned.0@
                        == solution.0@,
                decreases REPAIR_PASS_LIMIT - pass,
            {
                let mut swapped = false;
                let mut i: usize = 0;
                while i < cloned.0.len() - 1
                    invariant
                        instance.wf(),
                        n == instance.patients@.len() as int,
                        patients_in_range(solution.0@, n),
                        solution.0@.len() >= 2,
                        i <= cloned.0@.len(),
                        cloned.0@.len() == solution.0@.len(),
                        cloned.0@.to_multiset() == solution.0@.to_multiset(),
                        adjacent_pairs_feasible(*instance, solution.0@) ==> (cloned.0@
                            == solution.0@ && !swapped),
                    decreases cloned.0@.len() - i,
                {
                    proof {
                        lemma_ms_eq_preserves_in_range(solution.0@, cloned.0@, n);
                    }
                    if let (SolutionField::Patient(first), SolutionField::Patient(second)) = (
                        cloned.0[i],
                        cloned.0[i + 1],
                    ) {
                        proof {
                            assert(instance.patients@[first as int].wf());
                            assert(instance.patients@[second as int].wf());
                        }
                        let patient_1 = instance.patients[first];
                        let patient_2 = instance.patients[second];
                        let p_1_to_2_possible = (patient_1.start_time as i64
                            + patient_1.care_time as i64 + instance.travel_time_patient(
                            first,
                            second,
                        ) as i64) < (patient_2.end_time as i64 - patient_2.care_time as i64);
                        let p_2_to_1_possible = (patient_2.start_time as i64
                            + patient_2.care_time as i64 + instance.travel_time_patient(
                            second,
                            first,
                        ) as i64) < (patient_1.end_time as i64 - patient_1.care_time as i64);
                        if !p_1_to_2_possible && p_2_to_1_possible {
                            let ghost before = cloned.0@;
                            let a = cloned.0[i];
                            let b = cloned.0[i + 1];
                            cloned.0.set(i, b);
                            cloned.0.set(i + 1, a);
                            proof {
                                lemma_swap_ms(before, i as int, i as int + 1);
                            }
                            swapped = true;
                        } else if !p_1_to_2_possible && !p_2_to_1_possible {
                            // Incompatible either way: move one of the two
                            // to a random other spot.
                            let shuffle_first = rng.coin(HALF_RATE);
                            let shuffle_index = if shuffle_first {
                                i
                            } else {
                                i + 1
                            };
                            let ghost before = cloned.0@;
                            let removed = cloned.0.remove(shuffle_index);
                            let insertion_index = rng.next_below(cloned.0.len());
                            cloned.0.insert(insertion_index, removed);
                            proof {
                                lemma_relocate_ms(
                                    before,
                                    shuffle_index as int,
                                    insertion_index as int,
                                );
                            }
                            swapped = true;
                        }
                    }
                    i += 1;
                }
                if !swapped {
                    done = true;
                }
                pass += 1;
            }
            repaired_solutions.push(cloned);
            c += 1;
        }
        repaired_solutions
    }
}

} // verus!
