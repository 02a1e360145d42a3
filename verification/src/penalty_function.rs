use vstd::prelude::*;

use crate::fitness_function::lemma_skip_step;
use crate::problem::{
    InstanceDescription, ProblemSolution, SolutionField, patients_in_range, MAX_QUANTITY,
    MAX_TOKENS, SCORE_BOUND,
};

verus! {

/// Accumulated overcapacity shortfall: per route, the (non-positive)
/// difference between capacity and the route's demand sum, counted at each
/// separator; `demand` is the running demand of the open route.
pub open spec fn overcap_total(
    inst: InstanceDescription,
    s: Seq<SolutionField>,
    demand: int,
) -> int
    decreases s.len(),
{
    if s.len() == 0 {
        0
    } else {
        match s[0] {
            SolutionField::Patient(id) => overcap_total(
                inst,
                s.drop_first(),
                demand + inst.patients@[id as int].demand,
            ),
            SolutionField::Separator(_) => (if inst.capacity_nurse - demand < 0 {
                inst.capacity_nurse - demand
            } else {
                0
            }) + overcap_total(inst, s.drop_first(), 0),
        }
    }
}

/// Simulated clock along the routes: service of the previous client
/// (clamped up to its window start), travel onward, and at each separator
/// travel back to the depot.  Returns the accumulated (non-positive)
/// window overrun and the accumulated (non-positive) late-return overrun;
/// the clock resets at each separator.
pub open spec fn window_walk(
    inst: InstanceDescription,
    s: Seq<SolutionField>,
    t: int,
    prev: Option<usize>,
) -> (int, int)
    decreases s.len(),
{
    if s.len() == 0 {
        (0, 0)
    } else {
        match s[0] {
            SolutionField::Patient(id) => match prev {
                Option::None => window_walk(
                    inst,
                    s.drop_first(),
                    t + inst.travel_time_depot_spec(id as int),
                    Option::Some(id),
                ),
                Option::Some(p) => {
                    let care = inst.patients@[p as int].care_time as int;
                    let start = inst.patients@[p as int].start_time as int;
                    let end = inst.patients@[p as int].end_time as int;
                    let served = if t + care >= start + care {
                        t + care
                    } else {
                        start + care
                    };
                    let miss = if end - served < 0 {
                        end - served
                    } else {
                        0
                    };
                    let rest = window_walk(
                        inst,
                        s.drop_first(),
                        served + inst.travel_time_patient_spec(p as int, id as int),
                        Option::Some(id),
                    );
                    (miss + rest.0, rest.1)
                },
            },
            SolutionField::Separator(_) => match prev {
                Option::None => window_walk(inst, s.drop_first(), t, Option::None),
                Option::Some(p) => {
                    let care = inst.patients@[p as int].care_time as int;
                    let start = inst.patients@[p as int].start_time as int;
                    let end = inst.patients@[p as int].end_time as int;
                    let served = if t + care >= start + care {
                        t + care
                    } else {
                        start + care
                    };
                    let miss = if end - served < 0 {
                        end - served
                    } else {
                        0
                    };
                    let back = served + inst.travel_time_depot_spec(p as int);
                    let late = if inst.depot.return_time - back < 0 {
                        inst.depot.return_time - back
                    } else {
                        0
                    };
                    let rest = window_walk(inst, s.drop_first(), 0, Option::None);
                    (miss + rest.0, late + rest.1)
                },
            },
        }
    }
}

/// Product of a non-positive bounded value with a bounded multiplier.
proof fn lemma_mul_range(x: int, m: int, b: int)
    by (nonlinear_arith)
    requires
        -b <= x <= 0,
        0 <= m <= 100000,
        0 <= b,
    ensures
        -(b * 100000) <= x * m <= 0,
{
}

/// Accumulated overcapacity shortfall is never positive.
pub proof fn lemma_overcap_nonpositive(inst: InstanceDescription, s: Seq<SolutionField>, d: int)
    requires
        d >= 0,
    ensures
        overcap_total(inst, s, d) <= 0,
    decreases s.len(),
{
    if s.len() > 0 {
        match s[0] {
            SolutionField::Patient(id) => {
                lemma_overcap_nonpositive(
                    inst,
                    s.drop_first(),
                    d + inst.patients@[id as int].demand,
                );
            },
            SolutionField::Separator(_) => {
                lemma_overcap_nonpositive(inst, s.drop_first(), 0);
            },
        }
    }
}

/// Accumulated window overrun and late-return overrun are never positive.
pub proof fn lemma_walk_nonpositive(
    inst: InstanceDescription,
    s: Seq<SolutionField>,
    t: int,
    prev: Option<usize>,
)
    ensures
        window_walk(inst, s, t, prev).0 <= 0,
        window_walk(inst, s, t, prev).1 <= 0,
    decreases s.len(),
{
    if s.len() > 0 {
        match s[0] {
            SolutionField::Patient(id) => match prev {
                Option::None => {
                    lemma_walk_nonpositive(
                        inst,
                        s.drop_first(),
                        t + inst.travel_time_depot_spec(id as int),
                        Option::Some(id),
                    );
                },
                Option::Some(p) => {
                    let care = inst.patients@[p as int].care_time as int;
                    let start = inst.patients@[p as int].start_time as int;
                    let served = if t + care >= start + care {
                        t + care
                    } else {
                        start + care
                    };
                    lemma_walk_nonpositive(
                        inst,
                        s.drop_first(),
                        served + inst.travel_time_patient_spec(p as int, id as int),
                        Option::Some(id),
                    );
                },
            },
            SolutionField::Separator(_) => match prev {
                Option::None => {
                    lemma_walk_nonpositive(inst, s.drop_first(), t, Option::None);
                },
                Option::Some(_) => {
                    lemma_walk_nonpositive(inst, s.drop_first(), 0, Option::None);
                },
            },
        }
    }
}

/// Sign facts about one weighted penalty term.
proof fn lemma_mul_sign(x: int, m: int)
    by (nonlinear_arith)
    requires
        x <= 0,
        m >= 0,
    ensures
        x * m <= 0,
        m >= 1 && x * m == 0 ==> x == 0,
        x == 0 ==> x * m == 0,
{
}

/// The penalty of a solution is never positive, and with strictly
/// positive multipliers it is zero exactly when the solution has no
/// overcapacity, no window overrun and no late depot return.
pub proof fn lemma_penalty_zero_iff_no_violation(
    p: &DefaultPenalty,
    s: Seq<SolutionField>,
    inst: InstanceDescription,
)
    requires
        p.overcapacity_multiplier >= 1,
        p.missed_window_multiplier >= 1,
        p.late_depot_multiplier >= 1,
    ensures
        p.penalty_of(s, inst) <= 0,
        p.penalty_of(s, inst) == 0 <==> (overcap_total(inst, s, 0) == 0 && window_walk(
            inst,
            s,
            0,
            Option::None,
        ).0 == 0 && window_walk(inst, s, 0, Option::None).1 == 0),
{
    let oc = overcap_total(inst, s, 0);
    let mw = window_walk(inst, s, 0, Option::None).0;
    let ld = window_walk(inst, s, 0, Option::None).1;
    lemma_overcap_nonpositive(inst, s, 0);
    lemma_walk_nonpositive(inst, s, 0, Option::None);
    lemma_mul_sign(oc, p.overcapacity_multiplier as int);
    lemma_mul_sign(mw, p.missed_window_multiplier as int);
    lemma_mul_sign(ld, p.late_depot_multiplier as int);
}

/// The penalty scales linearly in the configured multipliers: an
/// engine configured with each multiplier `factor` times larger assigns
/// every solution `factor` times the penalty.
pub proof fn lemma_penalty_scales_linearly(
    p: &DefaultPenalty,
    q: &DefaultPenalty,
    factor: int,
    s: Seq<SolutionField>,
    inst: InstanceDescription,
)
    requires
        q.overcapacity_multiplier == factor * p.overcapacity_multiplier,
        q.missed_window_multiplier == factor * p.missed_window_multiplier,
        q.late_depot_multiplier == factor * p.late_depot_multiplier,
    ensures
        q.penalty_of(s, inst) == factor * p.penalty_of(s, inst),
{
    let oc = overcap_total(inst, s, 0);
    let mw = window_walk(inst, s, 0, Option::None).0;
    let ld = window_walk(inst, s, 0, Option::None).1;
    assert(oc * (factor * p.overcapacity_multiplier) == factor * (oc
        * p.overcapacity_multiplier)) by (nonlinear_arith);
    assert(mw * (factor * p.missed_window_multiplier) == factor * (mw
        * p.missed_window_multiplier)) by (nonlinear_arith);
    assert(ld * (factor * p.late_depot_multiplier) == factor * (ld
        * p.late_depot_multiplier)) by (nonlinear_arith);
    assert(factor * (oc * p.overcapacity_multiplier) + factor * (mw
        * p.missed_window_multiplier) + factor * (ld * p.late_depot_multiplier) == factor * (oc
        * p.overcapacity_multiplier + mw * p.missed_window_multiplier + ld
        * p.late_depot_multiplier)) by (nonlinear_arith);
}

/// The penalty slot: assigns every solution of a batch a non-positive
/// violation cost, determined by the solution and the instance alone.
pub trait PenaltyFunction: Sized {
    /// The configuration is admissible (multipliers bounded).
    spec fn wf(&self) -> bool;

    /// The value this penalty assigns to one solution on one instance.
    spec fn penalty_of(&self, s: Seq<SolutionField>, inst: InstanceDescription) -> int;

    fn get_penalties(&self, solutions: &Vec<ProblemSolution>, instance: &InstanceDescription)
        -> (r: Vec<i64>)
        requires
            instance.wf(),
            self.wf(),
            forall|k: int|
                0 <= k < solutions@.len() ==> patients_in_range(
                    (#[trigger] solutions@[k]).0@,
                    instance.patients@.len() as int,
                ) && solutions@[k].0@.len() <= MAX_TOKENS,
        ensures
            r@.len() == solutions@.len(),
            forall|k: int|
                0 <= k < r@.len() ==> #[trigger] r@[k] == self.penalty_of(
                    solutions@[k].0@,
                    *instance,
                ) && -SCORE_BOUND <= r@[k] <= 0,
    ;
}

/// The one penalty of the engine: three independently weighted
/// non-positive terms for overcapacity, missed time windows and late
/// depot return.
pub struct DefaultPenalty {
    pub overcapacity_multiplier: u64,
    pub missed_window_multiplier: u64,
    pub late_depot_multiplier: u64,
}

impl PenaltyFunction for DefaultPenalty {
    open spec fn wf(&self) -> bool {
        &&& self.overcapacity_multiplier <= MAX_QUANTITY
        &&& self.missed_window_multiplier <= MAX_QUANTITY
        &&& self.late_depot_multiplier <= MAX_QUANTITY
    }

    open spec fn penalty_of(&self, s: Seq<SolutionField>, inst: InstanceDescription) -> int {
        overcap_total(inst, s, 0) * self.overcapacity_multiplier
            + window_walk(inst, s, 0, Option::None).0 * self.missed_window_multiplier
            + window_walk(inst, s, 0, Option::None).1 * self.late_depot_multiplier
    }

    fn get_penalties(&self, solutions: &Vec<ProblemSolution>, instance: &InstanceDescription)
        -> (r: Vec<i64>)
    {
        let ghost n = instance.patients@.len() as int;
        let mut penalties: Vec<i64> = Vec::new();
        let mut k: usize = 0;
        while k < solutions.len()
            invariant
                instance.wf(),
                self.wf(),
                n == instance.patients@.len() as int,
                forall|j: int|
                    0 <= j < solutions@.len() ==> patients_in_range(
                        (#[trigger] solutions@[j]).0@,
                        n,
                    ) && solutions@[j].0@.len() <= MAX_TOKENS,
                k <= solutions@.len(),
                penalties@.len() == k,
                forall|j: int|
                    0 <= j < k ==> #[trigger] penalties@[j] == self.penalty_of(
                        solutions@[j].0@,
                        *instance,
                    ) && -SCORE_BOUND <= penalties@[j] <= 0,
            decreases solutions@.len() - k,
        {
            let solution = &solutions[k];
            let s = &solution.0;
            let ghost sq = s@;

            // Overcapacity: demand sums per route against the capacity.
            let mut total_overcapacity: i64 = 0;
            let mut current_demand: u64 = 0;
            let mut i: usize = 0;
            proof {
                assert(sq.skip(0) =~= sq);
            }
            while i < s.len()
                invariant
                    instance.wf(),
                    n == instance.patients@.len() as int,
                    patients_in_range(sq, n),
                    sq.len() <= MAX_TOKENS,
                    s@ == sq,
                    i <= sq.len(),
                    current_demand <= 100000 * i,
                    -(total_overcapacity as int) + current_demand <= 100000 * i,
                    total_overcapacity <= 0,
                    total_overcapacity + overcap_total(
                        *instance,
                        sq.skip(i as int),
                        current_demand as int,
                    ) == overcap_total(*instance, sq, 0),
                decreases sq.len() - i,
            {
                proof {
                    lemma_skip_step(sq, i as int);
                }
                match s[i] {
                    SolutionField::Patient(id) => {
                        current_demand = current_demand + instance.patients[id].demand as u64;
                    },
                    SolutionField::Separator(_) => {
                        let shortfall: i64 = instance.capacity_nurse as i64
                            - current_demand as i64;
                        if shortfall < 0 {
                            total_overcapacity = total_overcapacity + shortfall;
                        }
                        current_demand = 0;
                    },
                }
                i += 1;
            }
            proof {
                assert(sq.skip(sq.len() as int).len() == 0);
            }

            // Missed time windows and late depot returns along the clock.
            let mut total_missed_time: i64 = 0;
            let mut total_late_depot_times: i64 = 0;
            let mut current_time: u64 = 0;
            let mut previous_patient_id: Option<usize> = None;
            let mut i: usize = 0;
            proof {
                assert(sq.skip(0) =~= sq);
            }
            while i < s.len()
                invariant
                    instance.wf(),
                    n == instance.patients@.len() as int,
                    patients_in_range(sq, n),
                    sq.len() <= MAX_TOKENS,
                    s@ == sq,
                    i <= sq.len(),
                    current_time <= 300000 * i,
                    previous_patient_id matches Some(p) ==> (p as int) < n,
                    total_missed_time <= 0,
                    total_late_depot_times <= 0,
                    -(total_missed_time as int) <= 1229000000 * i,
                    -(total_late_depot_times as int) <= 1229100000 * i,
                    total_missed_time + window_walk(
                        *instance,
                        sq.skip(i as int),
                        current_time as int,
                        previous_patient_id,
                    ).0 == window_walk(*instance, sq, 0, Option::None).0,
                    total_late_depot_times + window_walk(
                        *instance,
                        sq.skip(i as int),
                        current_time as int,
                        previous_patient_id,
                    ).1 == window_walk(*instance, sq, 0, Option::None).1,
                decreases sq.len() - i,
            {
                proof {
                    lemma_skip_step(sq, i as int);
                }
                match s[i] {
                    SolutionField::Patient(id) => {
                        match previous_patient_id {
                            Some(previous_id) => {
                                proof {
                                    assert(instance.patients@[previous_id as int].wf());
                                }
                                let previous_patient = instance.patients[previous_id];
                                let care_time = previous_patient.care_time as u64;
                                let mut served = current_time + care_time;
                                let clamp = previous_patient.start_time as u64 + care_time;
                                if clamp > served {
                                    served = clamp;
                                }
                                let leftover: i64 = previous_patient.end_time as i64
                                    - served as i64;
                                if leftover < 0 {
                                    total_missed_time = total_missed_time + leftover;
                                }
                                current_time = served + instance.travel_time_patient(
                                    previous_id,
                                    id,
                                );
                            },
                            None => {
                                current_time = current_time + instance.travel_time_depot(id);
                            },
                        }
                        previous_patient_id = Some(id);
                    },
                    SolutionField::Separator(_) => {
                        match previous_patient_id {
                            Some(previous_id) => {
                                proof {
                                    assert(instance.patients@[previous_id as int].wf());
                                }
                                let last_patient = instance.patients[previous_id];
                                let care_time = last_patient.care_time as u64;
                                let mut served = current_time + care_time;
                                let clamp = last_patient.start_time as u64 + care_time;
                                if clamp > served {
                                    served = clamp;
                                }
                                let leftover: i64 = last_patient.end_time as i64
                                    - served as i64;
                                if leftover < 0 {
                                    total_missed_time = total_missed_time + leftover;
                                }
                                let back = served + instance.travel_time_depot(previous_id);
                                let overrun: i64 = instance.depot.return_time as i64
                                    - back as i64;
                                if overrun < 0 {
                                    total_late_depot_times = total_late_depot_times + overrun;
                                }
                                current_time = 0;
                                previous_patient_id = None;
                            },
                            None => {},
                        }
                    },
                }
                i += 1;
            }
            proof {
                assert(sq.skip(sq.len() as int).len() == 0);
            }

            proof {
                lemma_mul_range(
                    total_overcapacity as int,
                    self.overcapacity_multiplier as int,
                    409600000,
                );
                lemma_mul_range(
                    total_missed_time as int,
                    self.missed_window_multiplier as int,
                    5033984000000,
                );
                lemma_mul_range(
                    total_late_depot_times as int,
                    self.late_depot_multiplier as int,
                    5034393600000,
                );
            }
            let overcapacity_penalty: i64 = total_overcapacity
                * self.overcapacity_multiplier as i64;
            let missed_windows_penalty: i64 = total_missed_time
                * self.missed_window_multiplier as i64;
            let late_depot_penalty: i64 = total_late_depot_times
                * self.late_depot_multiplier as i64;
            penalties.push(overcapacity_penalty + missed_windows_penalty + late_depot_penalty);
            k += 1;
        }
        penalties
    }
}

} // verus!
