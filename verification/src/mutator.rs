use vstd::prelude::*;

use crate::problem::{
    lemma_ms_eq_preserves_in_range, lemma_relocate_ms, lemma_sep_seq_insert_client,
    lemma_sep_seq_remove_client, lemma_swap_ms, patients_in_range, sep_seq,
    InstanceDescription, ProblemSolution, SolutionField,
};
use crate::randomness::RandomSource;

verus! {

/// The mutation slot: perturbs each child independently, never changing
/// its token multiset.
pub trait Mutator: Sized {
    /// What this variant needs of the children it is given.
    spec fn pre(&self, children: Seq<ProblemSolution>) -> bool;

    /// The mutation policy of this variant; in particular, a variant
    /// whose event probabilities are all zero is the identity.
    spec fn ens(&self, children: Seq<ProblemSolution>, r: Seq<ProblemSolution>) -> bool;

    fn mutate(&self, rng: &mut RandomSource, children: &Vec<ProblemSolution>) -> (r: Vec<
        ProblemSolution,
    >)
        requires
            self.pre(children@),
        ensures
            r@.len() == children@.len(),
            forall|k: int|
                0 <= k < r@.len() ==> (#[trigger] r@[k]).0@.to_multiset()
                    == children@[k].0@.to_multiset(),
            self.ens(children@, r@),
    ;
}

/// The populations agree position by position.
pub open spec fn unchanged(children: Seq<ProblemSolution>, r: Seq<ProblemSolution>) -> bool {
    forall|k: int| 0 <= k < r.len() ==> (#[trigger] r[k]).0@ == children[k].0@
}

/// `b` is `a` with the tokens of two distinct positions exchanged.
pub open spec fn one_swap_of(a: Seq<SolutionField>, b: Seq<SolutionField>) -> bool {
    exists|i: int, j: int|
        #![trigger a.update(i, a[j]).update(j, a[i])]
        0 <= i < a.len() && 0 <= j < a.len() && i != j && b == a.update(i, a[j]).update(
            j,
            a[i],
        )
}

/// With probability equal to the mutation rate, swaps two distinct random
/// positions of a child.
pub struct DefaultMutator {
    pub mutation_rate: u64,
}

impl Mutator for DefaultMutator {
    open spec fn pre(&self, children: Seq<ProblemSolution>) -> bool {
        forall|k: int| 0 <= k < children.len() ==> (#[trigger] children[k]).0@.len() >= 2
    }

    /// Each child comes back verbatim or with exactly one pair of
    /// positions exchanged; with a zero rate, always verbatim.
    open spec fn ens(&self, children: Seq<ProblemSolution>, r: Seq<ProblemSolution>) -> bool {
        &&& self.mutation_rate == 0 ==> unchanged(children, r)
        &&& forall|k: int|
            0 <= k < r.len() ==> (#[trigger] r[k]).0@ == children[k].0@ || one_swap_of(
                children[k].0@,
                r[k].0@,
            )
    }

    fn mutate(&self, rng: &mut RandomSource, children: &Vec<ProblemSolution>) -> (r: Vec<
        ProblemSolution,
    >)
    {
        let mut mutated_children: Vec<ProblemSolution> = Vec::new();
        let mut c: usize = 0;
        while c < children.len()
            invariant
                forall|k: int|
                    0 <= k < children@.len() ==> (#[trigger] children@[k]).0@.len() >= 2,
                c <= children@.len(),
                mutated_children@.len() == c,
                forall|k: int|
                    0 <= k < c ==> (#[trigger] mutated_children@[k]).0@.to_multiset()
                        == children@[k].0@.to_multiset(),
                self.mutation_rate == 0 ==> forall|k: int|
                    0 <= k < c ==> (#[trigger] mutated_children@[k]).0@ == children@[k].0@,
                forall|k: int|
                    0 <= k < c ==> (#[trigger] mutated_children@[k]).0@ == children@[k].0@
                        || one_swap_of(children@[k].0@, mutated_children@[k].0@),
            decreases children@.len() - c,
        {
            let child = &children[c];
            let should_mutate = rng.coin(self.mutation_rate);
            if should_mutate {
                let mut cloned_child = child.clone();
                let len = cloned_child.0.len();
                let i_1 = rng.next_below(len);
                let mut i_2 = rng.next_below(len - 1);
                if i_2 >= i_1 {
                    i_2 += 1;
                }
                let ghost before = cloned_child.0@;
                let a = cloned_child.0[i_1];
                let b = cloned_child.0[i_2];
                cloned_child.0.set(i_1, b);
                cloned_child.0.set(i_2, a);
                proof {
                    lemma_swap_ms(before, i_1 as int, i_2 as int);
                    assert(cloned_child.0@ == before.update(i_1 as int, before[i_2 as int]).update(
                        i_2 as int,
                        before[i_1 as int],
                    ));
                    assert(one_swap_of(before, cloned_child.0@));
                }
                mutated_children.push(cloned_child);
            } else {
                mutated_children.push(child.clone());
            }
            c += 1;
        }
        mutated_children
    }
}

/// Per position, with probability equal to the mutation rate, removes the
/// token there and reinserts it at a uniformly random position.
pub struct InsertionMutator {
    pub mutation_rate: u64,
}

impl Mutator for InsertionMutator {
    open spec fn pre(&self, children: Seq<ProblemSolution>) -> bool {
        forall|k: int| 0 <= k < children.len() ==> (#[trigger] children[k]).0@.len() >= 2
    }

    open spec fn ens(&self, children: Seq<ProblemSolution>, r: Seq<ProblemSolution>) -> bool {
        self.mutation_rate == 0 ==> unchanged(children, r)
    }

    fn mutate(&self, rng: &mut RandomSource, children: &Vec<ProblemSolution>) -> (r: Vec<
        ProblemSolution,
    >)
    {
        let mut mutated: Vec<ProblemSolution> = Vec::new();
        let mut c: usize = 0;
        while c < children.len()
            invariant
                forall|k: int|
                    0 <= k < children@.len() ==> (#[trigger] children@[k]).0@.len() >= 2,
                c <= children@.len(),
                mutated@.len() == c,
                forall|k: int|
                    0 <= k < c ==> (#[trigger] mutated@[k]).0@.to_multiset()
                        == children@[k].0@.to_multiset(),
                self.mutation_rate == 0 ==> forall|k: int|
                    0 <= k < c ==> (#[trigger] mutated@[k]).0@ == children@[k].0@,
            decreases children@.len() - c,
        {
            let child = &children[c];
            let mut mutated_child = child.clone();
            let mut i: usize = 0;
            while i < child.0.len()
                invariant
                    child.0@.len() >= 2,
                    i <= child.0@.len(),
                    mutated_child.0@.len() == child.0@.len(),
                    mutated_child.0@.to_multiset() == child.0@.to_multiset(),
                    self.mutation_rate == 0 ==> mutated_child.0@ == child.0@,
                decreases child.0@.len() - i,
            {
                let should_mutate = rng.coin(self.mutation_rate);
                if should_mutate {
                    let ghost before = mutated_child.0@;
                    let removed = mutated_child.0.remove(i);
                    let insertion_index = rng.next_below(mutated_child.0.len());
                    mutated_child.0.insert(insertion_index, removed);
                    proof {
                        lemma_relocate_ms(before, i as int, insertion_index as int);
                    }
                }
                i += 1;
            }
            mutated.push(mutated_child);
            c += 1;
        }
        mutated
    }
}

/// The client standing immediately left of insertion gap `index`, if that
/// neighbour is a client token.
pub open spec fn gap_left(s: Seq<SolutionField>, index: int) -> Option<usize> {
    if index >= 1 {
        match s[index - 1] {
            SolutionField::Patient(id) => Option::Some(id),
            SolutionField::Separator(_) => Option::None,
        }
    } else {
        Option::None
    }
}

/// The client standing immediately right of insertion gap `index`, if that
/// neighbour is a client token.
pub open spec fn gap_right(s: Seq<SolutionField>, index: int) -> Option<usize> {
    if index < s.len() {
        match s[index] {
            SolutionField::Patient(id) => Option::Some(id),
            SolutionField::Separator(_) => Option::None,
        }
    } else {
        Option::None
    }
}

/// One-hop earliest-arrival feasibility of placing client `id` into gap
/// `index`: arrival propagated from the left neighbour must not overrun
/// the inserted client's window, and arrival propagated onward must not
/// overrun the right neighbour's window.
pub open spec fn valid_index_spec(
    inst: InstanceDescription,
    s: Seq<SolutionField>,
    index: int,
    id: int,
) -> bool {
    let patient = inst.patients@[id];
    match (gap_left(s, index), gap_right(s, index)) {
        (Option::Some(left_id), Option::Some(right_id)) => {
            let left = inst.patients@[left_id as int];
            let right = inst.patients@[right_id as int];
            let earliest_mid = left.start_time + left.care_time
                + inst.travel_time_patient_spec(left_id as int, id);
            let at_mid = if earliest_mid >= patient.start_time {
                earliest_mid
            } else {
                patient.start_time as int
            };
            let earliest_right = at_mid + patient.care_time + inst.travel_time_patient_spec(
                id,
                right_id as int,
            );
            earliest_mid <= patient.end_time - patient.care_time && earliest_right
                <= right.end_time - right.care_time
        },
        (Option::None, Option::Some(right_id)) => {
            let right = inst.patients@[right_id as int];
            let earliest_right = patient.start_time + patient.care_time
                + inst.travel_time_patient_spec(id, right_id as int);
            earliest_right <= right.end_time - right.care_time
        },
        (Option::Some(left_id), Option::None) => {
            let left = inst.patients@[left_id as int];
            let earliest_mid = left.start_time + left.care_time
                + inst.travel_time_patient_spec(left_id as int, id);
            earliest_mid <= patient.end_time - patient.care_time
        },
        (Option::None, Option::None) => true,
    }
}

/// Relocation restricted to clients and filtered by one-hop time-window
/// feasibility of the destination gap; falls back to a uniformly random
/// gap when none passes.
pub struct SmartInsertionMutator {
    pub mutation_rate: u64,
    pub problem_instance: InstanceDescription,
}

impl SmartInsertionMutator {
    /// Whether gap `index` passes the one-hop feasibility check for
    /// client `to_check_id`.
    pub fn valid_index(
        &self,
        index: usize,
        problem_solution: &ProblemSolution,
        to_check_id: usize,
    ) -> (r: bool)
        requires
            self.problem_instance.wf(),
            (to_check_id as int) < self.problem_instance.patients@.len(),
            index <= problem_solution.0@.len(),
            patients_in_range(problem_solution.0@, self.problem_instance.patients@.len() as int),
        ensures
            r == valid_index_spec(
                self.problem_instance,
                problem_solution.0@,
                index as int,
                to_check_id as int,
            ),
    {
        let patient = self.problem_instance.patients[to_check_id];
        proof {
            assert(self.problem_instance.patients@[to_check_id as int].wf());
        }
        let left_element: Option<usize> = if index >= 1 {
            match problem_solution.0[index - 1] {
                SolutionField::Patient(id) => Some(id),
                SolutionField::Separator(_) => None,
            }
        } else {
            None
        };
        let right_element: Option<usize> = if index < problem_solution.0.len() {
            match problem_solution.0[index] {
                SolutionField::Patient(id) => Some(id),
                SolutionField::Separator(_) => None,
            }
        } else {
            None
        };
        match (left_element, right_element) {
            (Some(left_id), Some(right_id)) => {
                proof {
                    assert(self.problem_instance.patients@[left_id as int].wf());
                    assert(self.problem_instance.patients@[right_id as int].wf());
                }
                let left_patient = self.problem_instance.patients[left_id];
                let right_patient = self.problem_instance.patients[right_id];
                let left_to_mid = self.problem_instance.travel_time_patient(
                    left_id,
                    to_check_id,
                );
                let mid_to_right = self.problem_instance.travel_time_patient(
                    to_check_id,
                    right_id,
                );
                let earliest_arrival_mid: i64 = left_patient.start_time as i64
                    + left_patient.care_time as i64 + left_to_mid as i64;
                let at_mid: i64 = if earliest_arrival_mid >= patient.start_time as i64 {
                    earliest_arrival_mid
                } else {
                    patient.start_time as i64
                };
                let earliest_arrival_right: i64 = at_mid + patient.care_time as i64
                    + mid_to_right as i64;
                earliest_arrival_mid <= patient.end_time as i64 - patient.care_time as i64
                    && earliest_arrival_right <= right_patient.end_time as i64
                    - right_patient.care_time as i64
            },
            (None, Some(right_id)) => {
                proof {
                    assert(self.problem_instance.patients@[right_id as int].wf());
                }
                let right_patient = self.problem_instance.patients[right_id];
                let mid_to_right = self.problem_instance.travel_time_patient(
                    to_check_id,
                    right_id,
                );
                let earliest_arrival_right: i64 = patient.start_time as i64
                    + patient.care_time as i64 + mid_to_right as i64;
                earliest_arrival_right <= right_patient.end_time as i64
                    - right_patient.care_time as i64
            },
            (Some(left_id), None) => {
                proof {
                    assert(self.problem_instance.patients@[left_id as int].wf());
                }
                let left_patient = self.problem_instance.patients[left_id];
                let left_to_mid = self.problem_instance.travel_time_patient(
                    left_id,
                    to_check_id,
                );
                let earliest_arrival_mid: i64 = left_patient.start_time as i64
                    + left_patient.care_time as i64 + left_to_mid as i64;
                earliest_arrival_mid <= patient.end_time as i64 - patient.care_time as i64
            },
            (None, None) => true,
        }
    }
}

impl Mutator for SmartInsertionMutator {
    open spec fn pre(&self, children: Seq<ProblemSolution>) -> bool {
        &&& self.problem_instance.wf()
        &&& forall|k: int|
            0 <= k < children.len() ==> (#[trigger] children[k]).0@.len() >= 2
                && patients_in_range(
                children[k].0@,
                self.problem_instance.patients@.len() as int,
            )
    }

    /// Only client tokens are relocated, so the separator subsequence
    /// (labels and order) is kept; with a zero rate the child comes back
    /// verbatim.
    open spec fn ens(&self, children: Seq<ProblemSolution>, r: Seq<ProblemSolution>) -> bool {
        &&& self.mutation_rate == 0 ==> unchanged(children, r)
        &&& forall|k: int|
            0 <= k < r.len() ==> sep_seq((#[trigger] r[k]).0@) == sep_seq(children[k].0@)
    }

    fn mutate(&self, rng: &mut RandomSource, children: &Vec<ProblemSolution>) -> (r: Vec<
        ProblemSolution,
    >)
    {
        let ghost n = self.problem_instance.patients@.len() as int;
        let mut mutated: Vec<ProblemSolution> = Vec::new();
        let mut c: usize = 0;
        while c < children.len()
            invariant
                self.problem_instance.wf(),
                n == self.problem_instance.patients@.len() as int,
                forall|k: int|
                    0 <= k < children@.len() ==> (#[trigger] children@[k]).0@.len() >= 2
                        && patients_in_range(children@[k].0@, n),
                c <= children@.len(),
                mutated@.len() == c,
                forall|k: int|
                    0 <= k < c ==> (#[trigger] mutated@[k]).0@.to_multiset()
                        == children@[k].0@.to_multiset(),
                self.mutation_rate == 0 ==> forall|k: int|
                    0 <= k < c ==> (#[trigger] mutated@[k]).0@ == children@[k].0@,
                forall|k: int|
                    0 <= k < c ==> sep_seq((#[trigger] mutated@[k]).0@) == sep_seq(
                        children@[k].0@,
                    ),
            decreases children@.len() - c,
        {
            let child = &children[c];
            let mut mutated_child = child.clone();
            let mut i: usize = 0;
            while i < child.0.len()
                invariant
                    self.problem_instance.wf(),
                    n == self.problem_instance.patients@.len() as int,
                    child.0@.len() >= 2,
                    patients_in_range(child.0@, n),
                    i <= child.0@.len(),
                    mutated_child.0@.len() == child.0@.len(),
                    mutated_child.0@.to_multiset() == child.0@.to_multiset(),
                    self.mutation_rate == 0 ==> mutated_child.0@ == child.0@,
                    sep_seq(mutated_child.0@) == sep_seq(child.0@),
                decreases child.0@.len() - i,
            {
                let should_mutate = rng.coin(self.mutation_rate);
                if should_mutate {
                    proof {
                        lemma_ms_eq_preserves_in_range(child.0@, mutated_child.0@, n);
                    }
                    let ghost before = mutated_child.0@;
                    let removed = mutated_child.0.remove(i);
                    proof {
                        crate::problem::lemma_remove_preserves_in_range(before, i as int, n);
                    }
                    match removed {
                        SolutionField::Patient(id) => {
                            let mut valid_indices: Vec<usize> = Vec::new();
                            let mut j: usize = 0;
                            while j < mutated_child.0.len() - 1
                                invariant
                                    self.problem_instance.wf(),
                                    n == self.problem_instance.patients@.len() as int,
                                    (id as int) < n,
                                    patients_in_range(mutated_child.0@, n),
                                    mutated_child.0@.len() >= 1,
                                    j <= mutated_child.0@.len(),
                                    forall|e: int|
                                        0 <= e < valid_indices@.len()
                                            ==> (#[trigger] valid_indices@[e])
                                            < mutated_child.0@.len(),
                                decreases mutated_child.0@.len() - j,
                            {
                                if self.valid_index(j, &mutated_child, id) {
                                    valid_indices.push(j);
                                }
                                j += 1;
                            }
                            let insertion_index: usize = if valid_indices.len() == 0 {
                                rng.next_below(mutated_child.0.len())
                            } else {
                                valid_indices[rng.next_below(valid_indices.len())]
                            };
                            mutated_child.0.insert(insertion_index, removed);
                            proof {
                                lemma_relocate_ms(before, i as int, insertion_index as int);
                                lemma_sep_seq_remove_client(before, i as int);
                                lemma_sep_seq_insert_client(
                                    before.remove(i as int),
                                    insertion_index as int,
                                    SolutionField::Patient(id),
                                );
                            }
                        },
                        SolutionField::Separator(sep) => {
                            mutated_child.0.insert(i, SolutionField::Separator(sep));
                            proof {
                                lemma_relocate_ms(before, i as int, i as int);
                                assert(before.remove(i as int).insert(i as int, before[i as int])
                                    =~= before);
                            }
                        },
                    }
                }
                i += 1;
            }
            mutated.push(mutated_child);
            c += 1;
        }
        mutated
    }
}

/// Per adjacent position pair, independently relocates the left position
/// or swaps the pair; a swap only applies when both positions hold client
/// tokens.
pub struct NeighbourSwapAndInsertMutator {
    pub swap_probability: u64,
    pub insertion_probability: u64,
}

impl Mutator for NeighbourSwapAndInsertMutator {
    open spec fn pre(&self, children: Seq<ProblemSolution>) -> bool {
        forall|k: int| 0 <= k < children.len() ==> (#[trigger] children[k]).0@.len() >= 2
    }

    open spec fn ens(&self, children: Seq<ProblemSolution>, r: Seq<ProblemSolution>) -> bool {
        self.swap_probability == 0 && self.insertion_probability == 0 ==> unchanged(
            children,
            r,
        )
    }

    fn mutate(&self, rng: &mut RandomSource, children: &Vec<ProblemSolution>) -> (r: Vec<
        ProblemSolution,
    >)
    {
        let mut mutated: Vec<ProblemSolution> = Vec::new();
        let mut c: usize = 0;
        while c < children.len()
            invariant
                forall|k: int|
                    0 <= k < children@.len() ==> (#[trigger] children@[k]).0@.len() >= 2,
                c <= children@.len(),
                mutated@.len() == c,
                forall|k: int|
                    0 <= k < c ==> (#[trigger] mutated@[k]).0@.to_multiset()
                        == children@[k].0@.to_multiset(),
                self.swap_probability == 0 && self.insertion_probability == 0 ==> forall|k: int|
                    0 <= k < c ==> (#[trigger] mutated@[k]).0@ == children@[k].0@,
            decreases children@.len() - c,
        {
            let child = &children[c];
            let mut mutated_child = child.clone();
            let mut i: usize = 0;
            while i < child.0.len() - 1
                invariant
                    child.0@.len() >= 2,
                    i <= child.0@.len(),
                    mutated_child.0@.len() == child.0@.len(),
                    mutated_child.0@.to_multiset() == child.0@.to_multiset(),
                    self.swap_probability == 0 && self.insertion_probability == 0
                        ==> mutated_child.0@ == child.0@,
                decreases child.0@.len() - i,
            {
                let should_insertion_mutate = rng.coin(self.insertion_probability);
                let should_swap_mutate = rng.coin(self.swap_probability);
                if should_insertion_mutate {
                    let ghost before = mutated_child.0@;
                    let removed = mutated_child.0.remove(i);
                    let insertion_index = rng.next_below(mutated_child.0.len());
                    mutated_child.0.insert(insertion_index, removed);
                    proof {
                        lemma_relocate_ms(before, i as int, insertion_index as int);
                    }
                } else if should_swap_mutate {
                    let both_patients = mutated_child.0[i].is_patient() && mutated_child.0[i
                        + 1].is_patient();
                    if both_patients {
                        let ghost before = mutated_child.0@;
                        let a = mutated_child.0[i];
                        let b = mutated_child.0[i + 1];
                        mutated_child.0.set(i, b);
                        mutated_child.0.set(i + 1, a);
                        proof {
                            lemma_swap_ms(before, i as int, i as int + 1);
                        }
                    }
                }
                i += 1;
            }
            mutated.push(mutated_child);
            c += 1;
        }
        mutated
    }
}

/// Whether the tokens at `i_1` and `i_2` are both clients and exchanging
/// them passes the four-way one-hop time-window check against both
/// neighbours of each position.
pub open spec fn valid_swap_spec(
    inst: InstanceDescription,
    s: Seq<SolutionField>,
    i_1: int,
    i_2: int,
) -> bool {
    match (s[i_1], s[i_2]) {
        (SolutionField::Patient(p1_id), SolutionField::Patient(p2_id)) => {
            let p1 = inst.patients@[p1_id as int];
            let p2 = inst.patients@[p2_id as int];
            let ok_1_left = match gap_left(s, i_1) {
                Option::Some(l) => inst.patients@[l as int].start_time
                    + inst.patients@[l as int].care_time + inst.travel_time_patient_spec(
                    l as int,
                    p2_id as int,
                ) <= p2.end_time - p2.care_time,
                Option::None => true,
            };
            let ok_1_right = match gap_right(s, i_1 + 1) {
                Option::Some(rr) => inst.patients@[rr as int].start_time
                    + inst.patients@[rr as int].care_time + inst.travel_time_patient_spec(
                    rr as int,
                    p2_id as int,
                ) <= p2.end_time - p2.care_time,
                Option::None => true,
            };
            let ok_2_left = match gap_left(s, i_2) {
                Option::Some(l) => inst.patients@[l as int].start_time
                    + inst.patients@[l as int].care_time + inst.travel_time_patient_spec(
                    l as int,
                    p1_id as int,
                ) <= p1.end_time - p1.care_time,
                Option::None => true,
            };
            let ok_2_right = match gap_right(s, i_2 + 1) {
                Option::Some(rr) => inst.patients@[rr as int].start_time
                    + inst.patients@[rr as int].care_time + inst.travel_time_patient_spec(
                    rr as int,
                    p1_id as int,
                ) <= p1.end_time - p1.care_time,
                Option::None => true,
            };
            ok_1_left && ok_1_right && ok_2_left && ok_2_right
        },
        _ => false,
    }
}

/// Per position, independently relocates it or swaps it with a random
/// other position that passes the four-way time-window check; positions
/// with no passing partner are left unchanged.
pub struct SwapAndInsertMutator {
    pub swap_rate: u64,
    pub insert_rate: u64,
    pub problem_instance: InstanceDescription,
}

impl SwapAndInsertMutator {
    /// Whether exchanging the clients at `i_1` and `i_2` passes the
    /// four-way one-hop time-window check.
    pub fn valid_swap(&self, i_1: usize, i_2: usize, problem_solution: &ProblemSolution) -> (r:
        bool)
        requires
            self.problem_instance.wf(),
            (i_1 as int) + 1 < problem_solution.0@.len(),
            (i_2 as int) < problem_solution.0@.len(),
            patients_in_range(problem_solution.0@, self.problem_instance.patients@.len() as int),
        ensures
            r == valid_swap_spec(
                self.problem_instance,
                problem_solution.0@,
                i_1 as int,
                i_2 as int,
            ),
    {
        let s = &problem_solution.0;
        let slen = s.len();
        let (p1_id, p2_id) = match (s[i_1], s[i_2]) {
            (SolutionField::Patient(id_1), SolutionField::Patient(id_2)) => (id_1, id_2),
            _ => {
                return false;
            },
        };
        proof {
            assert(self.problem_instance.patients@[p1_id as int].wf());
            assert(self.problem_instance.patients@[p2_id as int].wf());
        }
        let patient_1 = self.problem_instance.patients[p1_id];
        let patient_2 = self.problem_instance.patients[p2_id];

        let i_1_left: Option<usize> = if i_1 >= 1 {
            match s[i_1 - 1] {
                SolutionField::Patient(id) => Some(id),
                SolutionField::Separator(_) => None,
            }
        } else {
            None
        };
        let i_1_right: Option<usize> = match s[i_1 + 1] {
            SolutionField::Patient(id) => Some(id),
            SolutionField::Separator(_) => None,
        };
        let i_2_left: Option<usize> = if i_2 >= 1 {
            match s[i_2 - 1] {
                SolutionField::Patient(id) => Some(id),
                SolutionField::Separator(_) => None,
            }
        } else {
            None
        };
        let i_2_right: Option<usize> = if i_2 < slen - 1 {
            match s[i_2 + 1] {
                SolutionField::Patient(id) => Some(id),
                SolutionField::Separator(_) => None,
            }
        } else {
            None
        };

        let mut ok = true;
        if let Some(left_1_id) = i_1_left {
            proof {
                assert(self.problem_instance.patients@[left_1_id as int].wf());
            }
            let patient_left = self.problem_instance.patients[left_1_id];
            if patient_left.start_time as i64 + patient_left.care_time as i64
                + self.problem_instance.travel_time_patient(left_1_id, p2_id) as i64
                > patient_2.end_time as i64 - patient_2.care_time as i64 {
                ok = false;
            }
        }
        if let Some(right_1_id) = i_1_right {
            proof {
                assert(self.problem_instance.patients@[right_1_id as int].wf());
            }
            let patient_right = self.problem_instance.patients[right_1_id];
            if patient_right.start_time as i64 + patient_right.care_time as i64
                + self.problem_instance.travel_time_patient(right_1_id, p2_id) as i64
                > patient_2.end_time as i64 - patient_2.care_time as i64 {
                ok = false;
            }
        }
        if let Some(left_2_id) = i_2_left {
            proof {
                assert(self.problem_instance.patients@[left_2_id as int].wf());
            }
            let patient_left = self.problem_instance.patients[left_2_id];
            if patient_left.start_time as i64 + patient_left.care_time as i64
                + self.problem_instance.travel_time_patient(left_2_id, p1_id) as i64
                > patient_1.end_time as i64 - patient_1.care_time as i64 {
                ok = false;
            }
        }
        if let Some(right_2_id) = i_2_right {
            proof {
                assert(self.problem_instance.patients@[right_2_id as int].wf());
            }
            let patient_right = self.problem_instance.patients[right_2_id];
            if patient_right.start_time as i64 + patient_right.care_time as i64
                + self.problem_instance.travel_time_patient(right_2_id, p1_id) as i64
                > patient_1.end_time as i64 - patient_1.care_time as i64 {
                ok = false;
            }
        }
        ok
    }
}

impl Mutator for SwapAndInsertMutator {
    open spec fn pre(&self, children: Seq<ProblemSolution>) -> bool {
        &&& self.problem_instance.wf()
        &&& forall|k: int|
            0 <= k < children.len() ==> (#[trigger] children[k]).0@.len() >= 2
                && patients_in_range(
                children[k].0@,
                self.problem_instance.patients@.len() as int,
            )
    }

    open spec fn ens(&self, children: Seq<ProblemSolution>, r: Seq<ProblemSolution>) -> bool {
        self.swap_rate == 0 && self.insert_rate == 0 ==> unchanged(children, r)
    }

    fn mutate(&self, rng: &mut RandomSource, children: &Vec<ProblemSolution>) -> (r: Vec<
        ProblemSolution,
    >)
    {
        let ghost n = self.problem_instance.patients@.len() as int;
        let mut mutated: Vec<ProblemSolution> = Vec::new();
        let mut c: usize = 0;
        while c < children.len()
            invariant
                self.problem_instance.wf(),
                n == self.problem_instance.patients@.len() as int,
                forall|k: int|
                    0 <= k < children@.len() ==> (#[trigger] children@[k]).0@.len() >= 2
                        && patients_in_range(children@[k].0@, n),
                c <= children@.len(),
                mutated@.len() == c,
                forall|k: int|
                    0 <= k < c ==> (#[trigger] mutated@[k]).0@.to_multiset()
                        == children@[k].0@.to_multiset(),
                self.swap_rate == 0 && self.insert_rate == 0 ==> forall|k: int|
                    0 <= k < c ==> (#[trigger] mutated@[k]).0@ == children@[k].0@,
            decreases children@.len() - c,
        {
            let child = &children[c];
            let mut mutated_child = child.clone();
            let mut i: usize = 0;
            while i < child.0.len() - 1
                invariant
                    self.problem_instance.wf(),
                    n == self.problem_instance.patients@.len() as int,
                    child.0@.len() >= 2,
                    patients_in_range(child.0@, n),
                    i <= child.0@.len(),
                    mutated_child.0@.len() == child.0@.len(),
                    mutated_child.0@.to_multiset() == child.0@.to_multiset(),
                    self.swap_rate == 0 && self.insert_rate == 0 ==> mutated_child.0@
                        == child.0@,
                decreases child.0@.len() - i,
            {
                let should_insertion_mutate = rng.coin(self.insert_rate);
                let should_swap_mutate = rng.coin(self.swap_rate);
                if should_insertion_mutate {
                    let ghost before = mutated_child.0@;
                    let removed = mutated_child.0.remove(i);
                    let insertion_index = rng.next_below(mutated_child.0.len());
                    mutated_child.0.insert(insertion_index, removed);
                    proof {
                        lemma_relocate_ms(before, i as int, insertion_index as int);
                    }
                } else if should_swap_mutate {
                    proof {
                        lemma_ms_eq_preserves_in_range(child.0@, mutated_child.0@, n);
                    }
                    let mut valid_indices: Vec<usize> = Vec::new();
                    let mut j: usize = 0;
                    while j < mutated_child.0.len()
                        invariant
                            self.problem_instance.wf(),
                            n == self.problem_instance.patients@.len() as int,
                            patients_in_range(mutated_child.0@, n),
                            (i as int) + 1 < mutated_child.0@.len(),
                            j <= mutated_child.0@.len(),
                            forall|e: int|
                                0 <= e < valid_indices@.len() ==> (#[trigger] valid_indices@[e])
                                    < mutated_child.0@.len(),
                        decreases mutated_child.0@.len() - j,
                    {
                        if j != i {
                            if self.valid_swap(i, j, &mutated_child) {
                                valid_indices.push(j);
                            }
                        }
                        j += 1;
                    }
                    if valid_indices.len() > 0 {
                        let swap_index = valid_indices[rng.next_below(valid_indices.len())];
                        let ghost before = mutated_child.0@;
                        let a = mutated_child.0[i];
                        let b = mutated_child.0[swap_index];
                        mutated_child.0.set(i, b);
                        mutated_child.0.set(swap_index, a);
                        proof {
                            lemma_swap_ms(before, i as int, swap_index as int);
                        }
                    }
                }
                i += 1;
            }
            mutated.push(mutated_child);
            c += 1;
        }
        mutated
    }
}

} // verus!
