use nurse_ga::crossover::{DefaultCrossover, EdgeCrossover, ParentCrossoverSystem};
use nurse_ga::elementwise_addition;
use nurse_ga::diagnostics_row;
use nurse_ga::fitness_function::{DefaultFitness, FitnessFunction};
use nurse_ga::initializer::{DefaultInitializer, PopulationInitializer};
use nurse_ga::mutator::{
    DefaultMutator, InsertionMutator, Mutator, NeighbourSwapAndInsertMutator,
    SmartInsertionMutator, SwapAndInsertMutator,
};
use nurse_ga::parent_selector::{DefaultParentSelector, IdentityParentSelector, ParentSelector};
use nurse_ga::penalty_function::{DefaultPenalty, PenaltyFunction};
use nurse_ga::problem::{Depot, InstanceDescription, Patient, Phenotype, ProblemSolution, SolutionField};
use nurse_ga::randomness::{RandomSource, RATE_SCALE};
use nurse_ga::repair_mechanism::{DefaultRepair, RepairMechanism};
use nurse_ga::survivor_selection::{ElitismSelector, SurvivorSelector, TournamentSelector};
use nurse_ga::GA;

fn patient(demand: usize, start_time: usize, end_time: usize, care_time: usize) -> Patient {
    Patient { x_coord: 0, y_coord: 0, demand, start_time, end_time, care_time }
}

/// Three clients, one worker; matrix entries chosen so that visiting the
/// clients in order 0, 1, 2 is strictly cheapest.
fn small_instance() -> InstanceDescription {
    InstanceDescription {
        instance_name: String::from("small"),
        nbr_nurses: 1,
        capacity_nurse: 100,
        depot: Depot { return_time: 10000, x_coord: 0, y_coord: 0 },
        patients: vec![
            patient(1, 0, 10000, 1),
            patient(1, 0, 10000, 1),
            patient(1, 0, 10000, 1),
        ],
        // Row and column 0 belong to the depot; client i sits at i + 1.
        travel_times: vec![
            vec![0, 1, 5, 9],
            vec![1, 0, 1, 7],
            vec![5, 1, 0, 1],
            vec![9, 7, 1, 0],
        ],
    }
}

fn solution(tokens: Vec<SolutionField>) -> ProblemSolution {
    ProblemSolution(tokens)
}

/// Checks the structural invariant: clients 0..n once each, separators
/// 0..w once each, nothing else.
fn assert_valid(s: &ProblemSolution, n: usize, w: usize) {
    assert_eq!(s.0.len(), n + w);
    for id in 0..n {
        let count = s.0.iter().filter(|t| **t == SolutionField::Patient(id)).count();
        assert_eq!(count, 1, "client {} occurs {} times", id, count);
    }
    for id in 0..w {
        let count = s.0.iter().filter(|t| **t == SolutionField::Separator(id)).count();
        assert_eq!(count, 1, "separator {} occurs {} times", id, count);
    }
}

fn travel_time_of(inst: &InstanceDescription, s: &ProblemSolution) -> u64 {
    let mut total = 0u64;
    let mut prev: Option<usize> = None;
    for t in &s.0 {
        match *t {
            SolutionField::Patient(id) => {
                total += match prev {
                    Some(p) => inst.travel_times[p + 1][id + 1],
                    None => inst.travel_times[0][id + 1],
                };
                prev = Some(id);
            }
            SolutionField::Separator(_) => {
                if let Some(p) = prev {
                    total += inst.travel_times[0][p + 1];
                }
                prev = None;
            }
        }
    }
    total
}

#[test]
fn rng_next_below_stays_below_bound() {
    let mut rng = RandomSource::from_seed(7);
    for n in 1..50usize {
        for _ in 0..20 {
            assert!(rng.next_below(n) < n);
        }
    }
    let mut rng = RandomSource::from_seed(8);
    for _ in 0..100 {
        assert!(rng.next_below_u128(1000) < 1000);
    }
}

#[test]
fn rng_same_seed_same_stream() {
    let mut a = RandomSource::from_seed(1234);
    let mut b = RandomSource::from_seed(1234);
    for _ in 0..50 {
        assert_eq!(a.next_below(1000), b.next_below(1000));
    }
}

#[test]
fn coin_extremes() {
    let mut rng = RandomSource::from_seed(5);
    for _ in 0..50 {
        assert!(!rng.coin(0));
        assert!(rng.coin(RATE_SCALE));
    }
}

#[test]
fn elementwise_addition_adds() {
    let a = vec![1i64, -2, 30];
    let b = vec![10i64, 20, -5];
    assert_eq!(elementwise_addition(&a, &b), vec![11i64, 18, 25]);
}

#[test]
fn travel_time_accessors_follow_matrix_layout() {
    let inst = small_instance();
    assert_eq!(inst.travel_time_depot(0), 1);
    assert_eq!(inst.travel_time_depot(2), 9);
    assert_eq!(inst.travel_time_patient(0, 1), 1);
    assert_eq!(inst.travel_time_patient(2, 0), 7);
}

#[test]
fn is_incompatible_detects_disjoint_windows() {
    // Both orders overrun the other's window.
    let a = patient(1, 0, 10, 5);
    let b = patient(1, 0, 10, 5);
    assert!(Patient::is_incompatible(&a, &b, 50));
    // Wide windows: either order fits.
    let c = patient(1, 0, 1000, 5);
    let d = patient(1, 0, 1000, 5);
    assert!(!Patient::is_incompatible(&c, &d, 50));
}

#[test]
fn phenotype_serializes_routes_in_worker_order() {
    let ps = Phenotype(vec![vec![2, 0], vec![], vec![1]]);
    let sol = ps.into_solution();
    assert_eq!(
        sol.0,
        vec![
            SolutionField::Patient(2),
            SolutionField::Patient(0),
            SolutionField::Separator(0),
            SolutionField::Separator(1),
            SolutionField::Patient(1),
            SolutionField::Separator(2),
        ]
    );
    assert_valid(&sol, 3, 3);
}

#[test]
fn initializer_produces_valid_population() {
    let init = DefaultInitializer { initial_population: 20, patient_amount: 7, nurses: 3 };
    let mut rng = RandomSource::from_seed(99);
    let pop = init.initialize_population(&mut rng);
    assert_eq!(pop.len(), 20);
    for s in &pop {
        assert_valid(s, 7, 3);
        // Routes are serialized in worker order: the separator
        // subsequence is exactly 0, 1, 2.
        let seps: Vec<usize> = s
            .0
            .iter()
            .filter_map(|t| match t {
                SolutionField::Separator(id) => Some(*id),
                SolutionField::Patient(_) => None,
            })
            .collect();
        assert_eq!(seps, vec![0, 1, 2]);
    }
}

#[test]
fn fitness_matches_hand_computed_sum() {
    let inst = small_instance();
    let ff = DefaultFitness {};
    // depot -> 0 (1), 0 -> 1 (1), 1 -> 2 (1), 2 -> depot (9): total 12.
    let s = solution(vec![
        SolutionField::Patient(0),
        SolutionField::Patient(1),
        SolutionField::Patient(2),
        SolutionField::Separator(0),
    ]);
    let f = ff.get_fitnesses(&vec![s], &inst);
    assert_eq!(f, vec![-12i64]);
}

#[test]
fn fitness_is_pure() {
    let inst = small_instance();
    let ff = DefaultFitness {};
    let s = solution(vec![
        SolutionField::Patient(2),
        SolutionField::Separator(0),
        SolutionField::Patient(0),
        SolutionField::Patient(1),
    ]);
    let once = ff.get_fitnesses(&vec![s.clone()], &inst);
    let twice = ff.get_fitnesses(&vec![s], &inst);
    assert_eq!(once, twice);
}

#[test]
fn penalty_zero_without_violations_negative_with() {
    let inst = small_instance();
    let pf = DefaultPenalty {
        overcapacity_multiplier: 1000,
        missed_window_multiplier: 50,
        late_depot_multiplier: 2000,
    };
    let feasible = solution(vec![
        SolutionField::Patient(0),
        SolutionField::Patient(1),
        SolutionField::Patient(2),
        SolutionField::Separator(0),
    ]);
    assert_eq!(pf.get_penalties(&vec![feasible], &inst), vec![0i64]);

    // Tight capacity: the route's demand of 3 overruns capacity 1 by 2.
    let mut tight = small_instance();
    tight.capacity_nurse = 1;
    let overloaded = solution(vec![
        SolutionField::Patient(0),
        SolutionField::Patient(1),
        SolutionField::Patient(2),
        SolutionField::Separator(0),
    ]);
    let p = pf.get_penalties(&vec![overloaded], &tight);
    assert_eq!(p, vec![-2 * 1000i64]);
    assert!(p[0] < 0);
}

#[test]
fn penalty_scales_linearly_with_multipliers() {
    let mut inst = small_instance();
    inst.capacity_nurse = 1;
    inst.depot.return_time = 0;
    let base = DefaultPenalty {
        overcapacity_multiplier: 3,
        missed_window_multiplier: 5,
        late_depot_multiplier: 7,
    };
    let doubled = DefaultPenalty {
        overcapacity_multiplier: 6,
        missed_window_multiplier: 10,
        late_depot_multiplier: 14,
    };
    let s = solution(vec![
        SolutionField::Patient(2),
        SolutionField::Patient(0),
        SolutionField::Patient(1),
        SolutionField::Separator(0),
    ]);
    let a = base.get_penalties(&vec![s.clone()], &inst)[0];
    let b = doubled.get_penalties(&vec![s], &inst)[0];
    assert!(a < 0);
    assert_eq!(b, 2 * a);
}

#[test]
fn identity_selector_passes_population_through() {
    let sel = IdentityParentSelector;
    let mut rng = RandomSource::from_seed(0);
    let pop = vec![
        solution(vec![SolutionField::Patient(0), SolutionField::Separator(0)]),
        solution(vec![SolutionField::Separator(0), SolutionField::Patient(0)]),
    ];
    let out = sel.select_parents(&mut rng, &pop, &vec![-5, -9]);
    assert_eq!(out.len(), 2);
    assert_eq!(out[0].0, pop[0].0);
    assert_eq!(out[1].0, pop[1].0);
}

#[test]
fn proportional_selector_skips_zero_weight_candidates() {
    let sel = DefaultParentSelector {};
    let mut rng = RandomSource::from_seed(11);
    let worst = solution(vec![SolutionField::Patient(0), SolutionField::Separator(0)]);
    let best = solution(vec![SolutionField::Separator(0), SolutionField::Patient(0)]);
    let pop = vec![worst.clone(), best.clone()];
    // The minimum-score candidate has weight zero and is never drawn.
    let out = sel.select_parents(&mut rng, &pop, &vec![-100, -1]);
    assert_eq!(out.len(), 2);
    for s in &out {
        assert_eq!(s.0, best.0);
    }
}

#[test]
fn proportional_selector_handles_zero_variance() {
    let sel = DefaultParentSelector {};
    let mut rng = RandomSource::from_seed(12);
    let pop = vec![
        solution(vec![SolutionField::Patient(0), SolutionField::Separator(0)]),
        solution(vec![SolutionField::Separator(0), SolutionField::Patient(0)]),
    ];
    let out = sel.select_parents(&mut rng, &pop, &vec![-7, -7]);
    assert_eq!(out.len(), 2);
}

#[test]
fn default_crossover_preserves_clients_and_length() {
    let co = DefaultCrossover { crossover_rate: RATE_SCALE };
    let mut rng = RandomSource::from_seed(3);
    let p1 = solution(vec![
        SolutionField::Patient(0),
        SolutionField::Patient(1),
        SolutionField::Separator(0),
        SolutionField::Patient(2),
        SolutionField::Separator(1),
    ]);
    let p2 = solution(vec![
        SolutionField::Patient(2),
        SolutionField::Separator(1),
        SolutionField::Patient(1),
        SolutionField::Patient(0),
        SolutionField::Separator(0),
    ]);
    let children = co.cross_over(&mut rng, &vec![p1, p2]);
    assert_eq!(children.len(), 2);
    for child in &children {
        assert_eq!(child.0.len(), 5);
        for id in 0..3 {
            let count = child.0.iter().filter(|t| **t == SolutionField::Patient(id)).count();
            assert_eq!(count, 1);
        }
        let seps = child.0.iter().filter(|t| matches!(t, SolutionField::Separator(_))).count();
        assert_eq!(seps, 2);
    }
}

#[test]
fn order_crossover_can_relabel_separators() {
    // With three tokens the interior cut is always 1.  The child copies
    // parent 1's leading separator and then consumes parent 2's trailing
    // separators, so a label can repeat: clients and the separator count
    // are preserved, the label set is not.
    let co = DefaultCrossover { crossover_rate: RATE_SCALE };
    let mut rng = RandomSource::from_seed(0);
    let p1 = solution(vec![
        SolutionField::Separator(1),
        SolutionField::Patient(0),
        SolutionField::Separator(0),
    ]);
    let p2 = solution(vec![
        SolutionField::Patient(0),
        SolutionField::Separator(0),
        SolutionField::Separator(1),
    ]);
    let children = co.cross_over(&mut rng, &vec![p1, p2]);
    assert_eq!(
        children[0].0,
        vec![
            SolutionField::Separator(1),
            SolutionField::Patient(0),
            SolutionField::Separator(1),
        ]
    );
}

#[test]
fn edge_crossover_emits_no_duplicates_at_parent_length() {
    let co = EdgeCrossover { crossover_rate: RATE_SCALE };
    for seed in 0..20 {
        let mut rng = RandomSource::from_seed(seed);
        let p1 = solution(vec![
            SolutionField::Patient(0),
            SolutionField::Patient(1),
            SolutionField::Separator(0),
            SolutionField::Patient(2),
            SolutionField::Patient(3),
            SolutionField::Separator(1),
        ]);
        let p2 = solution(vec![
            SolutionField::Patient(3),
            SolutionField::Separator(1),
            SolutionField::Patient(0),
            SolutionField::Patient(2),
            SolutionField::Separator(0),
            SolutionField::Patient(1),
        ]);
        let children = co.cross_over(&mut rng, &vec![p1, p2]);
        assert_eq!(children.len(), 2);
        for child in &children {
            assert_valid(child, 4, 2);
        }
    }
}

#[test]
fn mutators_preserve_token_multiset() {
    let child = solution(vec![
        SolutionField::Patient(0),
        SolutionField::Patient(1),
        SolutionField::Separator(0),
        SolutionField::Patient(2),
        SolutionField::Separator(1),
    ]);
    let mut rng = RandomSource::from_seed(21);
    let m1 = DefaultMutator { mutation_rate: RATE_SCALE };
    for s in m1.mutate(&mut rng, &vec![child.clone()]) {
        assert_valid(&s, 3, 2);
    }
    let m2 = InsertionMutator { mutation_rate: RATE_SCALE / 2 };
    for s in m2.mutate(&mut rng, &vec![child.clone()]) {
        assert_valid(&s, 3, 2);
    }
    let m3 = NeighbourSwapAndInsertMutator {
        swap_probability: RATE_SCALE / 2,
        insertion_probability: RATE_SCALE / 2,
    };
    for s in m3.mutate(&mut rng, &vec![child.clone()]) {
        assert_valid(&s, 3, 2);
    }
    let inst = small_instance();
    let m4 = SmartInsertionMutator { mutation_rate: RATE_SCALE / 2, problem_instance: inst };
    for s in m4.mutate(&mut rng, &vec![child.clone()]) {
        assert_valid(&s, 3, 2);
    }
    let m5 = SwapAndInsertMutator {
        swap_rate: RATE_SCALE / 2,
        insert_rate: RATE_SCALE / 2,
        problem_instance: small_instance(),
    };
    for s in m5.mutate(&mut rng, &vec![child.clone()]) {
        assert_valid(&s, 3, 2);
    }
}

#[test]
fn swap_mutation_exchanges_exactly_one_pair() {
    let child = solution(vec![
        SolutionField::Patient(0),
        SolutionField::Patient(1),
        SolutionField::Separator(0),
        SolutionField::Patient(2),
        SolutionField::Separator(1),
    ]);
    let m = DefaultMutator { mutation_rate: RATE_SCALE };
    for seed in 0..10 {
        let mut rng = RandomSource::from_seed(seed);
        let out = m.mutate(&mut rng, &vec![child.clone()]);
        let differing = (0..child.0.len()).filter(|&i| out[0].0[i] != child.0[i]).count();
        // All tokens are distinct, so one swap changes exactly two slots.
        assert_eq!(differing, 2);
    }
}

#[test]
fn feasibility_aware_relocation_keeps_separator_subsequence() {
    let child = solution(vec![
        SolutionField::Patient(0),
        SolutionField::Separator(1),
        SolutionField::Patient(1),
        SolutionField::Patient(2),
        SolutionField::Separator(0),
    ]);
    let sep_positions = |s: &ProblemSolution| -> Vec<usize> {
        s.0
            .iter()
            .filter_map(|t| match t {
                SolutionField::Separator(id) => Some(*id),
                SolutionField::Patient(_) => None,
            })
            .collect()
    };
    let m = SmartInsertionMutator {
        mutation_rate: RATE_SCALE,
        problem_instance: small_instance(),
    };
    for seed in 0..10 {
        let mut rng = RandomSource::from_seed(seed);
        let out = m.mutate(&mut rng, &vec![child.clone()]);
        assert_valid(&out[0], 3, 2);
        assert_eq!(sep_positions(&out[0]), sep_positions(&child));
    }
}

#[test]
fn mutators_with_zero_rates_are_identity() {
    let child = solution(vec![
        SolutionField::Patient(0),
        SolutionField::Patient(1),
        SolutionField::Separator(0),
        SolutionField::Patient(2),
        SolutionField::Separator(1),
    ]);
    let mut rng = RandomSource::from_seed(33);
    let out = DefaultMutator { mutation_rate: 0 }.mutate(&mut rng, &vec![child.clone()]);
    assert_eq!(out[0].0, child.0);
    let out = InsertionMutator { mutation_rate: 0 }.mutate(&mut rng, &vec![child.clone()]);
    assert_eq!(out[0].0, child.0);
    let out = NeighbourSwapAndInsertMutator { swap_probability: 0, insertion_probability: 0 }
        .mutate(&mut rng, &vec![child.clone()]);
    assert_eq!(out[0].0, child.0);
    let out = SwapAndInsertMutator {
        swap_rate: 0,
        insert_rate: 0,
        problem_instance: small_instance(),
    }.mutate(&mut rng, &vec![child.clone()]);
    assert_eq!(out[0].0, child.0);
}

#[test]
fn valid_index_checks_one_hop_window_feasibility() {
    // Client 2's window closes early: placing it after the late client 0
    // fails, while placing it first (before a separator) passes.
    let inst = InstanceDescription {
        instance_name: String::from("gaps"),
        nbr_nurses: 1,
        capacity_nurse: 100,
        depot: Depot { return_time: 10000, x_coord: 0, y_coord: 0 },
        patients: vec![
            patient(1, 500, 600, 10),
            patient(1, 0, 10000, 10),
            patient(1, 0, 100, 10),
        ],
        travel_times: vec![
            vec![0, 1, 1, 1],
            vec![1, 0, 1, 1],
            vec![1, 1, 0, 1],
            vec![1, 1, 1, 0],
        ],
    };
    let m = SmartInsertionMutator { mutation_rate: 0, problem_instance: inst };
    let s = solution(vec![SolutionField::Patient(0), SolutionField::Separator(0)]);
    // Gap 1 sits right of client 0: earliest arrival 500 + 10 + 1 = 511,
    // later than 100 - 10.
    assert!(!m.valid_index(1, &s, 2));
    // Gap 0 has no client on either side that binds the window.
    assert!(m.valid_index(0, &s, 2));
}

#[test]
fn valid_swap_requires_all_four_neighbour_checks() {
    // Swapping a tightly windowed client next to a late neighbour fails.
    let inst = InstanceDescription {
        instance_name: String::from("swaps"),
        nbr_nurses: 1,
        capacity_nurse: 100,
        depot: Depot { return_time: 10000, x_coord: 0, y_coord: 0 },
        patients: vec![
            patient(1, 0, 10000, 10),
            patient(1, 500, 600, 10),
            patient(1, 0, 100, 10),
            patient(1, 0, 10000, 10),
        ],
        travel_times: vec![
            vec![0, 1, 1, 1, 1],
            vec![1, 0, 1, 1, 1],
            vec![1, 1, 0, 1, 1],
            vec![1, 1, 1, 0, 1],
            vec![1, 1, 1, 1, 0],
        ],
    };
    let m = SwapAndInsertMutator {
        swap_rate: 0,
        insert_rate: 0,
        problem_instance: inst,
    };
    // [P0, P1, P2, P3]: swapping positions 0 and 2 would put client 2
    // right before the late client 1, whose start 500 + care + travel
    // overruns client 2's window end 100 - care.
    let s = solution(vec![
        SolutionField::Patient(0),
        SolutionField::Patient(1),
        SolutionField::Patient(2),
        SolutionField::Patient(3),
    ]);
    assert!(!m.valid_swap(0, 2, &s));
    // Swapping the two wide-windowed clients 0 and 3 passes.
    let relaxed = solution(vec![
        SolutionField::Patient(0),
        SolutionField::Patient(3),
        SolutionField::Patient(1),
        SolutionField::Patient(2),
    ]);
    assert!(m.valid_swap(0, 1, &relaxed));
}

#[test]
fn repair_swaps_infeasible_adjacent_pair() {
    // Client 1 must be served early, client 0 late; 0 before 1 is
    // infeasible while 1 before 0 is fine, so repair swaps them.
    let inst = InstanceDescription {
        instance_name: String::from("pair"),
        nbr_nurses: 1,
        capacity_nurse: 100,
        depot: Depot { return_time: 10000, x_coord: 0, y_coord: 0 },
        patients: vec![patient(1, 500, 600, 10), patient(1, 0, 100, 10)],
        travel_times: vec![vec![0, 1, 1], vec![1, 0, 1], vec![1, 1, 0]],
    };
    let rm = DefaultRepair;
    let mut rng = RandomSource::from_seed(2);
    let broken = solution(vec![
        SolutionField::Patient(0),
        SolutionField::Patient(1),
        SolutionField::Separator(0),
    ]);
    let out = rm.repair(&mut rng, &vec![broken], &inst);
    assert_eq!(out.len(), 1);
    assert_valid(&out[0], 2, 1);
    assert_eq!(out[0].0[0], SolutionField::Patient(1));
    assert_eq!(out[0].0[1], SolutionField::Patient(0));
}

#[test]
fn repair_leaves_feasible_solution_unchanged() {
    let inst = small_instance();
    let rm = DefaultRepair;
    let mut rng = RandomSource::from_seed(4);
    // Wide windows: every adjacent order is feasible.
    let fine = solution(vec![
        SolutionField::Patient(2),
        SolutionField::Patient(0),
        SolutionField::Patient(1),
        SolutionField::Separator(0),
    ]);
    let out = rm.repair(&mut rng, &vec![fine.clone()], &inst);
    assert_eq!(out[0].0, fine.0);
}

#[test]
fn elitism_keeps_best_parent_when_it_beats_best_child() {
    let sel = ElitismSelector;
    let best_parent = solution(vec![SolutionField::Patient(0), SolutionField::Separator(0)]);
    let other_parent = solution(vec![SolutionField::Separator(0), SolutionField::Patient(0)]);
    let child_a = solution(vec![SolutionField::Patient(1), SolutionField::Separator(1)]);
    let child_b = solution(vec![SolutionField::Separator(1), SolutionField::Patient(1)]);
    let out = sel.select_survivors(
        &vec![best_parent.clone(), other_parent],
        &vec![-1, -50],
        &vec![child_a.clone(), child_b.clone()],
        &vec![-30, -10],
    );
    assert_eq!(out.len(), 2);
    // The worst child (index 0) is overwritten by the best parent.
    assert_eq!(out[0].0, best_parent.0);
    assert_eq!(out[1].0, child_b.0);
}

#[test]
fn elitism_keeps_children_when_best_child_wins() {
    let sel = ElitismSelector;
    let parents = vec![
        solution(vec![SolutionField::Patient(0), SolutionField::Separator(0)]),
        solution(vec![SolutionField::Separator(0), SolutionField::Patient(0)]),
    ];
    let children = vec![
        solution(vec![SolutionField::Patient(1), SolutionField::Separator(1)]),
        solution(vec![SolutionField::Separator(1), SolutionField::Patient(1)]),
    ];
    let out = sel.select_survivors(&parents, &vec![-40, -50], &children, &vec![-30, -10]);
    assert_eq!(out[0].0, children[0].0);
    assert_eq!(out[1].0, children[1].0);
}

/// Reference implementation of one tournament pair, used to check the
/// alignment exhaustively on small synthetic examples.
fn tournament_reference(
    parents: &[ProblemSolution],
    parent_evals: &[i64],
    children: &[ProblemSolution],
    children_evals: &[i64],
) -> Vec<ProblemSolution> {
    let dist = |a: &ProblemSolution, b: &ProblemSolution| -> usize {
        (0..a.0.len()).filter(|&i| a.0[i] != b.0[i]).count()
    };
    let mut out = Vec::new();
    for i in 0..children.len() / 2 {
        let ud = dist(&children[2 * i], &parents[2 * i])
            + dist(&children[2 * i + 1], &parents[2 * i + 1]);
        let sd = dist(&children[2 * i], &parents[2 * i + 1])
            + dist(&children[2 * i + 1], &parents[2 * i]);
        if sd < ud {
            out.push(if parent_evals[2 * i] > children_evals[2 * i + 1] {
                parents[2 * i].clone()
            } else {
                children[2 * i + 1].clone()
            });
            out.push(if parent_evals[2 * i + 1] > children_evals[2 * i] {
                parents[2 * i + 1].clone()
            } else {
                children[2 * i].clone()
            });
        } else {
            out.push(if parent_evals[2 * i] > children_evals[2 * i] {
                parents[2 * i].clone()
            } else {
                children[2 * i].clone()
            });
            out.push(if parent_evals[2 * i + 1] > children_evals[2 * i + 1] {
                parents[2 * i + 1].clone()
            } else {
                children[2 * i + 1].clone()
            });
        }
    }
    out
}

#[test]
fn tournament_alignment_minimizes_total_distance() {
    // All 2-token sequences over {Patient(0), Separator(0)} in pairs:
    // check the selector against the reference on every combination.
    let toks = [
        solution(vec![SolutionField::Patient(0), SolutionField::Separator(0)]),
        solution(vec![SolutionField::Separator(0), SolutionField::Patient(0)]),
    ];
    let evals = [-10i64, -20, -30];
    let sel = TournamentSelector;
    for a in 0..2 {
        for b in 0..2 {
            for c in 0..2 {
                for d in 0..2 {
                    for ea in 0..3 {
                        for eb in 0..3 {
                            let parents = vec![toks[a].clone(), toks[b].clone()];
                            let children = vec![toks[c].clone(), toks[d].clone()];
                            let pe = vec![evals[ea], evals[eb]];
                            let ce = vec![evals[eb], evals[ea]];
                            let got = sel.select_survivors(&parents, &pe, &children, &ce);
                            let want = tournament_reference(&parents, &pe, &children, &ce);
                            assert_eq!(got.len(), want.len());
                            for k in 0..got.len() {
                                assert_eq!(got[k].0, want[k].0);
                            }
                        }
                    }
                }
            }
        }
    }
}

#[test]
fn tournament_dist_counts_differing_positions() {
    let a = solution(vec![
        SolutionField::Patient(0),
        SolutionField::Patient(1),
        SolutionField::Separator(0),
    ]);
    let b = solution(vec![
        SolutionField::Patient(0),
        SolutionField::Separator(0),
        SolutionField::Patient(1),
    ]);
    assert_eq!(TournamentSelector::dist(&a, &a), 0);
    assert_eq!(TournamentSelector::dist(&a, &b), 2);
}

#[test]
fn diagnostics_row_summarizes_scores() {
    let evals = vec![-10i64, -2, -30];
    let pens = vec![0i64, -5, -1];
    let row = diagnostics_row(7, &evals, &pens);
    assert_eq!(row.generation, 7);
    assert_eq!(row.count, 3);
    assert_eq!(row.eval_sum, -42);
    assert_eq!(row.eval_max, -2);
    assert_eq!(row.penalty_sum, -6);
    assert_eq!(row.penalty_max, 0);
}

/// Cheapest of all valid genotypes: every visiting order of the three
/// clients with the single separator at each of the four positions.
fn brute_force_best(inst: &InstanceDescription) -> u64 {
    let perms: [[usize; 3]; 6] = [
        [0, 1, 2],
        [0, 2, 1],
        [1, 0, 2],
        [1, 2, 0],
        [2, 0, 1],
        [2, 1, 0],
    ];
    let mut best = u64::MAX;
    for p in &perms {
        for sep_at in 0..4 {
            let mut tokens = Vec::new();
            for (pos, id) in p.iter().enumerate() {
                if pos == sep_at {
                    tokens.push(SolutionField::Separator(0));
                }
                tokens.push(SolutionField::Patient(*id));
            }
            if sep_at == 3 {
                tokens.push(SolutionField::Separator(0));
            }
            let t = travel_time_of(inst, &solution(tokens));
            if t < best {
                best = t;
            }
        }
    }
    best
}

fn run_end_to_end<V: SurvivorSelector>(survivor: V, seed: u64) -> u64 {
    let inst = small_instance();
    let engine = GA {
        instance_description: small_instance(),
        population_initializer: DefaultInitializer {
            initial_population: 8,
            patient_amount: 3,
            nurses: 1,
        },
        fitness_function: DefaultFitness {},
        penalty_function: Some(DefaultPenalty {
            overcapacity_multiplier: 1000,
            missed_window_multiplier: 50,
            late_depot_multiplier: 2000,
        }),
        parent_selector: IdentityParentSelector,
        crossover_system: DefaultCrossover { crossover_rate: RATE_SCALE / 3 },
        mutator: DefaultMutator { mutation_rate: RATE_SCALE / 10 },
        repair_mechanism: Some(DefaultRepair),
        survivor_selector: survivor,
        population: Vec::new(),
        population_eval: Vec::new(),
        population_penalites: Vec::new(),
        children: Vec::new(),
        children_eval: Vec::new(),
    };
    let mut rng = RandomSource::from_seed(seed);
    let (population, eval, _penalties) = engine.start(&mut rng, 120, false, 1);
    let mut best: usize = 0;
    for k in 1..eval.len() {
        if eval[k] > eval[best] {
            best = k;
        }
    }
    assert_valid(&population[best], 3, 1);
    travel_time_of(&inst, &population[best])
}

#[test]
fn crossover_rate_zero_passes_pairs_through() {
    let mut rng = RandomSource::from_seed(6);
    let p1 = solution(vec![
        SolutionField::Patient(0),
        SolutionField::Patient(1),
        SolutionField::Separator(0),
    ]);
    let p2 = solution(vec![
        SolutionField::Patient(1),
        SolutionField::Separator(0),
        SolutionField::Patient(0),
    ]);
    let ordered = DefaultCrossover { crossover_rate: 0 };
    let out = ordered.cross_over(&mut rng, &vec![p1.clone(), p2.clone()]);
    assert_eq!(out[0].0, p1.0);
    assert_eq!(out[1].0, p2.0);
    // The edge variant passes an unrecombined pair through in swapped
    // order.
    let edge = EdgeCrossover { crossover_rate: 0 };
    let out = edge.cross_over(&mut rng, &vec![p1.clone(), p2.clone()]);
    assert_eq!(out[0].0, p2.0);
    assert_eq!(out[1].0, p1.0);
}

#[test]
fn engine_returns_scores_of_returned_population() {
    let engine = GA {
        instance_description: small_instance(),
        population_initializer: DefaultInitializer {
            initial_population: 4,
            patient_amount: 3,
            nurses: 1,
        },
        fitness_function: DefaultFitness {},
        penalty_function: Some(DefaultPenalty {
            overcapacity_multiplier: 1000,
            missed_window_multiplier: 50,
            late_depot_multiplier: 2000,
        }),
        parent_selector: DefaultParentSelector {},
        crossover_system: EdgeCrossover { crossover_rate: RATE_SCALE / 2 },
        mutator: InsertionMutator { mutation_rate: RATE_SCALE / 10 },
        repair_mechanism: None::<DefaultRepair>,
        survivor_selector: ElitismSelector,
        population: Vec::new(),
        population_eval: Vec::new(),
        population_penalites: Vec::new(),
        children: Vec::new(),
        children_eval: Vec::new(),
    };
    let inst = small_instance();
    let pf = DefaultPenalty {
        overcapacity_multiplier: 1000,
        missed_window_multiplier: 50,
        late_depot_multiplier: 2000,
    };
    let ff = DefaultFitness {};
    let mut rng = RandomSource::from_seed(5150);
    let (population, eval, penalties) = engine.start(&mut rng, 10, false, 1);
    assert_eq!(population.len(), 4);
    assert_eq!(eval.len(), 4);
    assert_eq!(penalties.len(), 4);
    // The returned score vectors match a fresh evaluation of the
    // returned population.
    let fresh_fitness = ff.get_fitnesses(&population, &inst);
    let fresh_penalty = pf.get_penalties(&population, &inst);
    for k in 0..4 {
        assert_valid(&population[k], 3, 1);
        assert_eq!(eval[k], fresh_fitness[k] + fresh_penalty[k]);
        assert_eq!(penalties[k], fresh_penalty[k]);
    }
}

#[test]
fn end_to_end_elitism_finds_shortest_tour() {
    let inst = small_instance();
    let optimal = brute_force_best(&inst);
    assert_eq!(run_end_to_end(ElitismSelector, 424242), optimal);
}

#[test]
fn end_to_end_tournament_finds_shortest_tour() {
    let inst = small_instance();
    let optimal = brute_force_best(&inst);
    assert_eq!(run_end_to_end(TournamentSelector, 171717), optimal);
}
