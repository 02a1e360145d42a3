use vstd::prelude::*;

verus! {

use vstd::multiset::Multiset;

broadcast use {
    vstd::seq_lib::group_to_multiset_ensures,
    vstd::multiset::group_multiset_axioms,
    vstd::multiset::group_multiset_properties,
};

/// Upper bound on every instance quantity: travel times, demands, window
/// bounds, service durations, capacity, return deadline and penalty
/// multipliers.  Together with `MAX_TOKENS` it keeps every accumulated
/// score inside 64-bit arithmetic.
pub const MAX_QUANTITY: u64 = 100000;

/// Upper bound on the token count of a solution (clients plus separators).
pub const MAX_TOKENS: usize = 4096;

/// Every fitness or penalty value lies within this bound.
pub const SCORE_BOUND: i64 = 2000000000000000000;

/// The central base: workers depart from it and must return to it by the
/// deadline.
#[derive(Debug, Clone, Copy)]
pub struct Depot {
    pub return_time: usize,
    pub x_coord: usize,
    pub y_coord: usize,
}

/// A client to be visited: a location with a demand, a service duration and
/// a time window during which service must start.
#[derive(Debug, Clone, Copy)]
pub struct Patient {
    pub x_coord: usize,
    pub y_coord: usize,
    pub demand: usize,
    pub start_time: usize,
    pub end_time: usize,
    pub care_time: usize,
}

/// The immutable problem description shared by a whole run.  The travel
/// time matrix has side `patients.len() + 1`: row and column 0 belong to
/// the depot and client `i` sits at index `i + 1`.
#[derive(Debug)]
pub struct InstanceDescription {
    pub instance_name: String,
    pub nbr_nurses: usize,
    pub capacity_nurse: usize,
    pub depot: Depot,
    pub patients: Vec<Patient>,
    pub travel_times: Vec<Vec<u64>>,
}

impl Patient {
    /// All quantities bounded and a window wide enough for the service.
    pub open spec fn wf(self) -> bool {
        &&& self.demand <= MAX_QUANTITY
        &&& self.start_time <= MAX_QUANTITY
        &&& self.end_time <= MAX_QUANTITY
        &&& self.care_time <= self.end_time
    }

    /// Neither order lets the second visit still start inside its window.
    pub open spec fn incompatible_spec(p1: Patient, p2: Patient, travel_time: int) -> bool {
        let p1_to_p2_ok = p1.start_time + p1.care_time + travel_time < p2.end_time
            - p2.care_time;
        let p2_to_p1_ok = p2.start_time + p2.care_time + travel_time < p1.end_time
            - p1.care_time;
        !(p1_to_p2_ok || p2_to_p1_ok)
    }

    /// True when no visiting order can serve both clients in sequence
    /// within their time windows.
    pub fn is_incompatible(patient_1: &Patient, patient_2: &Patient, travel_time: u64) -> (r:
        bool)
        requires
            patient_1.wf(),
            patient_2.wf(),
            travel_time <= MAX_QUANTITY,
        ensures
            r == Patient::incompatible_spec(*patient_1, *patient_2, travel_time as int),
    {
        let earliest_p1_to_p2: u64 = patient_1.start_time as u64 + patient_1.care_time as u64
            + travel_time;
        let earliest_p2_to_p1: u64 = patient_2.start_time as u64 + patient_2.care_time as u64
            + travel_time;
        let latest_possible_arrival_p1: u64 = patient_1.end_time as u64
            - patient_1.care_time as u64;
        let latest_possible_arrival_p2: u64 = patient_2.end_time as u64
            - patient_2.care_time as u64;
        let p1_to_p2_ok = earliest_p1_to_p2 < latest_possible_arrival_p2;
        let p2_to_p1_ok = earliest_p2_to_p1 < latest_possible_arrival_p1;
        !(p1_to_p2_ok || p2_to_p1_ok)
    }
}

impl InstanceDescription {
    /// Well-formed instance: at least one worker, bounded quantities, a
    /// bounded token count, and a square travel-time matrix with one row
    /// and column per client plus the depot.
    pub open spec fn wf(self) -> bool {
        let n = self.patients@.len() as int;
        &&& 1 <= self.nbr_nurses
        &&& n + self.nbr_nurses <= MAX_TOKENS
        &&& self.capacity_nurse <= MAX_QUANTITY
        &&& self.depot.return_time <= MAX_QUANTITY
        &&& forall|k: int| 0 <= k < n ==> (#[trigger] self.patients@[k]).wf()
        &&& self.travel_times@.len() == n + 1
        &&& forall|i: int|
            0 <= i <= n ==> (#[trigger] self.travel_times@[i])@.len() == n + 1
        &&& forall|i: int, j: int|
            0 <= i <= n && 0 <= j <= n ==> (#[trigger] self.travel_times@[i]@[j])
                <= MAX_QUANTITY
    }

    /// Travel time between two clients, as the matrix states it.
    pub open spec fn travel_time_patient_spec(self, patient_1: int, patient_2: int) -> int {
        self.travel_times@[patient_1 + 1]@[patient_2 + 1] as int
    }

    /// Travel time between the depot and a client, as the matrix states it.
    pub open spec fn travel_time_depot_spec(self, patient: int) -> int {
        self.travel_times@[0]@[patient + 1] as int
    }

    pub fn travel_time_patient(&self, patient_1: usize, patient_2: usize) -> (r: u64)
        requires
            self.wf(),
            patient_1 < self.patients@.len(),
            patient_2 < self.patients@.len(),
        ensures
            r == self.travel_time_patient_spec(patient_1 as int, patient_2 as int),
            r <= MAX_QUANTITY,
    {
        self.travel_times[patient_1 + 1][patient_2 + 1]
    }

    pub fn travel_time_depot(&self, patient: usize) -> (r: u64)
        requires
            self.wf(),
            patient < self.patients@.len(),
        ensures
            r == self.travel_time_depot_spec(patient as int),
            r <= MAX_QUANTITY,
    {
        self.travel_times[0][patient + 1]
    }
}

/// One position of a genotype: either a client visit or a route boundary.
#[derive(Debug, Clone, Copy, PartialEq, Eq, Structural)]
pub enum SolutionField {
    Patient(usize),
    Separator(usize),
}

impl SolutionField {
    pub fn is_patient(&self) -> (r: bool)
        ensures
            r == (*self is Patient),
    {
        match self {
            SolutionField::Patient(_) => true,
            SolutionField::Separator(_) => false,
        }
    }

    pub fn is_separator(&self) -> (r: bool)
        ensures
            r == (*self is Separator),
    {
        match self {
            SolutionField::Patient(_) => false,
            SolutionField::Separator(_) => true,
        }
    }
}

/// A candidate schedule: every worker's route in order, each route
/// terminated by its separator token.
#[derive(Debug)]
pub struct ProblemSolution(pub Vec<SolutionField>);

impl Clone for ProblemSolution {
    fn clone(&self) -> (r: Self)
        ensures
            r.0@ == self.0@,
    {
        let mut tokens: Vec<SolutionField> = Vec::new();
        let mut i: usize = 0;
        while i < self.0.len()
            invariant
                i <= self.0@.len(),
                tokens@ == self.0@.take(i as int),
            decreases self.0@.len() - i,
        {
            tokens.push(self.0[i]);
            proof {
                assert(tokens@ =~= self.0@.take(i + 1));
            }
            i += 1;
        }
        proof {
            assert(tokens@ =~= self.0@);
        }
        ProblemSolution(tokens)
    }
}

/// How often a token occurs in a sequence.
pub open spec fn token_count(s: Seq<SolutionField>, t: SolutionField) -> nat {
    s.to_multiset().count(t)
}

/// The token names a client below `n`, or a route below `w`.
pub open spec fn token_in_range(t: SolutionField, n: int, w: int) -> bool {
    match t {
        SolutionField::Patient(id) => (id as int) < n,
        SolutionField::Separator(id) => (id as int) < w,
    }
}

/// Every client token of `s` names a client below `n`.
pub open spec fn patients_in_range(s: Seq<SolutionField>, n: int) -> bool {
    forall|k: int|
        0 <= k < s.len() ==> match #[trigger] s[k] {
            SolutionField::Patient(id) => (id as int) < n,
            SolutionField::Separator(_) => true,
        }
}

/// The client tokens of `s`, as a multiset.
pub open spec fn pat_ms(s: Seq<SolutionField>) -> Multiset<SolutionField> {
    s.to_multiset().filter(|t: SolutionField| t is Patient)
}

/// The number of separator tokens in `s`.
pub open spec fn sep_count(s: Seq<SolutionField>) -> nat {
    s.to_multiset().filter(|t: SolutionField| t is Separator).len()
}

/// The subsequence of separator tokens of `s`, labels and order kept.
pub open spec fn sep_seq(s: Seq<SolutionField>) -> Seq<SolutionField>
    decreases s.len(),
{
    if s.len() == 0 {
        Seq::empty()
    } else if s.last() is Separator {
        sep_seq(s.drop_last()).push(s.last())
    } else {
        sep_seq(s.drop_last())
    }
}

/// Appending a token extends the separator subsequence exactly when the
/// token is a separator.
pub proof fn lemma_sep_seq_push(s: Seq<SolutionField>, t: SolutionField)
    ensures
        sep_seq(s.push(t)) == if t is Separator {
            sep_seq(s).push(t)
        } else {
            sep_seq(s)
        },
{
    assert(s.push(t).drop_last() =~= s);
}

/// The separator subsequence distributes over concatenation.
pub proof fn lemma_sep_seq_concat(a: Seq<SolutionField>, b: Seq<SolutionField>)
    ensures
        sep_seq(a + b) == sep_seq(a) + sep_seq(b),
    decreases b.len(),
{
    if b.len() == 0 {
        assert(a + b =~= a);
        assert(sep_seq(a) + b =~= sep_seq(a));
        assert(sep_seq(a) + sep_seq(b) =~= sep_seq(a));
    } else {
        lemma_sep_seq_concat(a, b.drop_last());
        assert((a + b).drop_last() =~= a + b.drop_last());
        assert((a + b).last() == b.last());
        if b.last() is Separator {
            assert(sep_seq(a + b) == (sep_seq(a) + sep_seq(b.drop_last())).push(b.last()));
            assert((sep_seq(a) + sep_seq(b.drop_last())).push(b.last()) =~= sep_seq(a) + sep_seq(
                b.drop_last(),
            ).push(b.last()));
        }
    }
}

/// A sequence of client tokens only has no separators.
pub proof fn lemma_sep_seq_empty(s: Seq<SolutionField>)
    requires
        forall|k: int| 0 <= k < s.len() ==> (#[trigger] s[k]) is Patient,
    ensures
        sep_seq(s) == Seq::<SolutionField>::empty(),
    decreases s.len(),
{
    if s.len() > 0 {
        lemma_sep_seq_empty(s.drop_last());
    }
}

/// Removing a client token leaves the separator subsequence unchanged.
pub proof fn lemma_sep_seq_remove_client(s: Seq<SolutionField>, i: int)
    requires
        0 <= i < s.len(),
        s[i] is Patient,
    ensures
        sep_seq(s.remove(i)) == sep_seq(s),
    decreases s.len(),
{
    if i == s.len() - 1 {
        assert(s.remove(i) =~= s.drop_last());
    } else {
        assert(s.remove(i).drop_last() =~= s.drop_last().remove(i));
        assert(s.remove(i).last() == s.last());
        lemma_sep_seq_remove_client(s.drop_last(), i);
    }
}

/// Inserting a client token leaves the separator subsequence unchanged.
pub proof fn lemma_sep_seq_insert_client(s: Seq<SolutionField>, j: int, t: SolutionField)
    requires
        0 <= j <= s.len(),
        t is Patient,
    ensures
        sep_seq(s.insert(j, t)) == sep_seq(s),
    decreases s.len(),
{
    if j == s.len() {
        assert(s.insert(j, t) =~= s.push(t));
        lemma_sep_seq_push(s, t);
    } else {
        assert(s.insert(j, t).drop_last() =~= s.drop_last().insert(j, t));
        assert(s.insert(j, t).last() == s.last());
        lemma_sep_seq_insert_client(s.drop_last(), j, t);
    }
}

/// The multiset holding the client tokens 0 .. n-1, once each.
pub open spec fn patients_target(n: nat) -> Multiset<SolutionField>
    decreases n,
{
    if n == 0 {
        Multiset::empty()
    } else {
        patients_target((n - 1) as nat).insert(SolutionField::Patient((n - 1) as usize))
    }
}

/// The multiset holding the separator tokens 0 .. w-1, once each.
pub open spec fn seps_target(w: nat) -> Multiset<SolutionField>
    decreases w,
{
    if w == 0 {
        Multiset::empty()
    } else {
        seps_target((w - 1) as nat).insert(SolutionField::Separator((w - 1) as usize))
    }
}

/// The structural invariant every operator must maintain: each of the `n`
/// clients appears exactly once, each of the `w` separators appears exactly
/// once, and nothing else appears.
pub open spec fn valid_solution(s: Seq<SolutionField>, n: int, w: int) -> bool {
    &&& 0 <= n && 0 <= w
    &&& s.len() == n + w
    &&& forall|id: usize|
        (id as int) < n ==> token_count(s, SolutionField::Patient(id)) == 1
    &&& forall|id: usize|
        (id as int) < w ==> token_count(s, SolutionField::Separator(id)) == 1
    &&& forall|k: int| 0 <= k < s.len() ==> token_in_range(#[trigger] s[k], n, w)
}

/// The part of the invariant that every operator preserves even on inputs
/// whose separator labels have degenerated: the client tokens are exactly
/// 0 .. n-1 once each, and there are exactly `w` separator tokens.
pub open spec fn semi_valid_solution(s: Seq<SolutionField>, n: int, w: int) -> bool {
    &&& 0 <= n && 0 <= w
    &&& s.len() == n + w
    &&& pat_ms(s) == patients_target(n as nat)
    &&& sep_count(s) == w
}

/// Every solution of the population is valid for `n` clients, `w` workers.
pub open spec fn all_valid(ps: Seq<ProblemSolution>, n: int, w: int) -> bool {
    forall|k: int| 0 <= k < ps.len() ==> valid_solution(#[trigger] ps[k].0@, n, w)
}

/// Every solution of the population is semi-valid for `n` clients, `w`
/// workers.
pub open spec fn all_semi_valid(ps: Seq<ProblemSolution>, n: int, w: int) -> bool {
    forall|k: int| 0 <= k < ps.len() ==> semi_valid_solution(#[trigger] ps[k].0@, n, w)
}

/// Appending one token grows the client multiset, the separator count and
/// each token count in the evident way.
pub proof fn lemma_push_token(s: Seq<SolutionField>, t: SolutionField)
    ensures
        pat_ms(s.push(t)) == if t is Patient {
            pat_ms(s).insert(t)
        } else {
            pat_ms(s)
        },
        sep_count(s.push(t)) == sep_count(s) + if t is Separator {
            1int
        } else {
            0int
        },
        forall|x: SolutionField|
            token_count(s.push(t), x) == token_count(s, x) + if x == t {
                1int
            } else {
                0int
            },
{
    assert(s.push(t).to_multiset() == s.to_multiset().insert(t));
    if t is Patient {
        assert(pat_ms(s.push(t)) =~= pat_ms(s).insert(t));
        assert(s.push(t).to_multiset().filter(|x: SolutionField| x is Separator)
            =~= s.to_multiset().filter(|x: SolutionField| x is Separator));
    } else {
        assert(pat_ms(s.push(t)) =~= pat_ms(s));
        assert(s.push(t).to_multiset().filter(|x: SolutionField| x is Separator)
            =~= s.to_multiset().filter(|x: SolutionField| x is Separator).insert(t));
    }
}

/// A sequence splits into its client tokens and its separator tokens.
pub proof fn lemma_len_partition(s: Seq<SolutionField>)
    ensures
        s.len() == pat_ms(s).len() + sep_count(s),
    decreases s.len(),
{
    if s.len() == 0 {
        assert(s.to_multiset() =~= Multiset::<SolutionField>::empty());
        assert(pat_ms(s) =~= Multiset::<SolutionField>::empty());
        assert(s.to_multiset().filter(|t: SolutionField| t is Separator)
            =~= Multiset::<SolutionField>::empty());
    } else {
        let s0 = s.drop_last();
        lemma_len_partition(s0);
        assert(s =~= s0.push(s.last()));
        lemma_push_token(s0, s.last());
    }
}

/// What the client target multiset counts and how large it is.
pub proof fn lemma_patients_target_props(n: nat)
    requires
        n <= usize::MAX,
    ensures
        forall|t: SolutionField|
            #[trigger] patients_target(n).count(t) == match t {
                SolutionField::Patient(id) => if (id as nat) < n {
                    1nat
                } else {
                    0nat
                },
                SolutionField::Separator(_) => 0nat,
            },
        patients_target(n).len() == n,
    decreases n,
{
    if n > 0 {
        lemma_patients_target_props((n - 1) as nat);
    }
}

/// What the separator target multiset counts and how large it is.
pub proof fn lemma_seps_target_props(w: nat)
    requires
        w <= usize::MAX,
    ensures
        forall|t: SolutionField|
            #[trigger] seps_target(w).count(t) == match t {
                SolutionField::Separator(id) => if (id as nat) < w {
                    1nat
                } else {
                    0nat
                },
                SolutionField::Patient(_) => 0nat,
            },
        seps_target(w).len() == w,
    decreases w,
{
    if w > 0 {
        lemma_seps_target_props((w - 1) as nat);
    }
}

/// Exact client counts pin the client multiset to its target.
pub proof fn lemma_counts_give_patients_target(s: Seq<SolutionField>, n: int)
    requires
        0 <= n <= usize::MAX,
        forall|id: usize|
            (id as int) < n ==> token_count(s, SolutionField::Patient(id)) == 1,
        forall|id: usize|
            (id as int) >= n ==> token_count(s, SolutionField::Patient(id)) == 0,
    ensures
        pat_ms(s) == patients_target(n as nat),
{
    lemma_patients_target_props(n as nat);
    assert forall|t: SolutionField| #![trigger patients_target(n as nat).count(t)]
        pat_ms(s).count(t) == patients_target(n as nat).count(t) by {
        match t {
            SolutionField::Patient(id) => {
                if (id as int) < n {
                    assert(token_count(s, SolutionField::Patient(id)) == 1);
                } else {
                    assert(token_count(s, SolutionField::Patient(id)) == 0);
                }
            },
            SolutionField::Separator(_) => {},
        }
    }
    assert(pat_ms(s) =~= patients_target(n as nat));
}

/// A fully valid solution is in particular semi-valid.
pub proof fn lemma_valid_implies_semi(s: Seq<SolutionField>, n: int, w: int)
    requires
        valid_solution(s, n, w),
        n <= usize::MAX,
        w <= usize::MAX,
    ensures
        semi_valid_solution(s, n, w),
{
    assert forall|id: usize| (id as int) >= n implies token_count(
        s,
        SolutionField::Patient(id),
    ) == 0 by {
        if token_count(s, SolutionField::Patient(id)) > 0 {
            assert(s.contains(SolutionField::Patient(id)));
            let k = choose|k: int| 0 <= k < s.len() && s[k] == SolutionField::Patient(id);
            assert(token_in_range(s[k], n, w));
        }
    }
    lemma_counts_give_patients_target(s, n);
    // The separator tokens form exactly the separator target multiset.
    lemma_seps_target_props(w as nat);
    assert forall|t: SolutionField| #![trigger seps_target(w as nat).count(t)]
        s.to_multiset().filter(|x: SolutionField| x is Separator).count(t) == seps_target(
            w as nat,
        ).count(t) by {
        match t {
            SolutionField::Separator(id) => {
                if (id as int) >= w {
                    if token_count(s, t) > 0 {
                        assert(s.contains(t));
                        let k = choose|k: int| 0 <= k < s.len() && s[k] == t;
                        assert(token_in_range(s[k], n, w));
                    }
                    assert(token_count(s, SolutionField::Separator(id)) == 0);
                } else {
                    assert(token_count(s, SolutionField::Separator(id)) == 1);
                }
            },
            SolutionField::Patient(_) => {},
        }
    }
    assert(s.to_multiset().filter(|x: SolutionField| x is Separator) =~= seps_target(w as nat));
}

/// Rearranging tokens preserves full validity.
pub proof fn lemma_ms_eq_preserves_valid(
    s: Seq<SolutionField>,
    t: Seq<SolutionField>,
    n: int,
    w: int,
)
    requires
        valid_solution(s, n, w),
        s.to_multiset() == t.to_multiset(),
    ensures
        valid_solution(t, n, w),
{
    assert(t.len() == t.to_multiset().len());
    assert(s.len() == s.to_multiset().len());
    assert forall|id: usize| (id as int) < n implies token_count(
        t,
        SolutionField::Patient(id),
    ) == 1 by {
        assert(token_count(s, SolutionField::Patient(id)) == 1);
    }
    assert forall|id: usize| (id as int) < w implies token_count(
        t,
        SolutionField::Separator(id),
    ) == 1 by {
        assert(token_count(s, SolutionField::Separator(id)) == 1);
    }
    assert forall|k: int| 0 <= k < t.len() implies token_in_range(#[trigger] t[k], n, w) by {
        assert(t.contains(t[k]));
        assert(t.to_multiset().count(t[k]) > 0);
        assert(s.to_multiset().count(t[k]) > 0);
        assert(s.contains(t[k]));
        let j = choose|j: int| 0 <= j < s.len() && s[j] == t[k];
        assert(token_in_range(s[j], n, w));
    }
}

/// Rearranging tokens preserves semi-validity.
pub proof fn lemma_ms_eq_preserves_semi(
    s: Seq<SolutionField>,
    t: Seq<SolutionField>,
    n: int,
    w: int,
)
    requires
        semi_valid_solution(s, n, w),
        s.to_multiset() == t.to_multiset(),
    ensures
        semi_valid_solution(t, n, w),
{
    assert(t.len() == t.to_multiset().len());
    assert(s.len() == s.to_multiset().len());
}

/// A semi-valid solution has in-range client tokens and length `n + w`.
pub proof fn lemma_semi_patients_in_range(s: Seq<SolutionField>, n: int, w: int)
    requires
        semi_valid_solution(s, n, w),
        n <= usize::MAX,
    ensures
        patients_in_range(s, n),
        s.len() == n + w,
{
    lemma_patients_target_props(n as nat);
    assert forall|k: int| 0 <= k < s.len() implies match #[trigger] s[k] {
        SolutionField::Patient(id) => (id as int) < n,
        SolutionField::Separator(_) => true,
    } by {
        match s[k] {
            SolutionField::Patient(id) => {
                assert(s.contains(s[k]));
                assert(s.to_multiset().count(s[k]) > 0);
                assert(pat_ms(s).count(s[k]) == s.to_multiset().count(s[k]));
                assert(patients_target(n as nat).count(s[k]) > 0);
            },
            SolutionField::Separator(_) => {},
        }
    }
}

/// Rearranging tokens keeps every client token in range.
pub proof fn lemma_ms_eq_preserves_in_range(s: Seq<SolutionField>, t: Seq<SolutionField>, n: int)
    requires
        patients_in_range(s, n),
        s.to_multiset() == t.to_multiset(),
    ensures
        patients_in_range(t, n),
{
    assert forall|k: int| 0 <= k < t.len() implies match #[trigger] t[k] {
        SolutionField::Patient(id) => (id as int) < n,
        SolutionField::Separator(_) => true,
    } by {
        match t[k] {
            SolutionField::Patient(_) => {
                assert(t.contains(t[k]));
                assert(t.to_multiset().count(t[k]) > 0);
                assert(s.to_multiset().count(t[k]) > 0);
                assert(s.contains(t[k]));
                let j = choose|j: int| 0 <= j < s.len() && s[j] == t[k];
                assert(match s[j] {
                    SolutionField::Patient(id) => (id as int) < n,
                    SolutionField::Separator(_) => true,
                });
            },
            SolutionField::Separator(_) => {},
        }
    }
}

/// Dropping a token keeps every client token in range.
pub proof fn lemma_remove_preserves_in_range(s: Seq<SolutionField>, i: int, n: int)
    requires
        patients_in_range(s, n),
        0 <= i < s.len(),
    ensures
        patients_in_range(s.remove(i), n),
{
    assert forall|k: int| 0 <= k < s.remove(i).len() implies match #[trigger] s.remove(i)[k] {
        SolutionField::Patient(id) => (id as int) < n,
        SolutionField::Separator(_) => true,
    } by {
        if k < i {
            assert(s.remove(i)[k] == s[k]);
        } else {
            assert(s.remove(i)[k] == s[k + 1]);
        }
    }
}

/// Swapping two positions leaves the token multiset unchanged.
pub proof fn lemma_swap_ms<T>(s: Seq<T>, i: int, j: int)
    requires
        0 <= i < s.len(),
        0 <= j < s.len(),
    ensures
        s.update(i, s[j]).update(j, s[i]).to_multiset() == s.to_multiset(),
{
    let s1 = s.update(i, s[j]);
    if i == j {
        assert(s1.update(j, s[i]) =~= s);
    } else {
        assert(s1[j] == s[j]);
        assert(s1.to_multiset() == s.to_multiset().insert(s[j]).remove(s[i]));
        assert(s1.update(j, s[i]).to_multiset() == s1.to_multiset().insert(s[i]).remove(s1[j]));
        assert(s1.update(j, s[i]).to_multiset() =~= s.to_multiset());
    }
}

/// Removing a token and re-inserting it elsewhere leaves the token
/// multiset unchanged.
pub proof fn lemma_relocate_ms<T>(s: Seq<T>, i: int, j: int)
    requires
        0 <= i < s.len(),
        0 <= j <= s.len() - 1,
    ensures
        s.remove(i).insert(j, s[i]).to_multiset() == s.to_multiset(),
{
    assert(s.remove(i).to_multiset() == s.to_multiset().remove(s[i]));
    assert(s.remove(i).insert(j, s[i]).to_multiset() == s.remove(i).to_multiset().insert(s[i]));
    assert(s.to_multiset().remove(s[i]).insert(s[i]) =~= s.to_multiset());
}

/// The client multiset spread over the first `i` routes of a route list.
pub open spec fn routes_ms(routes: Seq<Vec<usize>>, i: int) -> Multiset<usize>
    decreases i,
{
    if i <= 0 {
        Multiset::empty()
    } else {
        routes_ms(routes, i - 1).add(routes[i - 1]@.to_multiset())
    }
}

/// Route lists that agree on their first `i` routes spread the same
/// clients over them.
pub proof fn lemma_routes_ms_prefix_agree(a: Seq<Vec<usize>>, b: Seq<Vec<usize>>, i: int)
    requires
        forall|j: int| 0 <= j < i ==> (#[trigger] a[j])@ == b[j]@,
    ensures
        routes_ms(a, i) == routes_ms(b, i),
    decreases i,
{
    if i > 0 {
        lemma_routes_ms_prefix_agree(a, b, i - 1);
    }
}

/// Appending one client to one route inserts exactly that client into the
/// spread multiset.
pub proof fn lemma_routes_ms_update_push(
    routes: Seq<Vec<usize>>,
    updated: Seq<Vec<usize>>,
    i: int,
    b: int,
    p: usize,
)
    requires
        0 <= b < routes.len(),
        updated.len() == routes.len(),
        updated[b]@ == routes[b]@.push(p),
        forall|j: int| 0 <= j < routes.len() && j != b ==> (#[trigger] updated[j])@ == routes[j]@,
        i <= routes.len(),
    ensures
        b < i ==> routes_ms(updated, i) == routes_ms(routes, i).insert(p),
        i <= b ==> routes_ms(updated, i) == routes_ms(routes, i),
    decreases i,
{
    if i > 0 {
        lemma_routes_ms_update_push(routes, updated, i - 1, b, p);
        if b == i - 1 {
            assert(updated[i - 1]@.to_multiset() == routes[i - 1]@.to_multiset().insert(p));
            assert(routes_ms(updated, i) =~= routes_ms(routes, i).insert(p));
        } else if b < i - 1 {
            assert(routes_ms(updated, i) =~= routes_ms(routes, i).insert(p));
        }
    }
}

/// One route's clients as genotype tokens, in visiting order.
pub open spec fn route_tokens(route: Seq<usize>) -> Seq<SolutionField> {
    Seq::new(route.len(), |k: int| SolutionField::Patient(route[k]))
}

/// The serialized genotype of the first `i` routes: each route's clients
/// in order, each route closed by its separator, in worker order.
pub open spec fn routes_seq(routes: Seq<Vec<usize>>, i: int) -> Seq<SolutionField>
    decreases i,
{
    if i <= 0 {
        Seq::empty()
    } else {
        routes_seq(routes, i - 1) + route_tokens(routes[i - 1]@).push(
            SolutionField::Separator((i - 1) as usize),
        )
    }
}

/// The separator subsequence of a serialized route list is the separators
/// 0 .. i-1 in increasing worker order.
pub proof fn lemma_routes_seq_sep_order(routes: Seq<Vec<usize>>, i: int)
    requires
        0 <= i <= usize::MAX,
    ensures
        sep_seq(routes_seq(routes, i)) == Seq::new(
            i as nat,
            |k: int| SolutionField::Separator(k as usize),
        ),
    decreases i,
{
    if i == 0 {
        assert(sep_seq(routes_seq(routes, 0)) =~= Seq::new(
            0nat,
            |k: int| SolutionField::Separator(k as usize),
        ));
    } else {
        lemma_routes_seq_sep_order(routes, i - 1);
        let tail = route_tokens(routes[i - 1]@).push(SolutionField::Separator((i - 1) as usize));
        lemma_sep_seq_concat(routes_seq(routes, i - 1), tail);
        lemma_sep_seq_empty(route_tokens(routes[i - 1]@));
        lemma_sep_seq_push(route_tokens(routes[i - 1]@), SolutionField::Separator((i - 1) as usize));
        assert(sep_seq(tail) =~= seq![SolutionField::Separator((i - 1) as usize)]);
        assert(sep_seq(routes_seq(routes, i)) =~= Seq::new(
            i as nat,
            |k: int| SolutionField::Separator(k as usize),
        ));
    }
}

/// A route-list phenotype: one client list per worker, used only while a
/// fresh individual is being laid out.
#[derive(Debug)]
pub struct Phenotype(pub Vec<Vec<usize>>);

impl Phenotype {
    /// Serializes the route list into a genotype: every route's clients in
    /// order, each route closed by its separator, in worker order.
    pub fn into_solution(self) -> (r: ProblemSolution)
        ensures
            r.0@ == routes_seq(self.0@, self.0@.len() as int),
            forall|id: usize|
                #![trigger token_count(r.0@, SolutionField::Patient(id))]
                token_count(r.0@, SolutionField::Patient(id)) == routes_ms(
                    self.0@,
                    self.0@.len() as int,
                ).count(id),
            forall|j: usize|
                #![trigger token_count(r.0@, SolutionField::Separator(j))]
                token_count(r.0@, SolutionField::Separator(j)) == if (j as int)
                    < self.0@.len() {
                    1nat
                } else {
                    0nat
                },
            r.0@.len() == routes_ms(self.0@, self.0@.len() as int).len() + self.0@.len(),
            forall|k: int|
                0 <= k < r.0@.len() ==> match #[trigger] r.0@[k] {
                    SolutionField::Patient(id) => routes_ms(
                        self.0@,
                        self.0@.len() as int,
                    ).count(id) > 0,
                    SolutionField::Separator(j) => (j as int) < self.0@.len(),
                },
    {
        let ghost routes = self.0@;
        let w = self.0.len();
        let mut solution: Vec<SolutionField> = Vec::new();
        let mut i: usize = 0;
        while i < w
            invariant
                w == routes.len(),
                self.0@ == routes,
                i <= w,
                solution@ == routes_seq(routes, i as int),
                forall|id: usize|
                    #![trigger token_count(solution@, SolutionField::Patient(id))]
                    token_count(solution@, SolutionField::Patient(id)) == routes_ms(
                        routes,
                        i as int,
                    ).count(id),
                forall|j: usize|
                    #![trigger token_count(solution@, SolutionField::Separator(j))]
                    token_count(solution@, SolutionField::Separator(j)) == if (j as int)
                        < i {
                        1nat
                    } else {
                        0nat
                    },
                solution@.len() == routes_ms(routes, i as int).len() + i,
            decreases w - i,
        {
            let route = &self.0[i];
            let ghost rq = route@;
            let mut h: usize = 0;
            proof {
                assert(rq.take(0) =~= Seq::<usize>::empty());
                assert(Seq::<usize>::empty().to_multiset() =~= Multiset::<usize>::empty());
                assert(route_tokens(rq.take(0)) =~= Seq::<SolutionField>::empty());
                assert(solution@ =~= routes_seq(routes, i as int) + route_tokens(rq.take(0)));
            }
            while h < route.len()
                invariant
                    rq == route@,
                    rq == routes[i as int]@,
                    i < routes.len(),
                    h <= rq.len(),
                    solution@ == routes_seq(routes, i as int) + route_tokens(rq.take(h as int)),
                    forall|id: usize|
                        #![trigger token_count(solution@, SolutionField::Patient(id))]
                        token_count(solution@, SolutionField::Patient(id)) == routes_ms(
                            routes,
                            i as int,
                        ).count(id) + rq.take(h as int).to_multiset().count(id),
                    forall|j: usize|
                        #![trigger token_count(solution@, SolutionField::Separator(j))]
                        token_count(solution@, SolutionField::Separator(j)) == if (j as int)
                            < i {
                            1nat
                        } else {
                            0nat
                        },
                    solution@.len() == routes_ms(routes, i as int).len() + rq.take(
                        h as int,
                    ).to_multiset().len() + i,
                decreases rq.len() - h,
            {
                let ghost before = solution@;
                solution.push(SolutionField::Patient(route[h]));
                proof {
                    lemma_push_token(before, SolutionField::Patient(rq[h as int]));
                    assert(rq.take(h as int + 1) =~= rq.take(h as int).push(rq[h as int]));
                    assert(rq.take(h as int + 1).to_multiset() == rq.take(
                        h as int,
                    ).to_multiset().insert(rq[h as int]));
                    assert(route_tokens(rq.take(h as int + 1)) =~= route_tokens(
                        rq.take(h as int),
                    ).push(SolutionField::Patient(rq[h as int])));
                    assert(solution@ =~= routes_seq(routes, i as int) + route_tokens(
                        rq.take(h as int + 1),
                    ));
                }
                h += 1;
            }
            let ghost before = solution@;
            solution.push(SolutionField::Separator(i));
            proof {
                assert(rq.take(rq.len() as int) =~= rq);
                lemma_push_token(before, SolutionField::Separator(i));
                assert(routes_ms(routes, i as int + 1) == routes_ms(routes, i as int).add(
                    rq.to_multiset(),
                ));
                assert(solution@ =~= routes_seq(routes, i as int) + route_tokens(rq).push(
                    SolutionField::Separator(i),
                ));
                assert(solution@ =~= routes_seq(routes, i as int + 1));
            }
            i += 1;
        }
        let r = ProblemSolution(solution);
        proof {
            assert forall|k: int| 0 <= k < r.0@.len() implies match #[trigger] r.0@[k] {
                SolutionField::Patient(id) => routes_ms(routes, w as int).count(id) > 0,
                SolutionField::Separator(j) => (j as int) < w,
            } by {
                assert(r.0@.contains(r.0@[k]));
                match r.0@[k] {
                    SolutionField::Patient(id) => {
                        assert(token_count(r.0@, SolutionField::Patient(id)) > 0);
                    },
                    SolutionField::Separator(j) => {
                        assert(token_count(r.0@, SolutionField::Separator(j)) > 0);
                    },
                }
            }
        }
        r
    }
}

/// Counting tokens splits across a cut of the sequence.
pub proof fn lemma_take_split(s: Seq<SolutionField>, c: int)
    requires
        0 <= c <= s.len(),
    ensures
        forall|t: SolutionField|
            #![trigger token_count(s.take(c), t)]
            token_count(s.take(c), t) + token_count(s.skip(c), t) == token_count(s, t),
        sep_count(s.take(c)) + sep_count(s.skip(c)) == sep_count(s),
{
    assert(s =~= s.take(c) + s.skip(c));
    vstd::seq_lib::lemma_multiset_commutative(s.take(c), s.skip(c));
    assert(s.to_multiset().filter(|x: SolutionField| x is Separator) =~= s.take(
        c,
    ).to_multiset().filter(|x: SolutionField| x is Separator).add(
        s.skip(c).to_multiset().filter(|x: SolutionField| x is Separator),
    ));
}

/// In a semi-valid solution each client below `n` occurs once and no
/// other client occurs.
pub proof fn lemma_semi_patient_counts(s: Seq<SolutionField>, n: int, w: int)
    requires
        semi_valid_solution(s, n, w),
        n <= usize::MAX,
    ensures
        forall|id: usize|
            #![trigger token_count(s, SolutionField::Patient(id))]
            token_count(s, SolutionField::Patient(id)) == if (id as int) < n {
                1nat
            } else {
                0nat
            },
{
    lemma_patients_target_props(n as nat);
    assert forall|id: usize|
        token_count(s, SolutionField::Patient(id)) == if (id as int) < n {
            1nat
        } else {
            0nat
        } by {
        assert(pat_ms(s).count(SolutionField::Patient(id)) == s.to_multiset().count(
            SolutionField::Patient(id),
        ));
        assert(patients_target(n as nat).count(SolutionField::Patient(id)) == if (id as int)
            < n {
            1nat
        } else {
            0nat
        });
    }
}

/// A token sequence is semi-valid for at most one client and worker count.
pub proof fn lemma_semi_valid_unique(s: Seq<SolutionField>, n: int, w: int, n2: int, w2: int)
    requires
        semi_valid_solution(s, n, w),
        semi_valid_solution(s, n2, w2),
        n <= usize::MAX,
        n2 <= usize::MAX,
    ensures
        n == n2,
        w == w2,
{
    lemma_patients_target_props(n as nat);
    lemma_patients_target_props(n2 as nat);
    assert(patients_target(n as nat).len() == patients_target(n2 as nat).len());
}

} // verus!
