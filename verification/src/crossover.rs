use vstd::prelude::*;

use crate::problem::{
    all_semi_valid, all_valid, lemma_ms_eq_preserves_semi, lemma_ms_eq_preserves_valid,
    lemma_push_token, lemma_semi_patient_counts, lemma_semi_valid_unique, lemma_take_split,
    sep_count, semi_valid_solution, token_count, valid_solution, ProblemSolution, SolutionField,
};
use crate::randomness::RandomSource;

verus! {

use vstd::multiset::Multiset;

broadcast use {
    vstd::seq_lib::group_to_multiset_ensures,
    vstd::multiset::group_multiset_axioms,
    vstd::multiset::group_multiset_properties,
};

/// The recombination slot: maps disjoint consecutive parent pairs to
/// children, preserving the client multiset and the separator count.
pub trait ParentCrossoverSystem: Sized {
    /// The recombination policy of this variant.
    spec fn ens(&self, parents: Seq<ProblemSolution>, r: Seq<ProblemSolution>) -> bool;

    fn cross_over(&self, rng: &mut RandomSource, parents: &Vec<ProblemSolution>) -> (r: Vec<
        ProblemSolution,
    >)
        requires
            parents@.len() >= 2,
            parents@.len() % 2 == 0,
            exists|n: int, w: int|
                #![trigger all_semi_valid(parents@, n, w)]
                all_semi_valid(parents@, n, w) && n + w >= 3,
        ensures
            r@.len() == parents@.len(),
            forall|n: int, w: int|
                #![trigger all_semi_valid(parents@, n, w)]
                all_semi_valid(parents@, n, w) ==> all_semi_valid(r@, n, w),
            self.ens(parents@, r@),
    ;
}

/// Whether some position of `v` holds exactly the token `t`.
fn contains_token(v: &Vec<SolutionField>, t: SolutionField) -> (r: bool)
    ensures
        r == v@.contains(t),
{
    let mut i: usize = 0;
    while i < v.len()
        invariant
            i <= v@.len(),
            forall|k: int| 0 <= k < i ==> v@[k] != t,
        decreases v@.len() - i,
    {
        if v[i] == t {
            return true;
        }
        i += 1;
    }
    false
}

/// The rest of an order-preserving fill: scanning `other` from position
/// `j` onward onto the partial child `acc`, appending each client token
/// not yet present and each separator once `enc`, the separators passed
/// over so far, has reached `k1`, the separators copied from the prefix.
pub open spec fn order_fill_rec(
    other: Seq<SolutionField>,
    j: int,
    acc: Seq<SolutionField>,
    k1: int,
    enc: int,
) -> Seq<SolutionField>
    decreases other.len() - j,
{
    if j < 0 || j >= other.len() {
        acc
    } else {
        match other[j] {
            SolutionField::Patient(id) => if acc.contains(SolutionField::Patient(id)) {
                order_fill_rec(other, j + 1, acc, k1, enc)
            } else {
                order_fill_rec(other, j + 1, acc.push(SolutionField::Patient(id)), k1, enc)
            },
            SolutionField::Separator(sid) => order_fill_rec(
                other,
                j + 1,
                if enc >= k1 {
                    acc.push(SolutionField::Separator(sid))
                } else {
                    acc
                },
                k1,
                enc + 1,
            ),
        }
    }
}

/// The order-preserving child of `base` and `other` at cut `c`: `base`'s
/// first `c` tokens verbatim, then `other` scanned left to right,
/// appending each client not already present and each separator once the
/// count of separators copied from the prefix has been passed over.
pub open spec fn order_fill_spec(
    base: Seq<SolutionField>,
    other: Seq<SolutionField>,
    c: int,
) -> Seq<SolutionField> {
    order_fill_rec(other, 0, base.take(c), sep_count(base.take(c)) as int, 0)
}

/// One order-preserving child: `base`'s prefix of length `c` verbatim,
/// then `other` scanned left to right, appending each client not yet
/// present and each separator once the separators already copied from the
/// prefix have been passed over.
fn order_fill(
    base: &ProblemSolution,
    other: &ProblemSolution,
    c: usize,
    Ghost(n): Ghost<int>,
    Ghost(w): Ghost<int>,
) -> (child: ProblemSolution)
    requires
        semi_valid_solution(base.0@, n, w),
        semi_valid_solution(other.0@, n, w),
        1 <= c,
        (c as int) < base.0@.len(),
    ensures
        child.0@ == order_fill_spec(base.0@, other.0@, c as int),
        semi_valid_solution(child.0@, n, w),
        child.0@.take(c as int) == base.0@.take(c as int),
{
    proof {
        assert(base.0@.len() == base.0.len());
        assert(other.0@.len() == other.0.len());
        lemma_semi_patient_counts(base.0@, n, w);
        lemma_semi_patient_counts(other.0@, n, w);
    }
    let mut child: Vec<SolutionField> = Vec::new();
    let mut sep_prefix: usize = 0;
    let mut i: usize = 0;
    proof {
        assert(base.0@.take(0) =~= Seq::<SolutionField>::empty());
        assert(child@ =~= base.0@.take(0));
        assert(Seq::<SolutionField>::empty().to_multiset() =~= Multiset::<
            SolutionField,
        >::empty());
        assert(sep_count(child@) == 0) by {
            assert(child@.to_multiset().filter(|x: SolutionField| x is Separator) =~= Multiset::<
                SolutionField,
            >::empty());
        }
    }
    while i < c
        invariant
            (c as int) < base.0@.len(),
            i <= c,
            child@ == base.0@.take(i as int),
            sep_prefix <= i,
            sep_prefix == sep_count(child@),
        decreases c - i,
    {
        let ghost before = child@;
        let t = base.0[i];
        child.push(t);
        proof {
            lemma_push_token(before, t);
            assert(child@ =~= base.0@.take(i as int + 1));
        }
        if t.is_separator() {
            sep_prefix += 1;
        }
        i += 1;
    }
    let ghost pre = child@;
    proof {
        lemma_take_split(base.0@, c as int);
        assert(sep_prefix <= w) by {
            assert(sep_count(pre) + sep_count(base.0@.skip(c as int)) == sep_count(base.0@));
        }
    }

    let mut encountered_seps: usize = 0;
    let mut j: usize = 0;
    proof {
        assert(other.0@.take(0) =~= Seq::<SolutionField>::empty());
        assert(Seq::<SolutionField>::empty().to_multiset() =~= Multiset::<
            SolutionField,
        >::empty());
        assert(sep_count(other.0@.take(0)) == 0) by {
            assert(other.0@.take(0).to_multiset().filter(|x: SolutionField| x is Separator)
                =~= Multiset::<SolutionField>::empty());
        }
        assert(forall|t: SolutionField|
            token_count(other.0@.take(0), t) == 0);
        assert(order_fill_rec(other.0@, 0, pre, sep_prefix as int, 0) == order_fill_spec(
            base.0@,
            other.0@,
            c as int,
        ));
    }
    while j < other.0.len()
        invariant
            semi_valid_solution(base.0@, n, w),
            semi_valid_solution(other.0@, n, w),
            forall|id: usize|
                #![trigger token_count(base.0@, SolutionField::Patient(id))]
                token_count(base.0@, SolutionField::Patient(id)) == if (id as int) < n {
                    1nat
                } else {
                    0nat
                },
            forall|id: usize|
                #![trigger token_count(other.0@, SolutionField::Patient(id))]
                token_count(other.0@, SolutionField::Patient(id)) == if (id as int) < n {
                    1nat
                } else {
                    0nat
                },
            forall|t: SolutionField|
                #![trigger token_count(pre, t)]
                token_count(pre, t) + token_count(base.0@.skip(c as int), t) == token_count(
                    base.0@,
                    t,
                ),
            pre == base.0@.take(c as int),
            1 <= c < base.0@.len(),
            sep_prefix == sep_count(pre),
            sep_prefix <= w,
            j <= other.0@.len(),
            child@.len() >= c,
            child@.take(c as int) == pre,
            encountered_seps == sep_count(other.0@.take(j as int)),
            sep_count(child@) == sep_prefix + if encountered_seps >= sep_prefix {
                (encountered_seps - sep_prefix) as int
            } else {
                0int
            },
            forall|id: usize|
                #![trigger token_count(child@, SolutionField::Patient(id))]
                token_count(child@, SolutionField::Patient(id)) == if token_count(
                    pre,
                    SolutionField::Patient(id),
                ) == 1 {
                    1nat
                } else {
                    token_count(other.0@.take(j as int), SolutionField::Patient(id))
                },
            order_fill_rec(
                other.0@,
                j as int,
                child@,
                sep_prefix as int,
                encountered_seps as int,
            ) == order_fill_spec(base.0@, other.0@, c as int),
        decreases other.0@.len() - j,
    {
        let token = other.0[j];
        let ghost before = child@;
        proof {
            assert(other.0@.take(j as int + 1) =~= other.0@.take(j as int).push(
                other.0@[j as int],
            ));
            lemma_push_token(other.0@.take(j as int), other.0@[j as int]);
            lemma_take_split(other.0@, j as int + 1);
        }
        let ghost enc0 = encountered_seps as int;
        match token {
            SolutionField::Patient(id) => {
                if !contains_token(&child, SolutionField::Patient(id)) {
                    child.push(SolutionField::Patient(id));
                    proof {
                        lemma_push_token(before, SolutionField::Patient(id));
                        assert(child@.take(c as int) =~= before.take(c as int));
                        assert(token_count(before, SolutionField::Patient(id)) == 0);
                        assert(token_count(pre, SolutionField::Patient(id)) != 1);
                        assert(order_fill_rec(other.0@, j as int, before, sep_prefix as int, enc0)
                            == order_fill_rec(
                            other.0@,
                            j as int + 1,
                            before.push(SolutionField::Patient(id)),
                            sep_prefix as int,
                            enc0,
                        ));
                    }
                } else {
                    proof {
                        assert(before.contains(SolutionField::Patient(id)));
                        assert(order_fill_rec(other.0@, j as int, before, sep_prefix as int, enc0)
                            == order_fill_rec(
                            other.0@,
                            j as int + 1,
                            before,
                            sep_prefix as int,
                            enc0,
                        ));
                        assert(token_count(before, SolutionField::Patient(id)) > 0);
                        if token_count(pre, SolutionField::Patient(id)) != 1 {
                            assert(token_count(
                                other.0@.take(j as int),
                                SolutionField::Patient(id),
                            ) > 0);
                            assert(token_count(
                                other.0@.take(j as int + 1),
                                SolutionField::Patient(id),
                            ) >= 2);
                            assert(token_count(other.0@, SolutionField::Patient(id)) >= 2);
                            assert(false);
                        }
                    }
                }
            },
            SolutionField::Separator(sid) => {
                if encountered_seps >= sep_prefix {
                    child.push(SolutionField::Separator(sid));
                    proof {
                        lemma_push_token(before, SolutionField::Separator(sid));
                        assert(child@.take(c as int) =~= before.take(c as int));
                    }
                }
                encountered_seps += 1;
                proof {
                    assert(order_fill_rec(other.0@, j as int, before, sep_prefix as int, enc0)
                        == order_fill_rec(
                        other.0@,
                        j as int + 1,
                        if enc0 >= sep_prefix as int {
                            before.push(SolutionField::Separator(sid))
                        } else {
                            before
                        },
                        sep_prefix as int,
                        enc0 + 1,
                    ));
                }
            },
        }
        j += 1;
    }
    proof {
        assert(order_fill_rec(
            other.0@,
            other.0@.len() as int,
            child@,
            sep_prefix as int,
            encountered_seps as int,
        ) == child@);
        assert(other.0@.take(other.0@.len() as int) =~= other.0@);
        assert(encountered_seps == sep_count(other.0@));
        assert(sep_count(other.0@) == w);
        assert(sep_count(child@) == w);
        assert forall|id: usize|
            #![trigger token_count(child@, SolutionField::Patient(id))]
            token_count(child@, SolutionField::Patient(id)) == if (id as int) < n {
                1nat
            } else {
                0nat
            } by {
            if (id as int) < n {
                if token_count(pre, SolutionField::Patient(id)) != 1 {
                    assert(token_count(child@, SolutionField::Patient(id)) == token_count(
                        other.0@,
                        SolutionField::Patient(id),
                    ));
                }
            } else {
                assert(token_count(base.0@, SolutionField::Patient(id)) == 0);
                assert(token_count(pre, SolutionField::Patient(id)) == 0);
            }
        }
        crate::problem::lemma_counts_give_patients_target(child@, n);
        crate::problem::lemma_len_partition(child@);
        crate::problem::lemma_patients_target_props(n as nat);
        assert(semi_valid_solution(child@, n, w));
    }
    ProblemSolution(child)
}

/// Per pair the children are either the parents unchanged, or exactly
/// the order-preserving fills of the two parents at a common interior
/// cut.
pub open spec fn order_pair_ens(
    parents: Seq<ProblemSolution>,
    r: Seq<ProblemSolution>,
    i: int,
) -> bool {
    ||| (r[2 * i].0@ == parents[2 * i].0@ && r[2 * i + 1].0@ == parents[2 * i + 1].0@)
    ||| exists|c: int|
        #![trigger order_fill_spec(parents[2 * i].0@, parents[2 * i + 1].0@, c)]
        1 <= c < parents[2 * i].0@.len() && r[2 * i].0@ == order_fill_spec(
            parents[2 * i].0@,
            parents[2 * i + 1].0@,
            c,
        ) && r[2 * i + 1].0@ == order_fill_spec(
            parents[2 * i + 1].0@,
            parents[2 * i].0@,
            c,
        )
}

/// Order-preserving crossover: with probability equal to the crossover
/// rate a pair is recombined around a random interior cut, else passed
/// through unchanged.
///
/// A child keeps every client exactly once and exactly the parents'
/// separator count, but the separator labels themselves can be
/// rearranged between prefix and fill (the labels are opaque to fitness
/// and penalty, which read separators as pure boundaries).
pub struct DefaultCrossover {
    pub crossover_rate: u64,
}

impl ParentCrossoverSystem for DefaultCrossover {
    open spec fn ens(&self, parents: Seq<ProblemSolution>, r: Seq<ProblemSolution>) -> bool {
        &&& forall|i: int|
            0 <= i < parents.len() / 2 ==> #[trigger] order_pair_ens(parents, r, i)
        &&& self.crossover_rate == 0 ==> forall|j: int|
            0 <= j < r.len() ==> (#[trigger] r[j]).0@ == parents[j].0@
    }

    fn cross_over(&self, rng: &mut RandomSource, parents: &Vec<ProblemSolution>) -> (r: Vec<
        ProblemSolution,
    >)
    {
        let ghost (gn, gw): (int, int) = choose|n: int, w: int|
            #![trigger all_semi_valid(parents@, n, w)]
            all_semi_valid(parents@, n, w) && n + w >= 3;
        let mut crossed_overs: Vec<ProblemSolution> = Vec::new();
        let half = parents.len() / 2;
        let mut i: usize = 0;
        while i < half
            invariant
                parents@.len() % 2 == 0,
                2 * half == parents@.len(),
                parents@.len() <= usize::MAX,
                all_semi_valid(parents@, gn, gw),
                gn + gw >= 3,
                i <= half,
                crossed_overs@.len() == 2 * i,
                forall|k: int|
                    0 <= k < 2 * i ==> semi_valid_solution(
                        (#[trigger] crossed_overs@[k]).0@,
                        gn,
                        gw,
                    ),
                forall|j: int|
                    0 <= j < i ==> #[trigger] order_pair_ens(parents@, crossed_overs@, j),
                self.crossover_rate == 0 ==> forall|j: int|
                    0 <= j < 2 * i ==> (#[trigger] crossed_overs@[j]).0@ == parents@[j].0@,
            decreases half - i,
        {
            let parent_1 = &parents[2 * i];
            let parent_2 = &parents[2 * i + 1];
            proof {
                assert(semi_valid_solution(parents@[2 * i as int].0@, gn, gw));
                assert(semi_valid_solution(parents@[2 * i as int + 1].0@, gn, gw));
            }
            let ghost before = crossed_overs@;
            if !rng.coin(self.crossover_rate) {
                crossed_overs.push(parent_1.clone());
                crossed_overs.push(parent_2.clone());
            } else {
                let crossover_point = 1 + rng.next_below(parent_1.0.len() - 2);
                let child_1 = order_fill(
                    parent_1,
                    parent_2,
                    crossover_point,
                    Ghost(gn),
                    Ghost(gw),
                );
                let child_2 = order_fill(
                    parent_2,
                    parent_1,
                    crossover_point,
                    Ghost(gn),
                    Ghost(gw),
                );
                crossed_overs.push(child_1);
                crossed_overs.push(child_2);
                proof {
                    assert(1 <= crossover_point as int && (crossover_point as int) < parents@[2 * i as int].0@.len());
                }
            }
            proof {
                assert(order_pair_ens(parents@, crossed_overs@, i as int));
                assert forall|j: int|
                    0 <= j < i + 1 implies #[trigger] order_pair_ens(
                    parents@,
                    crossed_overs@,
                    j,
                ) by {
                    if j < i {
                        assert(order_pair_ens(parents@, before, j));
                        assert(crossed_overs@[2 * j].0@ == before[2 * j].0@);
                        assert(crossed_overs@[2 * j + 1].0@ == before[2 * j + 1].0@);
                    }
                }
            }
            i += 1;
        }
        proof {
            lemma_common_crossover_post(parents@, crossed_overs@, gn, gw);
        }
        crossed_overs
    }
}

/// The shared postcondition of the recombiners: a population of
/// semi-valid children is semi-valid for every layout its parents are.
proof fn lemma_common_crossover_post(
    parents: Seq<ProblemSolution>,
    r: Seq<ProblemSolution>,
    gn: int,
    gw: int,
)
    requires
        all_semi_valid(parents, gn, gw),
        r.len() == parents.len(),
        forall|k: int| 0 <= k < r.len() ==> semi_valid_solution((#[trigger] r[k]).0@, gn, gw),
    ensures
        forall|n: int, w: int|
            #![trigger all_semi_valid(parents, n, w)]
            all_semi_valid(parents, n, w) ==> all_semi_valid(r, n, w),
{
    assert forall|n: int, w: int|
        #![trigger all_semi_valid(parents, n, w)]
        all_semi_valid(parents, n, w) implies all_semi_valid(r, n, w) by {
        if parents.len() > 0 {
            assert(semi_valid_solution(parents[0].0@, gn, gw));
            assert(semi_valid_solution(parents[0].0@, n, w));
            assert(parents[0].0@.len() == parents[0].0.len());
            lemma_semi_valid_unique(parents[0].0@, gn, gw, n, w);
        }
        assert forall|k: int|
            0 <= k < r.len() implies semi_valid_solution((#[trigger] r[k]).0@, n, w) by {}
    }
}

/// Token code inside the combined code space of an instance with `n_e`
/// clients and `tokens` tokens in all: clients first, then separators.
fn token_code_in(t: SolutionField, n_e: usize, tokens: usize) -> (r: Option<usize>)
    requires
        n_e <= tokens,
    ensures
        r matches Some(code) ==> code < tokens,
{
    match t {
        SolutionField::Patient(id) => if id < n_e {
            Some(id)
        } else {
            None
        },
        SolutionField::Separator(sid) => if sid < tokens - n_e {
            Some(n_e + sid)
        } else {
            None
        },
    }
}

/// Removes every occurrence of `t`, keeping the rest in order.
fn remove_all(v: &mut Vec<SolutionField>, t: SolutionField)
    ensures
        forall|e: int|
            0 <= e < final(v)@.len() ==> final(v)@[e] != t && old(v)@.contains(
                #[trigger] final(v)@[e],
            ),
{
    let mut kept: Vec<SolutionField> = Vec::new();
    let mut i: usize = 0;
    while i < v.len()
        invariant
            i <= v@.len(),
            forall|e: int|
                0 <= e < kept@.len() ==> kept@[e] != t && v@.contains(#[trigger] kept@[e]),
        decreases v@.len() - i,
    {
        if !(v[i] == t) {
            kept.push(v[i]);
        }
        i += 1;
    }
    *v = kept;
}

/// Removes the first occurrence of `t`.
fn remove_one(v: &mut Vec<SolutionField>, t: SolutionField)
    requires
        old(v)@.contains(t),
    ensures
        final(v)@.to_multiset() == old(v)@.to_multiset().remove(t),
        final(v)@.len() + 1 == old(v)@.len(),
{
    let ghost j = choose|j: int| 0 <= j < v@.len() && v@[j] == t;
    let vlen = v.len();
    let mut i: usize = 0;
    while !(v[i] == t)
        invariant
            v@.len() == vlen,
            0 <= j < v@.len(),
            v@[j] == t,
            i <= j,
            forall|k: int| 0 <= k < i ==> v@[k] != t,
        decreases v@.len() - i,
    {
        i += 1;
        proof {
            if i > j {
                assert(false);
            }
        }
    }
    v.remove(i);
}

/// One edge-recombination child for `base`: repeatedly extends the built
/// sequence with an unplaced token, preferring adjacency candidates of the
/// current end (or, when exhausted, of the other end, switching the build
/// direction), and falling back to a uniformly random unplaced token.
fn edge_build(
    rng: &mut RandomSource,
    base: &ProblemSolution,
    edge_table: &mut Vec<Vec<SolutionField>>,
    n_e: usize,
) -> (child: ProblemSolution)
    requires
        base.0@.len() >= 1,
        n_e <= base.0@.len(),
    ensures
        child.0@.to_multiset() == base.0@.to_multiset(),
        child.0@.len() == base.0@.len(),
{
    let tokens = base.0.len();
    let mut built_list: Vec<SolutionField> = Vec::new();
    let mut tokens_left = base.clone().0;
    let start = rng.next_below(tokens);
    let mut current_element = base.0[start];
    let mut append = true;
    proof {
        assert(Seq::<SolutionField>::empty().to_multiset() =~= Multiset::<
            SolutionField,
        >::empty());
        assert(built_list@.to_multiset().add(tokens_left@.to_multiset()) =~= base.0@.to_multiset());
        assert(base.0@.contains(base.0@[start as int]));
    }
    while built_list.len() < tokens
        invariant
            tokens == base.0@.len(),
            tokens >= 1,
            built_list@.len() <= tokens,
            built_list@.len() + tokens_left@.len() == tokens,
            built_list@.to_multiset().add(tokens_left@.to_multiset())
                == base.0@.to_multiset(),
            n_e <= tokens,
            built_list@.len() < tokens ==> tokens_left@.contains(current_element),
        decreases tokens - built_list@.len(),
    {
        let ghost built_before = built_list@;
        if append {
            built_list.push(current_element);
            proof {
                lemma_push_token(built_before, current_element);
            }
        } else {
            built_list.insert(0, current_element);
        }
        remove_one(&mut tokens_left, current_element);
        proof {
            assert(built_list@.to_multiset() == built_before.to_multiset().insert(
                current_element,
            ));
            assert(built_list@.to_multiset().add(tokens_left@.to_multiset())
                =~= base.0@.to_multiset());
        }
        if built_list.len() < tokens {
            // Remove the placed token from every adjacency list.
            let ghost table_len = edge_table@.len();
            let mut ci: usize = 0;
            while ci < edge_table.len()
                invariant
                    edge_table@.len() == table_len,
                    ci <= table_len,
                decreases table_len - ci,
            {
                remove_all(&mut edge_table[ci], current_element);
                ci += 1;
            }
            // Pick the adjacency list of the current end, or of the other
            // end (switching direction), or fall back to a random token.
            let mut list_idx: usize = 0;
            let mut have_list = false;
            if let Some(code) = token_code_in(current_element, n_e, tokens) {
                if code < edge_table.len() && edge_table[code].len() > 0 {
                    list_idx = code;
                    have_list = true;
                }
            }
            if !have_list {
                let head = built_list[0];
                if let Some(code) = token_code_in(head, n_e, tokens) {
                    if code < edge_table.len() && edge_table[code].len() > 0 {
                        list_idx = code;
                        have_list = true;
                        append = false;
                    }
                }
            }
            let mut chosen: Option<SolutionField> = None;
            if have_list {
                // Prefer a candidate both parents agree on (multiplicity
                // above one), then the candidate with fewest remaining
                // neighbours, ties broken by candidate order.
                let mut a: usize = 0;
                while a < edge_table[list_idx].len() && chosen.is_none()
                    invariant
                        list_idx < edge_table@.len(),
                        a <= edge_table@[list_idx as int]@.len(),
                    decreases edge_table@[list_idx as int]@.len() - a,
                {
                    let cand = edge_table[list_idx][a];
                    let mut occurrences: usize = 0;
                    let mut b: usize = 0;
                    while b < edge_table[list_idx].len()
                        invariant
                            list_idx < edge_table@.len(),
                            b <= edge_table@[list_idx as int]@.len(),
                            occurrences <= b,
                        decreases edge_table@[list_idx as int]@.len() - b,
                    {
                        if edge_table[list_idx][b] == cand {
                            occurrences += 1;
                        }
                        b += 1;
                    }
                    if occurrences > 1 {
                        chosen = Some(cand);
                    }
                    a += 1;
                }
                if chosen.is_none() {
                    let mut best_pos: usize = 0;
                    let mut best_size: usize = usize::MAX;
                    let mut a: usize = 0;
                    while a < edge_table[list_idx].len()
                        invariant
                            n_e <= tokens,
                            list_idx < edge_table@.len(),
                            a <= edge_table@[list_idx as int]@.len(),
                            a > 0 ==> best_pos < a,
                            a == 0 ==> best_pos == 0,
                        decreases edge_table@[list_idx as int]@.len() - a,
                    {
                        let cand = edge_table[list_idx][a];
                        let size: usize = match token_code_in(cand, n_e, tokens) {
                            Some(code) => if code < edge_table.len() {
                                edge_table[code].len()
                            } else {
                                0
                            },
                            None => 0,
                        };
                        if size < best_size {
                            best_size = size;
                            best_pos = a;
                        }
                        a += 1;
                    }
                    if edge_table[list_idx].len() > 0 {
                        chosen = Some(edge_table[list_idx][best_pos]);
                    }
                }
            }
            let mut assigned = false;
            if let Some(t) = chosen {
                if contains_token(&tokens_left, t) {
                    current_element = t;
                    assigned = true;
                }
            }
            if !assigned {
                let pick = rng.next_below(tokens_left.len());
                current_element = tokens_left[pick];
                append = true;
                proof {
                    assert(tokens_left@.contains(tokens_left@[pick as int]));
                }
            }
        }
    }
    proof {
        assert(tokens_left@.len() == 0);
        assert(tokens_left@.to_multiset() =~= Multiset::<SolutionField>::empty());
        assert(built_list@.to_multiset() =~= base.0@.to_multiset());
    }
    ProblemSolution(built_list)
}

/// Per pair, each child's token multiset equals one parent's and the other
/// child's equals the other parent's.
pub open spec fn edge_pair_ens(
    parents: Seq<ProblemSolution>,
    r: Seq<ProblemSolution>,
    i: int,
) -> bool {
    ||| (r[2 * i].0@.to_multiset() == parents[2 * i].0@.to_multiset() && r[2 * i
        + 1].0@.to_multiset() == parents[2 * i + 1].0@.to_multiset())
    ||| (r[2 * i].0@.to_multiset() == parents[2 * i + 1].0@.to_multiset() && r[2 * i
        + 1].0@.to_multiset() == parents[2 * i].0@.to_multiset())
}

/// Edge-recombination crossover: with probability equal to the crossover
/// rate a pair is recombined through the shared adjacency table of both
/// parents, else passed through unchanged (in swapped order).
pub struct EdgeCrossover {
    pub crossover_rate: u64,
}

impl ParentCrossoverSystem for EdgeCrossover {
    open spec fn ens(&self, parents: Seq<ProblemSolution>, r: Seq<ProblemSolution>) -> bool {
        &&& forall|i: int|
            0 <= i < parents.len() / 2 ==> #[trigger] edge_pair_ens(parents, r, i)
        &&& self.crossover_rate == 0 ==> forall|i: int|
            0 <= i < parents.len() / 2 ==> (#[trigger] r[2 * i]).0@ == parents[2 * i + 1].0@
                && r[2 * i + 1].0@ == parents[2 * i].0@
    }

    fn cross_over(&self, rng: &mut RandomSource, parents: &Vec<ProblemSolution>) -> (r: Vec<
        ProblemSolution,
    >)
    {
        let ghost (gn, gw): (int, int) = choose|n: int, w: int|
            #![trigger all_semi_valid(parents@, n, w)]
            all_semi_valid(parents@, n, w) && n + w >= 3;
        let mut children: Vec<ProblemSolution> = Vec::new();
        let half = parents.len() / 2;
        let mut i: usize = 0;
        while i < half
            invariant
                parents@.len() % 2 == 0,
                2 * half == parents@.len(),
                parents@.len() <= usize::MAX,
                all_semi_valid(parents@, gn, gw),
                gn + gw >= 3,
                i <= half,
                children@.len() == 2 * i,
                forall|k: int|
                    0 <= k < 2 * i ==> semi_valid_solution(
                        (#[trigger] children@[k]).0@,
                        gn,
                        gw,
                    ),
                forall|j: int|
                    0 <= j < i ==> #[trigger] edge_pair_ens(parents@, children@, j),
                self.crossover_rate == 0 ==> forall|j: int|
                    0 <= j < i ==> (#[trigger] children@[2 * j]).0@ == parents@[2 * j + 1].0@
                        && children@[2 * j + 1].0@ == parents@[2 * j].0@,
            decreases half - i,
        {
            let p_1 = &parents[2 * i];
            let p_2 = &parents[2 * i + 1];
            proof {
                assert(semi_valid_solution(parents@[2 * i as int].0@, gn, gw));
                assert(semi_valid_solution(parents@[2 * i as int + 1].0@, gn, gw));
                assert(p_1.0@.len() == p_1.0.len());
                assert(p_2.0@.len() == p_2.0.len());
            }
            let ghost before = children@;
            if !rng.coin(self.crossover_rate) {
                children.push(p_2.clone());
                children.push(p_1.clone());
            } else {
                let tokens = p_1.0.len();
                // Clients get codes below the separator codes.
                let mut w_e: usize = 0;
                let mut idx: usize = 0;
                while idx < tokens
                    invariant
                        tokens == p_1.0@.len(),
                        idx <= tokens,
                        w_e <= idx,
                    decreases tokens - idx,
                {
                    if p_1.0[idx].is_separator() {
                        w_e += 1;
                    }
                    idx += 1;
                }
                let n_e = tokens - w_e;

                // The adjacency table over both parents, cyclic neighbours.
                let mut edge_table: Vec<Vec<SolutionField>> = Vec::new();
                let mut b: usize = 0;
                while b < tokens
                    invariant
                        b <= tokens,
                        edge_table@.len() == b,
                    decreases tokens - b,
                {
                    edge_table.push(Vec::new());
                    b += 1;
                }
                let mut idx: usize = 0;
                while idx < tokens
                    invariant
                        tokens == p_1.0@.len(),
                        tokens == p_2.0@.len(),
                        tokens >= 3,
                        n_e <= tokens,
                        edge_table@.len() == tokens,
                        idx <= tokens,
                    decreases tokens - idx,
                {
                    let t_0 = p_1.0[idx];
                    let edge_left = if idx == 0 {
                        p_1.0[tokens - 1]
                    } else {
                        p_1.0[idx - 1]
                    };
                    let edge_right = if idx == tokens - 1 {
                        p_1.0[0]
                    } else {
                        p_1.0[idx + 1]
                    };
                    if let Some(code) = token_code_in(t_0, n_e, tokens) {
                        edge_table[code].push(edge_left);
                        edge_table[code].push(edge_right);
                    }
                    let t_0 = p_2.0[idx];
                    let edge_left = if idx == 0 {
                        p_2.0[tokens - 1]
                    } else {
                        p_2.0[idx - 1]
                    };
                    let edge_right = if idx == tokens - 1 {
                        p_2.0[0]
                    } else {
                        p_2.0[idx + 1]
                    };
                    if let Some(code) = token_code_in(t_0, n_e, tokens) {
                        edge_table[code].push(edge_left);
                        edge_table[code].push(edge_right);
                    }
                    idx += 1;
                }

                let child_1 = edge_build(rng, p_1, &mut edge_table, n_e);
                let child_2 = edge_build(rng, p_2, &mut edge_table, n_e);
                proof {
                    lemma_ms_eq_preserves_semi(p_1.0@, child_1.0@, gn, gw);
                    lemma_ms_eq_preserves_semi(p_2.0@, child_2.0@, gn, gw);
                }
                children.push(child_1);
                children.push(child_2);
            }
            proof {
                assert(edge_pair_ens(parents@, children@, i as int));
                assert forall|j: int|
                    0 <= j < i + 1 implies #[trigger] edge_pair_ens(
                    parents@,
                    children@,
                    j,
                ) by {
                    if j < i {
                        assert(edge_pair_ens(parents@, before, j));
                        assert(children@[2 * j].0@ == before[2 * j].0@);
                        assert(children@[2 * j + 1].0@ == before[2 * j + 1].0@);
                    }
                }
            }
            i += 1;
        }
        proof {
            lemma_common_crossover_post(parents@, children@, gn, gw);
        }
        children
    }
}

/// Edge recombination preserves full validity: a child of fully valid
/// parents holds every client and every separator exactly once, at its
/// parent's exact length.
pub proof fn lemma_edge_preserves_valid(
    e: &EdgeCrossover,
    parents: Seq<ProblemSolution>,
    r: Seq<ProblemSolution>,
    n: int,
    w: int,
)
    requires
        e.ens(parents, r),
        r.len() == parents.len(),
        parents.len() % 2 == 0,
        all_valid(parents, n, w),
    ensures
        all_valid(r, n, w),
{
    assert forall|k: int| 0 <= k < r.len() implies valid_solution((#[trigger] r[k]).0@, n, w) by {
        let i = k / 2;
        assert(0 <= i < parents.len() / 2);
        assert(edge_pair_ens(parents, r, i));
        assert(k == 2 * i || k == 2 * i + 1);
        assert(valid_solution(parents[2 * i].0@, n, w));
        assert(valid_solution(parents[2 * i + 1].0@, n, w));
        if r[k].0@.to_multiset() == parents[2 * i].0@.to_multiset() {
            lemma_ms_eq_preserves_valid(parents[2 * i].0@, r[k].0@, n, w);
        } else {
            lemma_ms_eq_preserves_valid(parents[2 * i + 1].0@, r[k].0@, n, w);
        }
    }
}

} // verus!
