use vstd::prelude::*;

use crate::problem::ProblemSolution;
use crate::problem::SolutionField;
use crate::problem::MAX_TOKENS;

verus! {

/// Number of differing positions among the first `i` of each sequence.
pub open spec fn dist_prefix(a: Seq<SolutionField>, b: Seq<SolutionField>, i: int) -> int
    decreases i,
{
    if i <= 0 {
        0
    } else {
        dist_prefix(a, b, i - 1) + if a[i - 1] != b[i - 1] {
            1int
        } else {
            0int
        }
    }
}

/// Genotype distance: the count of positions where the tokens differ.
pub open spec fn dist_spec(a: Seq<SolutionField>, b: Seq<SolutionField>) -> int {
    dist_prefix(a, b, a.len() as int)
}

/// `i` is the first position of the maximal value of `s`.
pub open spec fn is_first_max(s: Seq<i64>, i: int) -> bool {
    &&& 0 <= i < s.len()
    &&& forall|k: int| 0 <= k < s.len() ==> #[trigger] s[k] <= s[i]
    &&& forall|k: int| 0 <= k < i ==> #[trigger] s[k] < s[i]
}

/// `i` is the first position of the minimal value of `s`.
pub open spec fn is_first_min(s: Seq<i64>, i: int) -> bool {
    &&& 0 <= i < s.len()
    &&& forall|k: int| 0 <= k < s.len() ==> #[trigger] s[k] >= s[i]
    &&& forall|k: int| 0 <= k < i ==> #[trigger] s[k] > s[i]
}

/// `v` is the largest value present across the two score vectors.
pub open spec fn is_max_of_union(pe: Seq<i64>, ce: Seq<i64>, v: int) -> bool {
    &&& forall|k: int| 0 <= k < pe.len() ==> #[trigger] pe[k] <= v
    &&& forall|k: int| 0 <= k < ce.len() ==> #[trigger] ce[k] <= v
    &&& ((exists|k: int| 0 <= k < pe.len() && pe[k] == v) || (exists|k: int|
        0 <= k < ce.len() && ce[k] == v))
}

/// Some member of `ps` has exactly the token sequence `x`.
pub open spec fn solution_in(ps: Seq<ProblemSolution>, x: Seq<SolutionField>) -> bool {
    exists|k: int| 0 <= k < ps.len() && (#[trigger] ps[k]).0@ == x
}

/// Every member of `r` is one of the parents or one of the children.
pub open spec fn drawn_from(
    parents: Seq<ProblemSolution>,
    children: Seq<ProblemSolution>,
    r: Seq<ProblemSolution>,
) -> bool {
    forall|j: int|
        0 <= j < r.len() ==> solution_in(parents, (#[trigger] r[j]).0@) || solution_in(
            children,
            r[j].0@,
        )
}

/// All solutions of the population have token length `len`.
pub open spec fn uniform_len(ps: Seq<ProblemSolution>, len: int) -> bool {
    forall|j: int| 0 <= j < ps.len() ==> (#[trigger] ps[j]).0@.len() == len
}

/// The survivor slot: merges the index-matched parent and child
/// generations into the next population.
pub trait SurvivorSelector: Sized {
    /// The selection policy of this variant, relating the merged
    /// population to its inputs.
    spec fn ens(
        &self,
        parents: Seq<ProblemSolution>,
        parent_evals: Seq<i64>,
        children: Seq<ProblemSolution>,
        children_evals: Seq<i64>,
        r: Seq<ProblemSolution>,
    ) -> bool;

    fn select_survivors(
        &self,
        parents: &Vec<ProblemSolution>,
        parent_evals: &Vec<i64>,
        children: &Vec<ProblemSolution>,
        children_evals: &Vec<i64>,
    ) -> (r: Vec<ProblemSolution>)
        requires
            parents@.len() == children@.len(),
            parent_evals@.len() == parents@.len(),
            children_evals@.len() == children@.len(),
            parents@.len() >= 1,
            parents@.len() % 2 == 0,
            exists|len: int|
                #![trigger uniform_len(parents@, len)]
                uniform_len(parents@, len) && uniform_len(children@, len) && 0 <= len
                    <= MAX_TOKENS,
        ensures
            r@.len() == children@.len(),
            drawn_from(parents@, children@, r@),
            self.ens(parents@, parent_evals@, children@, children_evals@, r@),
    ;
}

/// First position holding the maximal value, and that value.
fn first_max_index(evals: &Vec<i64>) -> (r: usize)
    requires
        evals@.len() >= 1,
    ensures
        is_first_max(evals@, r as int),
{
    let mut best: usize = 0;
    let mut i: usize = 1;
    while i < evals.len()
        invariant
            1 <= i <= evals@.len(),
            best < i,
            forall|k: int| 0 <= k < i ==> #[trigger] evals@[k] <= evals@[best as int],
            forall|k: int| 0 <= k < best ==> #[trigger] evals@[k] < evals@[best as int],
        decreases evals@.len() - i,
    {
        if evals[i] > evals[best] {
            best = i;
        }
        i += 1;
    }
    best
}

/// First position holding the minimal value.
fn first_min_index(evals: &Vec<i64>) -> (r: usize)
    requires
        evals@.len() >= 1,
    ensures
        is_first_min(evals@, r as int),
{
    let mut best: usize = 0;
    let mut i: usize = 1;
    while i < evals.len()
        invariant
            1 <= i <= evals@.len(),
            best < i,
            forall|k: int| 0 <= k < i ==> #[trigger] evals@[k] >= evals@[best as int],
            forall|k: int| 0 <= k < best ==> #[trigger] evals@[k] > evals@[best as int],
        decreases evals@.len() - i,
    {
        if evals[i] < evals[best] {
            best = i;
        }
        i += 1;
    }
    best
}

/// Elitist merge: the children survive verbatim, except that when the
/// single best parent beats the single best child, it overwrites the
/// single worst child.
pub struct ElitismSelector;

impl SurvivorSelector for ElitismSelector {
    open spec fn ens(
        &self,
        parents: Seq<ProblemSolution>,
        parent_evals: Seq<i64>,
        children: Seq<ProblemSolution>,
        children_evals: Seq<i64>,
        r: Seq<ProblemSolution>,
    ) -> bool {
        exists|pmi: int, cmaxi: int, cmini: int|
            {
                &&& #[trigger] is_first_max(parent_evals, pmi)
                &&& #[trigger] is_first_max(children_evals, cmaxi)
                &&& #[trigger] is_first_min(children_evals, cmini)
                &&& r.len() == children.len()
                &&& if parent_evals[pmi] > children_evals[cmaxi] {
                    &&& r[cmini].0@ == parents[pmi].0@
                    &&& forall|j: int|
                        0 <= j < r.len() && j != cmini ==> (#[trigger] r[j]).0@
                            == children[j].0@
                } else {
                    forall|j: int| 0 <= j < r.len() ==> (#[trigger] r[j]).0@ == children[j].0@
                }
            }
    }

    fn select_survivors(
        &self,
        parents: &Vec<ProblemSolution>,
        parent_evals: &Vec<i64>,
        children: &Vec<ProblemSolution>,
        children_evals: &Vec<i64>,
    ) -> (r: Vec<ProblemSolution>)
    {
        let mut out: Vec<ProblemSolution> = Vec::new();
        let mut j: usize = 0;
        while j < children.len()
            invariant
                j <= children@.len(),
                out@.len() == j,
                forall|k: int| 0 <= k < j ==> (#[trigger] out@[k]).0@ == children@[k].0@,
            decreases children@.len() - j,
        {
            out.push(children[j].clone());
            j += 1;
        }
        let parent_max_index = first_max_index(parent_evals);
        let children_max_index = first_max_index(children_evals);
        let children_min_index = first_min_index(children_evals);
        if parent_evals[parent_max_index] > children_evals[children_max_index] {
            out.set(children_min_index, parents[parent_max_index].clone());
        }
        proof {
            assert forall|j: int| 0 <= j < out@.len() implies solution_in(
                parents@,
                (#[trigger] out@[j]).0@,
            ) || solution_in(children@, out@[j].0@) by {
                let pmi = parent_max_index as int;
                if out@[j].0@ == (#[trigger] children@[j]).0@ {
                    assert(solution_in(children@, out@[j].0@));
                } else {
                    assert(out@[j].0@ == (#[trigger] parents@[pmi]).0@);
                    assert(solution_in(parents@, out@[j].0@));
                }
            }
        }
        out
    }
}

/// The best score present across parents and children stays present in
/// the merged population an elitist selection produces.
pub proof fn lemma_elitism_preserves_best(
    e: &ElitismSelector,
    parents: Seq<ProblemSolution>,
    parent_evals: Seq<i64>,
    children: Seq<ProblemSolution>,
    children_evals: Seq<i64>,
    r: Seq<ProblemSolution>,
)
    requires
        parents.len() == children.len(),
        parent_evals.len() == parents.len(),
        children_evals.len() == children.len(),
        parents.len() >= 1,
        e.ens(parents, parent_evals, children, children_evals, r),
    ensures
        exists|j: int, k: int|
            0 <= j < r.len() && 0 <= k < parents.len() && ((r[j].0@ == parents[k].0@
                && is_max_of_union(parent_evals, children_evals, parent_evals[k] as int)) || (
            r[j].0@ == children[k].0@ && is_max_of_union(
                parent_evals,
                children_evals,
                children_evals[k] as int,
            ))),
{
    let (pmi, cmaxi, cmini): (int, int, int) = choose|pmi: int, cmaxi: int, cmini: int|
        {
            &&& #[trigger] is_first_max(parent_evals, pmi)
            &&& #[trigger] is_first_max(children_evals, cmaxi)
            &&& #[trigger] is_first_min(children_evals, cmini)
            &&& r.len() == children.len()
            &&& if parent_evals[pmi] > children_evals[cmaxi] {
                &&& r[cmini].0@ == parents[pmi].0@
                &&& forall|j: int|
                    0 <= j < r.len() && j != cmini ==> (#[trigger] r[j]).0@ == children[j].0@
            } else {
                forall|j: int| 0 <= j < r.len() ==> (#[trigger] r[j]).0@ == children[j].0@
            }
        };
    if parent_evals[pmi] > children_evals[cmaxi] {
        assert(is_max_of_union(parent_evals, children_evals, parent_evals[pmi] as int));
        assert(0 <= cmini < r.len() && 0 <= pmi < parents.len() && r[cmini].0@
            == parents[pmi].0@);
    } else {
        assert(is_max_of_union(parent_evals, children_evals, children_evals[cmaxi] as int));
        assert(0 <= cmaxi < r.len() && r[cmaxi].0@ == children[cmaxi].0@);
    }
}

/// Tournament merge with alignment: per consecutive pair, children are
/// matched to parents under whichever pairing (identity or swapped) has
/// the smaller total genotype distance, and per slot the higher-scoring
/// of the matched parent and child survives.
pub struct TournamentSelector;

/// The survivors of one aligned pair: matched under the cheaper pairing,
/// the higher-scoring of parent and child per slot.
pub open spec fn tournament_pair_rule(
    parents: Seq<ProblemSolution>,
    parent_evals: Seq<i64>,
    children: Seq<ProblemSolution>,
    children_evals: Seq<i64>,
    r: Seq<ProblemSolution>,
    i: int,
) -> bool {
    let unswapped_dist = dist_spec(children[2 * i].0@, parents[2 * i].0@) + dist_spec(
        children[2 * i + 1].0@,
        parents[2 * i + 1].0@,
    );
    let swapped_dist = dist_spec(children[2 * i].0@, parents[2 * i + 1].0@) + dist_spec(
        children[2 * i + 1].0@,
        parents[2 * i].0@,
    );
    if swapped_dist < unswapped_dist {
        &&& r[2 * i].0@ == if parent_evals[2 * i] > children_evals[2 * i + 1] {
            parents[2 * i].0@
        } else {
            children[2 * i + 1].0@
        }
        &&& r[2 * i + 1].0@ == if parent_evals[2 * i + 1] > children_evals[2 * i] {
            parents[2 * i + 1].0@
        } else {
            children[2 * i].0@
        }
    } else {
        &&& r[2 * i].0@ == if parent_evals[2 * i] > children_evals[2 * i] {
            parents[2 * i].0@
        } else {
            children[2 * i].0@
        }
        &&& r[2 * i + 1].0@ == if parent_evals[2 * i + 1] > children_evals[2 * i + 1] {
            parents[2 * i + 1].0@
        } else {
            children[2 * i + 1].0@
        }
    }
}

impl TournamentSelector {
    /// Genotype distance between two solutions of equal length.
    pub fn dist(a: &ProblemSolution, b: &ProblemSolution) -> (r: usize)
        requires
            a.0@.len() <= b.0@.len(),
        ensures
            r == dist_spec(a.0@, b.0@),
            r <= a.0@.len(),
    {
        let mut distance: usize = 0;
        let mut i: usize = 0;
        while i < a.0.len()
            invariant
                i <= a.0@.len(),
                a.0@.len() <= b.0@.len(),
                distance <= i,
                distance == dist_prefix(a.0@, b.0@, i as int),
            decreases a.0@.len() - i,
        {
            if !(a.0[i] == b.0[i]) {
                distance += 1;
            }
            i += 1;
        }
        distance
    }
}

impl SurvivorSelector for TournamentSelector {
    open spec fn ens(
        &self,
        parents: Seq<ProblemSolution>,
        parent_evals: Seq<i64>,
        children: Seq<ProblemSolution>,
        children_evals: Seq<i64>,
        r: Seq<ProblemSolution>,
    ) -> bool {
        &&& r.len() == children.len()
        &&& forall|i: int|
            0 <= i < children.len() / 2 ==> #[trigger] tournament_pair_rule(
                parents,
                parent_evals,
                children,
                children_evals,
                r,
                i,
            )
    }

    fn select_survivors(
        &self,
        parents: &Vec<ProblemSolution>,
        parent_evals: &Vec<i64>,
        children: &Vec<ProblemSolution>,
        children_evals: &Vec<i64>,
    ) -> (r: Vec<ProblemSolution>)
    {
        let mut selected_survivors: Vec<ProblemSolution> = Vec::new();
        let half = children.len() / 2;
        let mut i: usize = 0;
        while i < half
            invariant
                half == children@.len() / 2,
                parents@.len() == children@.len(),
                parent_evals@.len() == parents@.len(),
                children_evals@.len() == children@.len(),
                parents@.len() % 2 == 0,
                exists|len: int|
                    #![trigger uniform_len(parents@, len)]
                    uniform_len(parents@, len) && uniform_len(children@, len) && 0 <= len
                        <= MAX_TOKENS,
                2 * half == children@.len(),
                children@.len() <= usize::MAX,
                i <= half,
                selected_survivors@.len() == 2 * i,
                forall|j: int|
                    0 <= j < i ==> #[trigger] tournament_pair_rule(
                        parents@,
                        parent_evals@,
                        children@,
                        children_evals@,
                        selected_survivors@,
                        j,
                    ),
                drawn_from(parents@, children@, selected_survivors@),
            decreases half - i,
        {
            proof {
                let l = choose|len: int|
                    #![trigger uniform_len(parents@, len)]
                    uniform_len(parents@, len) && uniform_len(children@, len) && 0 <= len
                        <= MAX_TOKENS;
                assert(children@[2 * i as int].0@.len() == l);
                assert(children@[2 * i as int + 1].0@.len() == l);
                assert(parents@[2 * i as int].0@.len() == l);
                assert(parents@[2 * i as int + 1].0@.len() == l);
            }
            let first_child = &children[2 * i];
            let second_child = &children[2 * i + 1];
            let first_parent = &parents[2 * i];
            let second_parent = &parents[2 * i + 1];
            let unswapped_dist = TournamentSelector::dist(first_child, first_parent)
                + TournamentSelector::dist(second_child, second_parent);
            let swapped_dist = TournamentSelector::dist(first_child, second_parent)
                + TournamentSelector::dist(second_child, first_parent);
            let ghost before = selected_survivors@;
            if swapped_dist < unswapped_dist {
                if parent_evals[2 * i] > children_evals[2 * i + 1] {
                    selected_survivors.push(first_parent.clone());
                } else {
                    selected_survivors.push(second_child.clone());
                }
                if parent_evals[2 * i + 1] > children_evals[2 * i] {
                    selected_survivors.push(second_parent.clone());
                } else {
                    selected_survivors.push(first_child.clone());
                }
            } else {
                if parent_evals[2 * i] > children_evals[2 * i] {
                    selected_survivors.push(first_parent.clone());
                } else {
                    selected_survivors.push(first_child.clone());
                }
                if parent_evals[2 * i + 1] > children_evals[2 * i + 1] {
                    selected_survivors.push(second_parent.clone());
                } else {
                    selected_survivors.push(second_child.clone());
                }
            }
            proof {
                assert(selected_survivors@.len() == 2 * i + 2);
                assert(selected_survivors@[2 * i as int].0@ == parents@[2 * i as int].0@
                    || selected_survivors@[2 * i as int].0@ == parents@[2 * i as int + 1].0@
                    || selected_survivors@[2 * i as int].0@ == children@[2 * i as int].0@
                    || selected_survivors@[2 * i as int].0@ == children@[2 * i as int
                        + 1].0@);
                assert(selected_survivors@[2 * i as int + 1].0@ == parents@[2 * i as int].0@
                    || selected_survivors@[2 * i as int + 1].0@ == parents@[2 * i as int
                        + 1].0@
                    || selected_survivors@[2 * i as int + 1].0@ == children@[2 * i as int].0@
                    || selected_survivors@[2 * i as int + 1].0@ == children@[2 * i as int
                        + 1].0@);
                assert forall|j: int|
                    0 <= j < selected_survivors@.len() implies solution_in(
                    parents@,
                    (#[trigger] selected_survivors@[j]).0@,
                ) || solution_in(children@, selected_survivors@[j].0@) by {
                    if j < 2 * i {
                        assert(selected_survivors@[j].0@ == before[j].0@);
                        assert(solution_in(parents@, before[j].0@) || solution_in(
                            children@,
                            before[j].0@,
                        ));
                    } else {
                        let a = 2 * i as int;
                        let b = 2 * i as int + 1;
                        assert(selected_survivors@[j].0@ == (#[trigger] parents@[a]).0@
                            || selected_survivors@[j].0@ == (#[trigger] parents@[b]).0@
                            || selected_survivors@[j].0@ == (#[trigger] children@[a]).0@
                            || selected_survivors@[j].0@ == (#[trigger] children@[b]).0@);
                        if selected_survivors@[j].0@ == parents@[a].0@ {
                            assert(solution_in(parents@, selected_survivors@[j].0@));
                        } else if selected_survivors@[j].0@ == parents@[b].0@ {
                            assert(solution_in(parents@, selected_survivors@[j].0@));
                        } else if selected_survivors@[j].0@ == children@[a].0@ {
                            assert(solution_in(children@, selected_survivors@[j].0@));
                        } else {
                            assert(solution_in(children@, selected_survivors@[j].0@));
                        }
                    }
                }
                assert forall|j: int|
                    0 <= j < i + 1 implies #[trigger] tournament_pair_rule(
                    parents@,
                    parent_evals@,
                    children@,
                    children_evals@,
                    selected_survivors@,
                    j,
                ) by {
                    if j < i {
                        assert(tournament_pair_rule(
                            parents@,
                            parent_evals@,
                            children@,
                            children_evals@,
                            before,
                            j,
                        ));
                        assert(selected_survivors@[2 * j].0@ == before[2 * j].0@);
                        assert(selected_survivors@[2 * j + 1].0@ == before[2 * j + 1].0@);
                    }
                }
            }
            i += 1;
        }
        selected_survivors
    }
}

} // verus!
