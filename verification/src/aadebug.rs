//! Correction-set analysis over proof trees: formulas in disjunctive
//! normal form whose atoms are failed goals.
use std::collections::HashMap;

use vstd::prelude::*;

use crate::proof_tree::ProofNode;
use crate::types::{spec_is_maybe, spec_is_no, is_maybe, is_no, EvaluationResult, PredicateShape, ProbeKind};

pub mod dnf;
pub mod tree;

verus! {

broadcast use vstd::std_specs::hash::group_hash_axioms;

/// The correction sets found for a proof tree, each with its cost.
pub struct AnalysisResults {
    pub problematic_sets: Vec<tree::SetHeuristic>,
}

/// Every atom of a conjunct holds.
pub open spec fn all_hold<A>(c: Seq<A>, f: spec_fn(A) -> bool) -> bool {
    forall|j: int| 0 <= j < c.len() ==> #[trigger] f(c[j])
}

/// A formula in disjunctive normal form holds when one of its conjuncts does.
pub open spec fn dnf_holds<A>(d: Seq<Seq<A>>, f: spec_fn(A) -> bool) -> bool {
    exists|i: int| 0 <= i < d.len() && #[trigger] all_hold(d[i], f)
}

/// Prefixes the conjunct `l` to each conjunct of `rhs`.
pub open spec fn conjoin<A>(l: Seq<A>, rhs: Seq<Seq<A>>) -> Seq<Seq<A>> {
    rhs.map_values(|r: Seq<A>| l + r)
}

/// The conjunction of two formulas, distributed back into normal form:
/// for each conjunct of `lhs` in order, its concatenation with each
/// conjunct of `rhs` in order.
pub open spec fn distribute_all<A>(lhs: Seq<Seq<A>>, rhs: Seq<Seq<A>>) -> Seq<Seq<A>>
    decreases lhs.len(),
{
    if lhs.len() == 0 {
        Seq::empty()
    } else {
        distribute_all(lhs.drop_last(), rhs) + conjoin(lhs.last(), rhs)
    }
}

/// The disjunction of formulas: all their conjuncts, in order.
pub open spec fn join_all<A>(vs: Seq<Seq<Seq<A>>>) -> Seq<Seq<A>>
    decreases vs.len(),
{
    if vs.len() == 0 {
        Seq::empty()
    } else {
        join_all(vs.drop_last()) + vs.last()
    }
}

/// The conjunction of formulas, distributed from the left.
pub open spec fn and_all<A>(vs: Seq<Seq<Seq<A>>>) -> Seq<Seq<A>>
    decreases vs.len(),
{
    if vs.len() == 0 {
        Seq::empty()
    } else if vs.len() == 1 {
        vs[0]
    } else {
        distribute_all(and_all(vs.drop_last()), vs.last())
    }
}

pub proof fn lemma_all_hold_concat<A>(l: Seq<A>, r: Seq<A>, f: spec_fn(A) -> bool)
    ensures
        all_hold(l + r, f) == (all_hold(l, f) && all_hold(r, f)),
{
    if all_hold(l, f) && all_hold(r, f) {
        assert forall|j: int| 0 <= j < (l + r).len() implies #[trigger] f((l + r)[j]) by {
            if j < l.len() {
                assert((l + r)[j] == l[j]);
            } else {
                assert((l + r)[j] == r[j - l.len()]);
            }
        }
    }
    if all_hold(l + r, f) {
        assert forall|j: int| 0 <= j < l.len() implies #[trigger] f(l[j]) by {
            assert((l + r)[j] == l[j]);
        }
        assert forall|j: int| 0 <= j < r.len() implies #[trigger] f(r[j]) by {
            assert((l + r)[j + l.len()] == r[j]);
        }
    }
}

pub proof fn lemma_dnf_holds_concat<A>(a: Seq<Seq<A>>, b: Seq<Seq<A>>, f: spec_fn(A) -> bool)
    ensures
        dnf_holds(a + b, f) == (dnf_holds(a, f) || dnf_holds(b, f)),
{
    if dnf_holds(a, f) {
        let i = choose|i: int| 0 <= i < a.len() && #[trigger] all_hold(a[i], f);
        assert((a + b)[i] == a[i]);
    }
    if dnf_holds(b, f) {
        let i = choose|i: int| 0 <= i < b.len() && #[trigger] all_hold(b[i], f);
        assert((a + b)[i + a.len()] == b[i]);
    }
    if dnf_holds(a + b, f) {
        let i = choose|i: int| 0 <= i < (a + b).len() && #[trigger] all_hold((a + b)[i], f);
        if i < a.len() {
            assert((a + b)[i] == a[i]);
        } else {
            assert((a + b)[i] == b[i - a.len()]);
        }
    }
}

pub proof fn lemma_dnf_holds_split_last<A>(d: Seq<Seq<A>>, f: spec_fn(A) -> bool)
    requires
        d.len() > 0,
    ensures
        dnf_holds(d, f) == (dnf_holds(d.drop_last(), f) || all_hold(d.last(), f)),
{
    assert(d =~= d.drop_last() + seq![d.last()]);
    lemma_dnf_holds_concat(d.drop_last(), seq![d.last()], f);
    if all_hold(d.last(), f) {
        assert(seq![d.last()][0] == d.last());
    }
}

pub(crate) proof fn lemma_distribute_nonempty<A>(lhs: Seq<Seq<A>>, rhs: Seq<Seq<A>>)
    requires
        lhs.len() > 0,
        rhs.len() > 0,
    ensures
        distribute_all(lhs, rhs).len() > 0,
{
    assert(conjoin(lhs.last(), rhs).len() == rhs.len());
}

pub(crate) proof fn lemma_join_conjoins<A>(lhs: Seq<Seq<A>>, rhs: Seq<Seq<A>>)
    ensures
        join_all(lhs.map_values(|l: Seq<A>| conjoin(l, rhs))) == distribute_all(lhs, rhs),
    decreases lhs.len(),
{
    let m = lhs.map_values(|l: Seq<A>| conjoin(l, rhs));
    if lhs.len() > 0 {
        lemma_join_conjoins(lhs.drop_last(), rhs);
        assert(m.drop_last() =~= lhs.drop_last().map_values(|l: Seq<A>| conjoin(l, rhs)));
    } else {
        assert(m.len() == 0);
    }
}

/// Every atom of every conjunct of `d` satisfies `p`.
pub open spec fn all_atoms<A>(d: Seq<Seq<A>>, p: spec_fn(A) -> bool) -> bool {
    forall|i: int, j: int| 0 <= i < d.len() && 0 <= j < d[i].len() ==> #[trigger] p(d[i][j])
}

pub(crate) proof fn lemma_atoms_concat<A>(a: Seq<Seq<A>>, b: Seq<Seq<A>>, p: spec_fn(A) -> bool)
    requires
        all_atoms(a, p),
        all_atoms(b, p),
    ensures
        all_atoms(a + b, p),
{
    assert forall|i: int, j: int| 0 <= i < (a + b).len() && 0 <= j < (a + b)[i].len() implies #[trigger] p(
        (a + b)[i][j],
    ) by {
        if i < a.len() {
            assert((a + b)[i] == a[i]);
            assert(p(a[i][j]));
        } else {
            assert((a + b)[i] == b[i - a.len()]);
            assert(p(b[i - a.len()][j]));
        }
    }
}

pub(crate) proof fn lemma_atoms_conjoin<A>(l: Seq<A>, rhs: Seq<Seq<A>>, p: spec_fn(A) -> bool)
    requires
        forall|j: int| 0 <= j < l.len() ==> #[trigger] p(l[j]),
        all_atoms(rhs, p),
    ensures
        all_atoms(conjoin(l, rhs), p),
{
    let d = conjoin(l, rhs);
    assert forall|i: int, j: int| 0 <= i < d.len() && 0 <= j < d[i].len() implies #[trigger] p(d[i][j]) by {
        assert(d[i] == l + rhs[i]);
        if j < l.len() {
            assert((l + rhs[i])[j] == l[j]);
        } else {
            assert((l + rhs[i])[j] == rhs[i][j - l.len()]);
            assert(p(rhs[i][j - l.len()]));
        }
    }
}

pub(crate) proof fn lemma_atoms_distribute<A>(lhs: Seq<Seq<A>>, rhs: Seq<Seq<A>>, p: spec_fn(A) -> bool)
    requires
        all_atoms(lhs, p),
        all_atoms(rhs, p),
    ensures
        all_atoms(distribute_all(lhs, rhs), p),
    decreases lhs.len(),
{
    if lhs.len() > 0 {
        assert(all_atoms(lhs.drop_last(), p)) by {
            assert forall|i: int, j: int|
                0 <= i < lhs.drop_last().len() && 0 <= j < lhs.drop_last()[i].len() implies #[trigger] p(
                lhs.drop_last()[i][j],
            ) by {
                assert(lhs.drop_last()[i] == lhs[i]);
                assert(p(lhs[i][j]));
            }
        }
        lemma_atoms_distribute(lhs.drop_last(), rhs, p);
        let last = lhs.last();
        assert forall|j: int| 0 <= j < last.len() implies #[trigger] p(last[j]) by {
            assert(p(lhs[lhs.len() - 1][j]));
        }
        lemma_atoms_conjoin(last, rhs, p);
        lemma_atoms_concat(distribute_all(lhs.drop_last(), rhs), conjoin(last, rhs), p);
    }
}

pub(crate) proof fn lemma_atoms_join<A>(vs: Seq<Seq<Seq<A>>>, p: spec_fn(A) -> bool)
    requires
        forall|k: int| 0 <= k < vs.len() ==> all_atoms(#[trigger] vs[k], p),
    ensures
        all_atoms(join_all(vs), p),
    decreases vs.len(),
{
    if vs.len() > 0 {
        assert forall|k: int| 0 <= k < vs.drop_last().len() implies all_atoms(#[trigger] vs.drop_last()[k], p) by {
            assert(vs.drop_last()[k] == vs[k]);
        }
        lemma_atoms_join(vs.drop_last(), p);
        assert(all_atoms(vs[vs.len() - 1], p));
        lemma_atoms_concat(join_all(vs.drop_last()), vs.last(), p);
    }
}

pub(crate) proof fn lemma_atoms_and<A>(vs: Seq<Seq<Seq<A>>>, p: spec_fn(A) -> bool)
    requires
        forall|k: int| 0 <= k < vs.len() ==> all_atoms(#[trigger] vs[k], p),
    ensures
        all_atoms(and_all(vs), p),
    decreases vs.len(),
{
    if vs.len() == 1 {
        assert(all_atoms(vs[0], p));
    } else if vs.len() > 1 {
        assert forall|k: int| 0 <= k < vs.drop_last().len() implies all_atoms(#[trigger] vs.drop_last()[k], p) by {
            assert(vs.drop_last()[k] == vs[k]);
        }
        lemma_atoms_and(vs.drop_last(), p);
        assert(all_atoms(vs[vs.len() - 1], p));
        lemma_atoms_distribute(and_all(vs.drop_last()), vs.last(), p);
    }
}

/// The left fold of conjunctions: the first formula starts the fold, each
/// next one is distributed into the accumulated formula, and a product with
/// no conjunct left drops the accumulator so that the next formula starts
/// afresh.
pub open spec fn and_fold<A>(vs: Seq<Seq<Seq<A>>>) -> Option<Seq<Seq<A>>>
    decreases vs.len(),
{
    if vs.len() == 0 {
        None
    } else {
        match and_fold(vs.drop_last()) {
            None => Some(vs.last()),
            Some(l) => {
                let d = distribute_all(l, vs.last());
                if d.len() == 0 {
                    None
                } else {
                    Some(d)
                }
            },
        }
    }
}

/// When no formula is empty, the fold is the conjunction of all of them.
pub proof fn law_and_fold_nonempty<A>(vs: Seq<Seq<Seq<A>>>)
    requires
        vs.len() > 0,
        forall|k: int| 0 <= k < vs.len() ==> (#[trigger] vs[k]).len() > 0,
    ensures
        and_fold(vs) == Some(and_all(vs)),
        and_all(vs).len() > 0,
    decreases vs.len(),
{
    if vs.len() > 1 {
        let init = vs.drop_last();
        assert forall|k: int| 0 <= k < init.len() implies (#[trigger] init[k]).len() > 0 by {
            assert(init[k] == vs[k]);
        }
        law_and_fold_nonempty(init);
        assert(vs.last() == vs[vs.len() - 1]);
        lemma_distribute_nonempty(and_all(init), vs.last());
        assert(and_fold(init) == Some(and_all(init)));
        assert(and_all(vs) == distribute_all(and_all(init), vs.last()));
    } else {
        assert(vs.drop_last().len() == 0);
        assert(and_fold(vs.drop_last()) is None);
        assert(vs.last() == vs[0]);
    }
}

/// A conjunct prefixed to a formula holds exactly when both hold.
pub proof fn law_conjoin_holds<A>(l: Seq<A>, rhs: Seq<Seq<A>>, f: spec_fn(A) -> bool)
    ensures
        dnf_holds(conjoin(l, rhs), f) == (all_hold(l, f) && dnf_holds(rhs, f)),
{
    let c = conjoin(l, rhs);
    if dnf_holds(c, f) {
        let i = choose|i: int| 0 <= i < c.len() && #[trigger] all_hold(c[i], f);
        lemma_all_hold_concat(l, rhs[i], f);
    }
    if all_hold(l, f) && dnf_holds(rhs, f) {
        let i = choose|i: int| 0 <= i < rhs.len() && #[trigger] all_hold(rhs[i], f);
        lemma_all_hold_concat(l, rhs[i], f);
        assert(c[i] == l + rhs[i]);
    }
}

/// Distributing two formulas preserves their conjunction.
pub proof fn law_distribute_holds<A>(lhs: Seq<Seq<A>>, rhs: Seq<Seq<A>>, f: spec_fn(A) -> bool)
    ensures
        dnf_holds(distribute_all(lhs, rhs), f) == (dnf_holds(lhs, f) && dnf_holds(rhs, f)),
    decreases lhs.len(),
{
    if lhs.len() > 0 {
        law_distribute_holds(lhs.drop_last(), rhs, f);
        law_conjoin_holds(lhs.last(), rhs, f);
        lemma_dnf_holds_concat(distribute_all(lhs.drop_last(), rhs), conjoin(lhs.last(), rhs), f);
        lemma_dnf_holds_split_last(lhs, f);
    }
}

/// The disjunction of formulas holds exactly when one of them holds.
pub proof fn law_join_holds<A>(vs: Seq<Seq<Seq<A>>>, f: spec_fn(A) -> bool)
    ensures
        dnf_holds(join_all(vs), f) == (exists|k: int|
            0 <= k < vs.len() && #[trigger] dnf_holds(vs[k], f)),
    decreases vs.len(),
{
    if vs.len() > 0 {
        let init = vs.drop_last();
        law_join_holds(init, f);
        lemma_dnf_holds_concat(join_all(init), vs.last(), f);
        if dnf_holds(join_all(vs), f) {
            if dnf_holds(join_all(init), f) {
                let k = choose|k: int| 0 <= k < init.len() && #[trigger] dnf_holds(init[k], f);
                assert(vs[k] == init[k]);
            } else {
                assert(dnf_holds(vs[vs.len() - 1], f));
            }
        }
        if exists|k: int| 0 <= k < vs.len() && #[trigger] dnf_holds(vs[k], f) {
            let k = choose|k: int| 0 <= k < vs.len() && #[trigger] dnf_holds(vs[k], f);
            if k < vs.len() - 1 {
                assert(init[k] == vs[k]);
            }
        }
    }
}

/// The conjunction of formulas holds exactly when each of them holds.
pub proof fn law_and_holds<A>(vs: Seq<Seq<Seq<A>>>, f: spec_fn(A) -> bool)
    requires
        vs.len() > 0,
    ensures
        dnf_holds(and_all(vs), f) == (forall|k: int|
            0 <= k < vs.len() ==> #[trigger] dnf_holds(vs[k], f)),
    decreases vs.len(),
{
    if vs.len() > 1 {
        let init = vs.drop_last();
        law_and_holds(init, f);
        law_distribute_holds(and_all(init), vs.last(), f);
        if dnf_holds(and_all(vs), f) {
            assert forall|k: int| 0 <= k < vs.len() implies #[trigger] dnf_holds(vs[k], f) by {
                if k < vs.len() - 1 {
                    assert(init[k] == vs[k]);
                }
            }
        }
        if forall|k: int| 0 <= k < vs.len() ==> #[trigger] dnf_holds(vs[k], f) {
            assert forall|k: int| 0 <= k < init.len() implies #[trigger] dnf_holds(init[k], f) by {
                assert(init[k] == vs[k]);
            }
            assert(dnf_holds(vs[vs.len() - 1], f));
        }
    }
}

/// Where a nested goal of a candidate comes from.
#[derive(Clone, Copy, Debug, PartialEq, Eq, Structural, Hash)]
pub enum NestedGoalSource {
    /// A where clause of the impl.
    ImplWhereBound,
    /// Instantiating a higher-ranked bound.
    InstantiateHigherRanked,
    /// Anything else.
    Misc,
}

/// A nested goal keeps its candidate in the analysis: it comes from the
/// impl's where clauses or from instantiating a higher-ranked bound, and it
/// is undecided (when ambiguity is analyzed) or fails (otherwise).
pub open spec fn blocks_candidate(
    maybe_ambiguous: bool,
    nested: (NestedGoalSource, EvaluationResult),
) -> bool {
    &&& (nested.0 == NestedGoalSource::ImplWhereBound || nested.0
        == NestedGoalSource::InstantiateHigherRanked)
    &&& if maybe_ambiguous {
        spec_is_maybe(nested.1)
    } else {
        spec_is_no(nested.1)
    }
}

/// A candidate is kept by the analysis when ambiguity is analyzed and the
/// candidate did not fail, or when one of its nested goals blocks it.
pub open spec fn retains_candidate(
    maybe_ambiguous: bool,
    result: EvaluationResult,
    nested: Seq<(NestedGoalSource, EvaluationResult)>,
) -> bool {
    (maybe_ambiguous && result is Ok) || exists|i: int|
        0 <= i < nested.len() && blocks_candidate(maybe_ambiguous, #[trigger] nested[i])
}

pub fn candidate_retained(
    maybe_ambiguous: bool,
    result: &EvaluationResult,
    nested: &Vec<(NestedGoalSource, EvaluationResult)>,
) -> (r: bool)
    ensures
        r == retains_candidate(maybe_ambiguous, *result, nested@),
{
    if maybe_ambiguous && result.is_ok() {
        return true;
    }
    let mut i: usize = 0;
    while i < nested.len()
        invariant
            i <= nested@.len(),
            forall|j: int| 0 <= j < i ==> !blocks_candidate(maybe_ambiguous, #[trigger] nested@[j]),
        decreases nested@.len() - i,
    {
        let (source, res) = nested[i];
        let from_bound = match source {
            NestedGoalSource::ImplWhereBound => true,
            NestedGoalSource::InstantiateHigherRanked => true,
            NestedGoalSource::Misc => false,
        };
        let bad = if maybe_ambiguous {
            is_maybe(&res)
        } else {
            is_no(&res)
        };
        if from_bound && bad {
            assert(blocks_candidate(maybe_ambiguous, nested@[i as int]));
            return true;
        }
        i = i + 1;
    }
    false
}

/// The nodes of a proof tree as the analysis reads them, gathered while the
/// tree is visited, keyed by the packed node.
pub struct Storage {
    ns: HashMap<u32, tree::N>,
    maybe_ambiguous: bool,
    report_performance: bool,
}

impl Storage {
    /// The node recorded for each packed node.
    pub closed spec fn nodes(&self) -> Map<u32, tree::N> {
        self.ns@
    }

    /// Whether the analysis looks for ambiguity rather than failure.
    pub closed spec fn analyzes_ambiguity(&self) -> bool {
        self.maybe_ambiguous
    }

    /// Whether the time the analysis takes is reported.
    pub closed spec fn reports_performance(&self) -> bool {
        self.report_performance
    }

    /// An empty storage; `report_performance` tells whether the time the
    /// analysis takes is reported.
    pub fn new(maybe_ambiguous: bool, report_performance: bool) -> (r: Storage)
        ensures
            r.nodes() == Map::<u32, tree::N>::empty(),
            r.analyzes_ambiguity() == maybe_ambiguous,
            r.reports_performance() == report_performance,
    {
        Storage { ns: HashMap::new(), maybe_ambiguous, report_performance }
    }

    /// Records a goal with what the analysis reads of its predicate, its
    /// result, and whether it is a source of its parent's error.
    pub fn push_goal(
        &mut self,
        proof_node: ProofNode,
        predicate: PredicateShape,
        result: EvaluationResult,
        is_error_source: bool,
    )
        ensures
            final(self).nodes() == old(self).nodes().insert(
                proof_node@,
                tree::N::R { predicate, result, is_error_source },
            ),
            final(self).analyzes_ambiguity() == old(self).analyzes_ambiguity(),
            final(self).reports_performance() == old(self).reports_performance(),
    {
        self.ns.insert(proof_node.index().0, tree::N::R { predicate, result, is_error_source });
    }

    /// Records a candidate of the given kind and result, kept by the
    /// analysis as `retains_candidate` decides from its nested goals.
    pub fn push_candidate(
        &mut self,
        proof_node: ProofNode,
        kind: ProbeKind,
        result: EvaluationResult,
        nested: &Vec<(NestedGoalSource, EvaluationResult)>,
    )
        ensures
            final(self).nodes() == old(self).nodes().insert(
                proof_node@,
                tree::N::C {
                    kind,
                    result,
                    retain: retains_candidate(old(self).analyzes_ambiguity(), result, nested@),
                },
            ),
            final(self).analyzes_ambiguity() == old(self).analyzes_ambiguity(),
            final(self).reports_performance() == old(self).reports_performance(),
    {
        let retain = candidate_retained(self.maybe_ambiguous, &result, nested);
        self.ns.insert(proof_node.index().0, tree::N::C { kind, result, retain });
    }

    /// The nodes numbered below `count`, in order, when each of them was
    /// recorded; `None` when one is missing.
    pub fn nodes_below(&self, count: u32) -> (r: Option<Vec<tree::N>>)
        ensures
            r is Some <==> forall|i: u32| i < count ==> #[trigger] self.nodes().contains_key(i),
            r matches Some(v) ==> v@.len() == count && forall|i: u32|
                i < count ==> v@[i as int] == #[trigger] self.nodes()[i],
    {
        let mut v: Vec<tree::N> = Vec::new();
        let mut i: u32 = 0;
        while i < count
            invariant
                i <= count,
                v@.len() == i,
                forall|j: u32| j < i ==> #[trigger] self.nodes().contains_key(j),
                forall|j: u32| j < i ==> v@[j as int] == #[trigger] self.nodes()[j],
            decreases count - i,
        {
            match self.ns.get(&i) {
                Some(n) => v.push(*n),
                None => {
                    assert(!self.nodes().contains_key(i));
                    return None;
                },
            }
            i = i + 1;
        }
        Some(v)
    }
}

} // verus!
