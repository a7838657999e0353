//! The correction-set tree: conjunctions and disjunctions of failed goals.
use vstd::prelude::*;

use super::{
    AnalysisResults, all_atoms, all_hold, and_all, and_fold, law_and_fold_nonempty, lemma_atoms_and, lemma_atoms_join, conjoin, distribute_all, dnf_holds, join_all, law_and_holds,
    law_join_holds, lemma_distribute_nonempty, lemma_join_conjoins,
};
use crate::proof_tree::topology::{raw_seq, reaches_root_within, TreeTopology};
use crate::proof_tree::ProofNodeIdx;
use crate::types::{
    is_maybe, is_no, is_yes, spec_is_maybe, spec_is_no, spec_is_yes, CandidateSource,
    EvaluationResult, PredicateShape, ProbeKind,
};

verus! {

/// The node index type of the analysis tree.
pub type I = ProofNodeIdx;

/// A conjunction of failed goals.
pub struct And(Vec<I>);

/// A disjunction of conjunctions of failed goals.
pub struct Dnf(Vec<And>);

impl View for And {
    type V = Seq<I>;

    closed spec fn view(&self) -> Seq<I> {
        self.0@
    }
}

impl View for Dnf {
    type V = Seq<Seq<I>>;

    closed spec fn view(&self) -> Seq<Seq<I>> {
        self.0@.map_values(|a: And| a@)
    }
}

/// The formula of an optional formula.
pub open spec fn opt_view(r: Option<Dnf>) -> Option<Seq<Seq<I>>> {
    match r {
        Some(d) => Some(d@),
        None => None,
    }
}

/// The formulas of a list of formulas.
pub open spec fn dnf_views(vs: Seq<Dnf>) -> Seq<Seq<Seq<I>>> {
    vs.map_values(|d: Dnf| d@)
}

/// Concatenates two conjuncts.
fn concat(a: &Vec<I>, b: &Vec<I>) -> (r: Vec<I>)
    ensures
        r@ == a@ + b@,
{
    assert(a@ + Seq::<I>::empty() =~= a@);
    let mut r: Vec<I> = Vec::new();
    let mut i: usize = 0;
    while i < a.len()
        invariant
            i <= a@.len(),
            r@ == a@.subrange(0, i as int),
        decreases a@.len() - i,
    {
        r.push(a[i]);
        i = i + 1;
    }
    let mut j: usize = 0;
    while j < b.len()
        invariant
            i == a@.len(),
            j <= b@.len(),
            r@ == a@ + b@.subrange(0, j as int),
        decreases b@.len() - j,
    {
        r.push(b[j]);
        j = j + 1;
    }
    assert(a@.subrange(0, a@.len() as int) =~= a@);
    assert(b@.subrange(0, b@.len() as int) =~= b@);
    r
}

proof fn lemma_push_view(s: Seq<And>, a: And)
    ensures
        s.push(a).map_values(|x: And| x@) == s.map_values(|x: And| x@).push(a@),
{
    let l = s.push(a).map_values(|x: And| x@);
    let r = s.map_values(|x: And| x@).push(a@);
    assert forall|k: int| 0 <= k < l.len() implies l[k] == r[k] by {
        if k < s.len() {
            assert(s.push(a)[k] == s[k]);
        }
    }
    assert(l =~= r);
}

proof fn lemma_push_dnf_view(s: Seq<Dnf>, a: Dnf)
    ensures
        dnf_views(s.push(a)) == dnf_views(s).push(a@),
{
    let l = dnf_views(s.push(a));
    let r = dnf_views(s).push(a@);
    assert forall|k: int| 0 <= k < l.len() implies l[k] == r[k] by {
        if k < s.len() {
            assert(s.push(a)[k] == s[k]);
        }
    }
    assert(l =~= r);
}

impl And {
    /// The atoms of the conjunction.
    pub fn atoms(&self) -> (r: &Vec<I>)
        ensures
            r@ == self@,
    {
        &self.0
    }

    /// A copy of the conjunction.
    fn duplicate(&self) -> (r: And)
        ensures
            r@ == self@,
    {
        And(concat(&self.0, &Vec::new()))
    }

    /// Prefixes this conjunct to each conjunct of `rhs`.
    fn distribute(&self, rhs: &Dnf) -> (r: Dnf)
        ensures
            r@ == conjoin(self@, rhs@),
    {
        let mut out: Vec<And> = Vec::new();
        let mut i: usize = 0;
        while i < rhs.0.len()
            invariant
                i <= rhs.0@.len(),
                out@.len() == i,
                forall|k: int|
                    0 <= k < i ==> #[trigger] out@[k]@ == self@ + rhs.0@[k]@,
            decreases rhs.0@.len() - i,
        {
            out.push(And(concat(&self.0, &rhs.0[i].0)));
            i = i + 1;
        }
        let r = Dnf(out);
        assert(r@ =~= conjoin(self@, rhs@));
        r
    }
}

impl Dnf {
    /// A copy of the formula.
    fn duplicate(&self) -> (r: Dnf)
        ensures
            r@ == self@,
    {
        let mut out: Vec<And> = Vec::new();
        let mut i: usize = 0;
        while i < self.0.len()
            invariant
                i <= self.0@.len(),
                out@.map_values(|a: And| a@) == self@.subrange(0, i as int),
            decreases self.0@.len() - i,
        {
            let c = self.0[i].duplicate();
            proof {
                lemma_push_view(out@, c);
                assert(self@.subrange(0, i + 1) =~= self@.subrange(0, i as int).push(c@));
            }
            out.push(c);
            i = i + 1;
        }
        assert(self@.subrange(0, self@.len() as int) =~= self@);
        Dnf(out)
    }

    /// The conjunctions, in order.
    pub fn into_iter_conjuncts(self) -> (r: Vec<And>)
        ensures
            r@.map_values(|a: And| a@) == self@,
    {
        self.0
    }

    /// The disjunction of `vs`; `None` when no conjunct is left.
    pub fn or(vs: Vec<Dnf>) -> (r: Option<Dnf>)
        ensures
            match r {
                Some(d) => d@ == join_all(dnf_views(vs@)) && d@.len() > 0,
                None => join_all(dnf_views(vs@)).len() == 0,
            },
    {
        let ghost views = dnf_views(vs@);
        let mut out: Vec<And> = Vec::new();
        let n = vs.len();
        let mut k: usize = 0;
        while k < n
            invariant
                n == vs@.len(),
                n == views.len(),
                views == dnf_views(vs@),
                k <= n,
                out@.map_values(|a: And| a@) == join_all(views.subrange(0, k as int)),
            decreases n - k,
        {
            let d = &vs[k];
            let ghost before = out@.map_values(|a: And| a@);
            let m = d.0.len();
            let mut j: usize = 0;
            while j < m
                invariant
                    m == d.0@.len(),
                    j <= m,
                    out@.map_values(|a: And| a@) == before + d@.subrange(0, j as int),
                decreases m - j,
            {
                let c = d.0[j].duplicate();
                proof {
                    lemma_push_view(out@, c);
                    assert(before + d@.subrange(0, j + 1) =~= (before + d@.subrange(0, j as int)).push(c@));
                }
                out.push(c);
                j = j + 1;
            }
            proof {
                assert(d@.subrange(0, j as int) =~= d@);
                assert(views.subrange(0, k + 1).drop_last() =~= views.subrange(0, k as int));
            }
            k = k + 1;
        }
        assert(views.subrange(0, n as int) =~= views);
        if out.len() == 0 {
            None
        } else {
            let r = Dnf(out);
            Some(r)
        }
    }

    /// The conjunction of two formulas; `None` when it has no conjunct.
    fn distribute(self, other: Self) -> (r: Option<Self>)
        ensures
            match r {
                Some(d) => d@ == distribute_all(self@, other@) && d@.len() > 0,
                None => distribute_all(self@, other@).len() == 0,
            },
    {
        let mut parts: Vec<Dnf> = Vec::new();
        let mut i: usize = 0;
        while i < self.0.len()
            invariant
                i <= self.0@.len(),
                dnf_views(parts@) == self@.subrange(0, i as int).map_values(
                    |l: Seq<I>| conjoin(l, other@),
                ),
            decreases self.0@.len() - i,
        {
            let d = self.0[i].distribute(&other);
            proof {
                lemma_push_dnf_view(parts@, d);
                assert(self@.subrange(0, i + 1).map_values(|l: Seq<I>| conjoin(l, other@))
                    =~= self@.subrange(0, i as int).map_values(|l: Seq<I>| conjoin(l, other@)).push(d@));
            }
            parts.push(d);
            i = i + 1;
        }
        assert(self@.subrange(0, self@.len() as int) =~= self@);
        proof {
            lemma_join_conjoins(self@, other@);
        }
        Self::or(parts)
    }

    /// The conjunction of `vs`: see `and_fold`; `None` when `vs` is empty or
    /// a product is left with no conjunct.
    pub fn and(vs: Vec<Dnf>) -> (r: Option<Dnf>)
        ensures
            match r {
                Some(d) => and_fold(dnf_views(vs@)) == Some(d@),
                None => and_fold(dnf_views(vs@)) is None,
            },
    {
        let ghost views = dnf_views(vs@);
        let n = vs.len();
        let mut acc: Option<Dnf> = None;
        let mut i: usize = 0;
        while i < n
            invariant
                n == vs@.len(),
                n == views.len(),
                views == dnf_views(vs@),
                i <= n,
                match acc {
                    Some(d) => and_fold(views.subrange(0, i as int)) == Some(d@),
                    None => and_fold(views.subrange(0, i as int)) is None,
                },
            decreases n - i,
        {
            let d = vs[i].duplicate();
            let ghost pre = views.subrange(0, i as int);
            let ghost next = views.subrange(0, i + 1);
            proof {
                assert(views[i as int] == d@);
                assert(next.drop_last() =~= pre);
                assert(next.last() == d@);
            }
            acc = match acc {
                None => Some(d),
                Some(lhs) => lhs.distribute(d),
            };
            i = i + 1;
        }
        assert(views.subrange(0, n as int) =~= views);
        acc
    }

    /// The formula with the single atom `i`.
    pub fn single(i: I) -> (r: Dnf)
        ensures
            r@ == seq![seq![i]],
    {
        let mut v: Vec<I> = Vec::new();
        v.push(i);
        let mut c: Vec<And> = Vec::new();
        c.push(And(v));
        let r = Dnf(c);
        assert(r@ =~= seq![seq![i]]);
        r
    }
}


/// Whether a failing goal's type or trait can be changed by the user.
#[derive(Clone, Copy, Debug, PartialEq, Eq, Structural, Hash)]
pub enum Location {
    Local,
    External,
}

/// The kind of change that fixing a failed goal asks for.
#[derive(Clone, Copy, Debug, PartialEq, Eq, Structural, Hash)]
pub enum GoalKind {
    Trait { _self: Location, _trait: Location },
    TyChange,
    FnToTrait { _trait: Location },
    TyAsCallable { arity: usize },
    FnParamDel { d: usize },
    Misc,
}

/// How costly a change of the given kind is: local changes are cheapest,
/// changes to external items and to types cost more.
pub open spec fn weight_of(k: GoalKind) -> int {
    match k {
        GoalKind::Trait { _self: Location::Local, _trait: Location::Local } => 0,
        GoalKind::Trait { _self: Location::Local, _trait: Location::External } => 1,
        GoalKind::Trait { _self: Location::External, _trait: Location::Local } => 2,
        GoalKind::FnToTrait { _trait: Location::Local } => 2,
        GoalKind::Trait { _self: Location::External, _trait: Location::External } => 3,
        GoalKind::FnToTrait { _trait: Location::External } => 4,
        GoalKind::TyChange => 4,
        GoalKind::FnParamDel { d } => 4 * d,
        GoalKind::TyAsCallable { arity } => 10 + arity,
        GoalKind::Misc => 20,
    }
}

impl GoalKind {
    /// The cost of this change; it must fit in a `usize`.
    pub fn weight(&self) -> (r: usize)
        requires
            weight_of(*self) <= usize::MAX,
        ensures
            r == weight_of(*self),
    {
        match self {
            GoalKind::Trait { _self: Location::Local, _trait: Location::Local } => 0,
            GoalKind::Trait { _self: Location::Local, _trait: Location::External } => 1,
            GoalKind::Trait { _self: Location::External, _trait: Location::Local }
            | GoalKind::FnToTrait { _trait: Location::Local } => 2,
            GoalKind::Trait { _self: Location::External, _trait: Location::External } => 3,
            GoalKind::FnToTrait { _trait: Location::External } | GoalKind::TyChange => 4,
            GoalKind::FnParamDel { d } => 4 * *d,
            GoalKind::TyAsCallable { arity } => 10 + *arity,
            GoalKind::Misc => 20,
        }
    }
}

/// The location of an item that is local or not.
pub open spec fn location_of(local: bool) -> Location {
    if local {
        Location::Local
    } else {
        Location::External
    }
}

/// The arity expected by a `Fn` trait, the largest `usize` when unknown.
pub open spec fn trait_arity_or_max(a: Option<usize>) -> usize {
    match a {
        Some(n) => n,
        None => usize::MAX,
    }
}

/// The kind of change that a failed predicate asks for.
pub open spec fn classify(p: PredicateShape) -> GoalKind {
    match p {
        PredicateShape::Trait {
            positive,
            is_fn_trait,
            self_fn_arity,
            fn_trait_arity,
            self_is_local,
            trait_is_local,
        } => {
            if !positive {
                GoalKind::Misc
            } else if is_fn_trait && self_fn_arity is Some {
                let fa = self_fn_arity->0;
                let ta = trait_arity_or_max(fn_trait_arity);
                if fa > ta {
                    GoalKind::FnParamDel { d: (fa - ta) as usize }
                } else {
                    GoalKind::Misc
                }
            } else if is_fn_trait {
                GoalKind::TyAsCallable { arity: trait_arity_or_max(fn_trait_arity) }
            } else if self_fn_arity is Some {
                GoalKind::FnToTrait { _trait: location_of(trait_is_local) }
            } else {
                GoalKind::Trait {
                    _self: location_of(self_is_local),
                    _trait: location_of(trait_is_local),
                }
            }
        },
        PredicateShape::Projection => GoalKind::TyChange,
        PredicateShape::Other => GoalKind::Misc,
    }
}

/// A failed positive trait goal that is not about callables asks for an
/// impl: of the trait for the self type when the self type is no function,
/// where each location is local exactly when that item is; of the trait for
/// the function otherwise, local exactly when the trait is. Neither location
/// depends on the other item.
pub proof fn law_trait_goal_locations(p: PredicateShape)
    requires
        p matches PredicateShape::Trait { positive, is_fn_trait, .. } && positive && !is_fn_trait,
    ensures
        p matches PredicateShape::Trait { self_fn_arity, self_is_local, trait_is_local, .. } && (
        self_fn_arity is None ==> (classify(p) matches GoalKind::Trait { _self, _trait } && (_self
            == Location::Local <==> self_is_local) && (_trait == Location::Local <==> trait_is_local)))
            && (self_fn_arity is Some ==> (classify(p) matches GoalKind::FnToTrait { _trait } && (
        _trait == Location::Local <==> trait_is_local))),
{
}

fn location(local: bool) -> (r: Location)
    ensures
        r == location_of(local),
{
    if local {
        Location::Local
    } else {
        Location::External
    }
}

/// A failed goal and the kind of change it asks for.
#[derive(Clone, Copy, Debug)]
pub struct Heuristic {
    pub idx: I,
    pub kind: GoalKind,
}

/// The cost of a correction set: the summed weights of its goals
/// (`momentum`) and the depth of its deepest goal (`velocity`).
#[derive(Debug)]
pub struct SetHeuristic {
    pub momentum: usize,
    pub velocity: usize,
    pub goals: Vec<Heuristic>,
}

/// A node of the analysis tree: a candidate that the solver tried, or a
/// goal (with what the analysis reads of its predicate).
#[derive(Clone, Copy, Debug)]
pub enum N {
    C { kind: ProbeKind, result: EvaluationResult, retain: bool },
    R {
        predicate: PredicateShape,
        result: EvaluationResult,
        /// Among its sibling goals, this goal is a source of the error.
        is_error_source: bool,
    },
}

/// The analysis tree: the nodes, their topology and the root goal.
pub struct T<'a> {
    pub root: I,
    pub ns: &'a Vec<N>,
    pub topology: &'a TreeTopology,
    pub maybe_ambiguous: bool,
}

/// A goal of the analysis tree.
pub struct Goal<'a> {
    idx: I,
    result: EvaluationResult,
    tree: &'a T<'a>,
    predicate: PredicateShape,
}

/// A candidate of the analysis tree.
pub struct Candidate<'a> {
    idx: I,
    retain: bool,
    result: EvaluationResult,
    tree: &'a T<'a>,
    kind: ProbeKind,
}

impl<'a> Goal<'a> {
    #[verifier::type_invariant]
    spec fn goal_inv(self) -> bool {
        &&& self.tree.is_goal(self.idx.0)
        &&& self.result == self.tree.result_at(self.idx.0)
        &&& self.predicate == self.tree.shape_at(self.idx.0)
    }

    /// The node index of the goal.
    pub closed spec fn node(&self) -> I {
        self.idx
    }

    /// The evaluation result of the goal.
    pub closed spec fn outcome(&self) -> EvaluationResult {
        self.result
    }

    /// What the analysis reads of the goal's predicate.
    pub closed spec fn shape(&self) -> PredicateShape {
        self.predicate
    }

    /// The tree the goal belongs to.
    pub closed spec fn in_tree(&self) -> T<'a> {
        *self.tree
    }

    /// Every candidate tried for this goal, in no particular order.
    pub fn all_candidates(&self) -> (r: Vec<Candidate<'a>>)
        requires
            self.in_tree().children_exist(self.node().0),
        ensures
            forall|k: int|
                0 <= k < r@.len() ==> self.in_tree().topology.children_of(self.node().0).contains(
                    (#[trigger] r@[k]).node().0,
                ) && r@[k].in_tree() == self.in_tree(),
            forall|c: u32|
                #[trigger] self.in_tree().topology.children_of(self.node().0).contains(c)
                    && self.in_tree().is_candidate(c) ==> exists|k: int|
                    0 <= k < r@.len() && (#[trigger] r@[k]).node().0 == c,
    {
        collect_candidates(self.tree, self.idx, false)
    }

    /// The candidates of this goal that the analysis retains.
    pub fn interesting_candidates(&self) -> (r: Vec<Candidate<'a>>)
        requires
            self.in_tree().children_exist(self.node().0),
        ensures
            forall|k: int|
                0 <= k < r@.len() ==> self.in_tree().topology.children_of(self.node().0).contains(
                    (#[trigger] r@[k]).node().0,
                ) && r@[k].in_tree() == self.in_tree() && self.in_tree().retained(r@[k].node().0),
            forall|c: u32|
                #[trigger] self.in_tree().topology.children_of(self.node().0).contains(c)
                    && self.in_tree().is_candidate(c) && self.in_tree().retained(c) ==> exists|k: int|
                    0 <= k < r@.len() && (#[trigger] r@[k]).node().0 == c,
    {
        collect_candidates(self.tree, self.idx, true)
    }

    /// What the analysis reads of the goal's predicate.
    pub fn predicate(&self) -> (r: PredicateShape)
        ensures
            r == self.shape(),
    {
        self.predicate
    }

    /// The kind of change that fixing this failed goal asks for.
    pub fn analyze(&self) -> (r: Heuristic)
        requires
            !spec_is_yes(self.outcome()),
        ensures
            r.idx == self.node(),
            r.kind == classify(self.shape()),
    {
        let kind = match self.predicate {
            PredicateShape::Trait {
                positive,
                is_fn_trait,
                self_fn_arity,
                fn_trait_arity,
                self_is_local,
                trait_is_local,
            } => {
                let trait_arity = match fn_trait_arity {
                    Some(a) => a,
                    None => usize::MAX,
                };
                if positive && is_fn_trait && self_fn_arity.is_some() {
                    let fn_arity = match self_fn_arity {
                        Some(a) => a,
                        None => 0,
                    };
                    if fn_arity > trait_arity {
                        GoalKind::FnParamDel { d: fn_arity - trait_arity }
                    } else {
                        GoalKind::Misc
                    }
                } else if positive && is_fn_trait {
                    GoalKind::TyAsCallable { arity: trait_arity }
                } else if positive && self_fn_arity.is_some() {
                    GoalKind::FnToTrait { _trait: location(trait_is_local) }
                } else if positive {
                    GoalKind::Trait {
                        _self: location(self_is_local),
                        _trait: location(trait_is_local),
                    }
                } else {
                    GoalKind::Misc
                }
            },
            PredicateShape::Projection => GoalKind::TyChange,
            PredicateShape::Other => GoalKind::Misc,
        };
        Heuristic { idx: self.idx, kind }
    }

    /// The goal reached by climbing from this goal through candidates that
    /// are not builtin impls, two levels (candidate, then goal) at a time.
    pub fn last_ancestor_pre_builtin(&self) -> (r: Self)
        requires
            self.in_tree().alternates(),
            self.in_tree().topology.reaches_root(self.node().0),
        ensures
            r.node().0 == self.in_tree().pre_builtin_from(
                self.node().0,
                self.in_tree().climb_fuel(self.node().0),
            ),
            r.in_tree() == self.in_tree(),
    {
        proof {
            use_type_invariant(self);
        }
        let tree = self.tree;
        let ghost fuel0 = tree.climb_fuel(self.idx.0);
        let ghost mut fuel: nat = fuel0;
        let mut i = self.idx;
        loop
            invariant
                tree.alternates(),
                tree.is_goal(i.0),
                reaches_root_within(tree.topology.parent_map(), i.0, fuel),
                tree.pre_builtin_from(i.0, fuel) == tree.pre_builtin_from(self.idx.0, fuel0),
            ensures
                tree.is_goal(i.0),
                i.0 == tree.pre_builtin_from(self.idx.0, fuel0),
            decreases fuel,
        {
            let parent = match tree.topology.parent(i) {
                Some(p) => p,
                None => break ,
            };
            let not_builtin = match &tree.ns[parent.0 as usize] {
                N::C { kind, .. } => !matches!(
                    kind,
                    ProbeKind::TraitCandidate { source: CandidateSource::BuiltinImpl }
                ),
                N::R { .. } => break ,
            };
            if !not_builtin {
                break ;
            }
            let grandparent = match tree.topology.parent(parent) {
                Some(gp) => gp,
                None => break ,
            };
            proof {
                let pm = tree.topology.parent_map();
                assert(pm.contains_key(i.0) && pm[i.0] == parent.0);
                assert(fuel >= 1);
                assert(reaches_root_within(pm, parent.0, (fuel - 1) as nat));
                assert(pm.contains_key(parent.0) && pm[parent.0] == grandparent.0);
                assert(fuel >= 2);
                assert(reaches_root_within(pm, grandparent.0, (fuel - 2) as nat));
                assert(tree.climbs(i.0));
                assert(tree.is_candidate(parent.0));
                fuel = (fuel - 2) as nat;
            }
            i = grandparent;
        }
        match tree.goal(i) {
            Some(g) => g,
            None => {
                assert(false);
                Goal { idx: i, result: self.result, tree, predicate: self.predicate }
            },
        }
    }
}

impl<'a> Candidate<'a> {
    #[verifier::type_invariant]
    spec fn candidate_inv(self) -> bool {
        &&& self.tree.is_candidate(self.idx.0)
        &&& self.result == self.tree.result_at(self.idx.0)
        &&& self.retain == self.tree.retained(self.idx.0)
    }

    /// The node index of the candidate.
    pub closed spec fn node(&self) -> I {
        self.idx
    }

    /// The evaluation result of the candidate.
    pub closed spec fn outcome(&self) -> EvaluationResult {
        self.result
    }

    /// The tree the candidate belongs to.
    pub closed spec fn in_tree(&self) -> T<'a> {
        *self.tree
    }

    /// Every subgoal of this candidate, in no particular order.
    pub fn all_subgoals(&self) -> (r: Vec<Goal<'a>>)
        requires
            self.in_tree().children_exist(self.node().0),
        ensures
            forall|k: int|
                0 <= k < r@.len() ==> self.in_tree().topology.children_of(self.node().0).contains(
                    (#[trigger] r@[k]).node().0,
                ) && r@[k].in_tree() == self.in_tree(),
            forall|g: u32|
                #[trigger] self.in_tree().topology.children_of(self.node().0).contains(g)
                    && self.in_tree().is_goal(g) ==> exists|k: int|
                    0 <= k < r@.len() && (#[trigger] r@[k]).node().0 == g,
    {
        let tree = self.tree;
        collect_goals(tree, self.idx, false)
    }

    /// The subgoals of this candidate that are sources of its error.
    pub fn source_subgoals(&self) -> (r: Vec<Goal<'a>>)
        requires
            self.in_tree().children_exist(self.node().0),
        ensures
            forall|k: int|
                0 <= k < r@.len() ==> self.in_tree().topology.children_of(self.node().0).contains(
                    (#[trigger] r@[k]).node().0,
                ) && r@[k].in_tree() == self.in_tree() && self.in_tree().error_source(r@[k].node().0),
            forall|g: u32|
                #[trigger] self.in_tree().topology.children_of(self.node().0).contains(g)
                    && self.in_tree().is_goal(g) && self.in_tree().error_source(g) ==> exists|k: int|
                    0 <= k < r@.len() && (#[trigger] r@[k]).node().0 == g,
    {
        let tree = self.tree;
        collect_goals(tree, self.idx, true)
    }
}

/// The goals among the children of `n`; with `sources_only`, only those
/// that are error sources.
fn collect_goals<'a>(tree: &'a T<'a>, n: I, sources_only: bool) -> (r: Vec<Goal<'a>>)
    requires
        tree.children_exist(n.0),
    ensures
        forall|k: int|
            0 <= k < r@.len() ==> tree.topology.children_of(n.0).contains((#[trigger] r@[k]).node().0)
                && r@[k].in_tree() == *tree && (sources_only ==> tree.error_source(r@[k].node().0)),
        forall|g: u32|
            #[trigger] tree.topology.children_of(n.0).contains(g) && tree.is_goal(g) && (sources_only
                ==> tree.error_source(g)) ==> exists|k: int| 0 <= k < r@.len() && (#[trigger] r@[k]).node().0 == g,
{
    let cs = tree.topology.children(n);
    let ghost raw = raw_seq(cs@);
    let mut r: Vec<Goal<'a>> = Vec::new();
    let mut i: usize = 0;
    while i < cs.len()
        invariant
            tree.children_exist(n.0),
            raw == raw_seq(cs@),
            raw.to_set() == tree.topology.children_of(n.0),
            i <= cs@.len(),
            forall|k: int|
                0 <= k < r@.len() ==> tree.topology.children_of(n.0).contains((#[trigger] r@[k]).node().0)
                    && r@[k].in_tree() == *tree && (sources_only ==> tree.error_source(r@[k].node().0)),
            forall|g: u32|
                #[trigger] tree.topology.children_of(n.0).contains(g) && tree.is_goal(g) && (sources_only
                    ==> tree.error_source(g)) && raw.take(i as int).contains(g) ==> exists|k: int|
                    0 <= k < r@.len() && (#[trigger] r@[k]).node().0 == g,
        decreases cs@.len() - i,
    {
        let c = cs[i];
        assert(raw[i as int] == c.0);
        assert(raw.to_set().contains(c.0));
        let ghost before = r@;
        match tree.goal(c) {
            Some(g) => {
                let keep = if sources_only {
                    match &tree.ns[c.0 as usize] {
                        N::R { is_error_source, .. } => *is_error_source,
                        N::C { .. } => false,
                    }
                } else {
                    true
                };
                if keep {
                    r.push(g);
                }
            },
            None => {},
        }
        proof {
            assert forall|g: u32|
                #[trigger] tree.topology.children_of(n.0).contains(g) && tree.is_goal(g) && (
                sources_only ==> tree.error_source(g)) && raw.take(i + 1).contains(g) implies exists|k: int|
                0 <= k < r@.len() && (#[trigger] r@[k]).node().0 == g by {
                if g == c.0 {
                    assert(r@[r@.len() - 1].node().0 == g);
                } else {
                    let w = choose|w: int| 0 <= w < i + 1 && #[trigger] raw.take(i + 1)[w] == g;
                    assert(raw.take(i as int)[w] == g);
                    let k = choose|k: int| 0 <= k < before.len() && (#[trigger] before[k]).node().0 == g;
                    assert(r@[k] == before[k]);
                }
            }
        }
        i = i + 1;
    }
    proof {
        assert(raw.take(cs@.len() as int) =~= raw);
        assert forall|g: u32|
            #[trigger] tree.topology.children_of(n.0).contains(g) && tree.is_goal(g) && (sources_only
                ==> tree.error_source(g)) implies exists|k: int| 0 <= k < r@.len() && (#[trigger] r@[k]).node().0 == g by {
            assert(raw.to_set().contains(g));
        }
    }
    r
}

/// The candidates among the children of `n`; with `retained_only`, only
/// those that the analysis retains.
fn collect_candidates<'a>(tree: &'a T<'a>, n: I, retained_only: bool) -> (r: Vec<Candidate<'a>>)
    requires
        tree.children_exist(n.0),
    ensures
        forall|k: int|
            0 <= k < r@.len() ==> tree.topology.children_of(n.0).contains((#[trigger] r@[k]).node().0)
                && r@[k].in_tree() == *tree && (retained_only ==> tree.retained(r@[k].node().0)),
        forall|g: u32|
            #[trigger] tree.topology.children_of(n.0).contains(g) && tree.is_candidate(g) && (retained_only
                ==> tree.retained(g)) ==> exists|k: int| 0 <= k < r@.len() && (#[trigger] r@[k]).node().0 == g,
{
    let cs = tree.topology.children(n);
    let ghost raw = raw_seq(cs@);
    let mut r: Vec<Candidate<'a>> = Vec::new();
    let mut i: usize = 0;
    while i < cs.len()
        invariant
            tree.children_exist(n.0),
            raw == raw_seq(cs@),
            raw.to_set() == tree.topology.children_of(n.0),
            i <= cs@.len(),
            forall|k: int|
                0 <= k < r@.len() ==> tree.topology.children_of(n.0).contains((#[trigger] r@[k]).node().0)
                    && r@[k].in_tree() == *tree && (retained_only ==> tree.retained(r@[k].node().0)),
            forall|g: u32|
                #[trigger] tree.topology.children_of(n.0).contains(g) && tree.is_candidate(g) && (retained_only
                    ==> tree.retained(g)) && raw.take(i as int).contains(g) ==> exists|k: int|
                    0 <= k < r@.len() && (#[trigger] r@[k]).node().0 == g,
        decreases cs@.len() - i,
    {
        let c = cs[i];
        assert(raw[i as int] == c.0);
        assert(raw.to_set().contains(c.0));
        let ghost before = r@;
        match tree.candidate(c) {
            Some(g) => {
                proof {
                    use_type_invariant(&g);
                }
                let keep = if retained_only {
                    g.retain
                } else {
                    true
                };
                if keep {
                    r.push(g);
                }
            },
            None => {},
        }
        proof {
            assert forall|g: u32|
                #[trigger] tree.topology.children_of(n.0).contains(g) && tree.is_candidate(g) && (
                retained_only ==> tree.retained(g)) && raw.take(i + 1).contains(g) implies exists|k: int|
                0 <= k < r@.len() && (#[trigger] r@[k]).node().0 == g by {
                if g == c.0 {
                    assert(r@[r@.len() - 1].node().0 == g);
                } else {
                    let w = choose|w: int| 0 <= w < i + 1 && #[trigger] raw.take(i + 1)[w] == g;
                    assert(raw.take(i as int)[w] == g);
                    let k = choose|k: int| 0 <= k < before.len() && (#[trigger] before[k]).node().0 == g;
                    assert(r@[k] == before[k]);
                }
            }
        }
        i = i + 1;
    }
    proof {
        assert(raw.take(cs@.len() as int) =~= raw);
        assert forall|g: u32|
            #[trigger] tree.topology.children_of(n.0).contains(g) && tree.is_candidate(g) && (retained_only
                ==> tree.retained(g)) implies exists|k: int| 0 <= k < r@.len() && (#[trigger] r@[k]).node().0 == g by {
            assert(raw.to_set().contains(g));
        }
    }
    r
}

impl<'a> T<'a> {
    /// The predicate shape of goal `i`.
    pub open spec fn shape_at(&self, i: u32) -> PredicateShape {
        match self.ns@[i as int] {
            N::R { predicate, .. } => predicate,
            N::C { .. } => PredicateShape::Other,
        }
    }

    /// A candidate is not a builtin impl.
    pub open spec fn not_builtin(kind: ProbeKind) -> bool {
        !(kind matches ProbeKind::TraitCandidate { source: CandidateSource::BuiltinImpl })
    }

    /// From goal `i` the climb goes on: its parent is a candidate that is not
    /// a builtin impl, and that candidate has a parent.
    pub open spec fn climbs(&self, i: u32) -> bool {
        let parent = self.topology.parent_map();
        &&& parent.contains_key(i)
        &&& self.ns@[parent[i] as int] matches N::C { kind, .. } && Self::not_builtin(kind)
        &&& parent.contains_key(parent[i])
    }

    /// Where climbing from `i` stops, with at most `fuel` parent steps.
    pub open spec fn pre_builtin_from(&self, i: u32, fuel: nat) -> u32
        decreases fuel,
    {
        if self.climbs(i) && fuel >= 2 {
            self.pre_builtin_from(
                self.topology.parent_map()[self.topology.parent_map()[i]],
                (fuel - 2) as nat,
            )
        } else {
            i
        }
    }

    /// A number of steps after which following parents from `i` ends.
    pub open spec fn climb_fuel(&self, i: u32) -> nat {
        choose|fuel: nat| reaches_root_within(self.topology.parent_map(), i, fuel)
    }

    /// Every recorded parent exists, and the parent of a candidate is a goal.
    pub open spec fn alternates(&self) -> bool {
        let parent = self.topology.parent_map();
        &&& forall|k: u32| #[trigger] parent.contains_key(k) ==> parent[k] < self.ns@.len()
        &&& forall|k: u32|
            #[trigger] parent.contains_key(k) && self.is_candidate(k) ==> self.is_goal(parent[k])
    }

    /// Node `c` is a candidate that the analysis retains.
    pub open spec fn retained(&self, c: u32) -> bool {
        self.ns@[c as int] matches N::C { retain, .. } && retain
    }

    /// Every child of `n` exists.
    pub open spec fn children_exist(&self, n: u32) -> bool {
        forall|c: u32| #[trigger] self.topology.children_of(n).contains(c) ==> c < self.ns@.len()
    }

    /// Node `g` is a goal marked as a source of its parent's error.
    pub open spec fn error_source(&self, g: u32) -> bool {
        self.ns@[g as int] matches N::R { is_error_source, .. } && is_error_source
    }

    /// Node `i` exists and is a goal.
    pub open spec fn is_goal(&self, i: u32) -> bool {
        i < self.ns@.len() && self.ns@[i as int] is R
    }

    /// Node `i` exists and is a candidate.
    pub open spec fn is_candidate(&self, i: u32) -> bool {
        i < self.ns@.len() && self.ns@[i as int] is C
    }

    /// The evaluation result of node `i`.
    pub open spec fn result_at(&self, i: u32) -> EvaluationResult {
        match self.ns@[i as int] {
            N::C { result, .. } => result,
            N::R { result, .. } => result,
        }
    }

    /// Goal `i` failed (or, when ambiguity is analyzed, was ambiguous).
    pub open spec fn failing_goal(&self, i: u32) -> bool {
        self.is_goal(i) && ((self.maybe_ambiguous && spec_is_maybe(self.result_at(i)))
            || spec_is_no(self.result_at(i)))
    }

    /// Goal `g` is a child of candidate `c`, an error source, and failing.
    pub open spec fn active_subgoal_of(&self, c: u32, g: u32) -> bool {
        &&& self.topology.children_of(c).contains(g)
        &&& self.failing_goal(g)
        &&& self.ns@[g as int] matches N::R { is_error_source, .. } && is_error_source
    }

    /// Candidate `c` did not succeed and has a failing source subgoal.
    pub open spec fn active_candidate(&self, c: u32) -> bool {
        &&& self.is_candidate(c)
        &&& !spec_is_yes(self.result_at(c))
        &&& exists|g: u32| #[trigger] self.active_subgoal_of(c, g)
    }

    /// Candidate `c` is a retained child of goal `g` and is active.
    pub open spec fn active_candidate_of(&self, g: u32, c: u32) -> bool {
        &&& self.topology.children_of(g).contains(c)
        &&& self.ns@[c as int] matches N::C { retain, .. } && retain
        &&& self.active_candidate(c)
    }

    /// Goal `g` becomes satisfied when the goals for which `f` holds are fixed:
    /// through one of its active candidates, or, when it has none, by being
    /// fixed itself.
    pub open spec fn goal_holds(&self, g: u32, f: spec_fn(I) -> bool, fuel: nat) -> bool
        decreases fuel,
    {
        if fuel == 0 {
            false
        } else if exists|c: u32| #[trigger] self.active_candidate_of(g, c) {
            exists|c: u32|
                #[trigger] self.active_candidate_of(g, c) && self.candidate_holds(
                    c,
                    f,
                    (fuel - 1) as nat,
                )
        } else {
            f(ProofNodeIdx(g))
        }
    }

    /// Candidate `c` succeeds when all its active subgoals become satisfied.
    pub open spec fn candidate_holds(&self, c: u32, f: spec_fn(I) -> bool, fuel: nat) -> bool
        decreases fuel,
    {
        if fuel == 0 {
            false
        } else {
            forall|g: u32|
                #[trigger] self.active_subgoal_of(c, g) ==> self.goal_holds(g, f, (fuel - 1) as nat)
        }
    }

    /// Below `n`, every path has fewer than `fuel` nodes and every node exists.
    pub open spec fn bounded(&self, n: u32, fuel: nat) -> bool
        decreases fuel,
    {
        &&& fuel > 0
        &&& n < self.ns@.len()
        &&& forall|c: u32|
            #[trigger] self.topology.children_of(n).contains(c) ==> self.bounded(
                c,
                (fuel - 1) as nat,
            )
    }

    /// Node `a` is `n`, or lies below `n` within `fuel` steps down the
    /// children.
    pub open spec fn below(&self, n: u32, a: u32, fuel: nat) -> bool
        decreases fuel,
    {
        a == n || (fuel > 0 && exists|c: u32|
            #[trigger] self.topology.children_of(n).contains(c) && self.below(
                c,
                a,
                (fuel - 1) as nat,
            ))
    }

    /// Node `a` is a failing goal that none of its own candidates accounts
    /// for.
    pub open spec fn unexplained_failure(&self, a: u32) -> bool {
        self.failing_goal(a) && !exists|c: u32| #[trigger] self.active_candidate_of(a, c)
    }

    /// `a` may stand in a correction set of the tree below `n`: it is an
    /// unexplained failing goal at or below `n`.
    pub open spec fn correction_atom(&self, n: u32, a: I, fuel: nat) -> bool {
        self.unexplained_failure(a.0) && self.below(n, a.0, fuel)
    }

    /// The atoms that may stand in a correction set of the tree below `n`.
    pub open spec fn atom_below(&self, n: u32, fuel: nat) -> spec_fn(I) -> bool {
        |a: I| self.correction_atom(n, a, fuel)
    }

    /// The correction-set formula of goal `g` as the analysis builds it:
    /// `None` when the goal does not fail; else the disjunction of the
    /// formulas of its retained candidates that have one, in the order of
    /// its children, or the goal alone when none has.
    pub open spec fn goal_formula(&self, g: u32, fuel: nat) -> Option<Seq<Seq<I>>>
        decreases fuel, 0nat, 0nat,
    {
        if fuel == 0 || !self.failing_goal(g) {
            None
        } else {
            let nested = self.candidate_formulas(self.topology.child_order(g), (fuel - 1) as nat);
            if nested.len() == 0 {
                Some(seq![seq![ProofNodeIdx(g)]])
            } else {
                Some(join_all(nested))
            }
        }
    }

    /// The formulas of the retained candidates among `cs` that have one,
    /// in order.
    pub open spec fn candidate_formulas(&self, cs: Seq<u32>, fuel: nat) -> Seq<Seq<Seq<I>>>
        decreases fuel, 2nat, cs.len(),
    {
        if cs.len() == 0 {
            Seq::empty()
        } else {
            let rest = self.candidate_formulas(cs.drop_last(), fuel);
            let c = cs.last();
            if self.retained(c) {
                match self.candidate_formula(c, fuel) {
                    Some(d) => rest.push(d),
                    None => rest,
                }
            } else {
                rest
            }
        }
    }

    /// The formula of candidate `c`: `None` when it holds or none of its
    /// subgoals that are error sources has a formula; else the conjunction
    /// of those formulas, distributed in the order of its children.
    pub open spec fn candidate_formula(&self, c: u32, fuel: nat) -> Option<Seq<Seq<I>>>
        decreases fuel, 1nat, 0nat,
    {
        if fuel == 0 || spec_is_yes(self.result_at(c)) {
            None
        } else {
            let nested = self.goal_formulas(self.topology.child_order(c), (fuel - 1) as nat);
            if nested.len() == 0 {
                None
            } else {
                Some(and_all(nested))
            }
        }
    }

    /// The formulas of the error-source goals among `gs` that have one, in
    /// order.
    pub open spec fn goal_formulas(&self, gs: Seq<u32>, fuel: nat) -> Seq<Seq<Seq<I>>>
        decreases fuel, 2nat, gs.len(),
    {
        if gs.len() == 0 {
            Seq::empty()
        } else {
            let rest = self.goal_formulas(gs.drop_last(), fuel);
            let g = gs.last();
            if self.error_source(g) {
                match self.goal_formula(g, fuel) {
                    Some(d) => rest.push(d),
                    None => rest,
                }
            } else {
                rest
            }
        }
    }

    /// The correction sets of the tree: the formula of the root goal, or
    /// none when the root does not fail.
    pub open spec fn root_formula(&self) -> Seq<Seq<I>> {
        match self.goal_formula(self.root.0, self.root_fuel()) {
            Some(d) => d,
            None => Seq::empty(),
        }
    }

    proof fn lemma_atoms_lift(&self, n: u32, c: u32, d: Seq<Seq<I>>, fuel: nat)
        requires
            fuel > 0,
            self.topology.children_of(n).contains(c),
            all_atoms(d, self.atom_below(c, (fuel - 1) as nat)),
        ensures
            all_atoms(d, self.atom_below(n, fuel)),
    {
        assert forall|i: int, j: int| 0 <= i < d.len() && 0 <= j < d[i].len() implies #[trigger] (
        self.atom_below(n, fuel))(d[i][j]) by {
            assert((self.atom_below(c, (fuel - 1) as nat))(d[i][j]));
            assert(self.below(c, d[i][j].0, (fuel - 1) as nat));
        }
    }

    /// The tree below the root is finite and all its nodes exist.
    pub open spec fn well_founded(&self) -> bool {
        exists|fuel: nat| self.bounded(self.root.0, fuel)
    }

    /// A depth bound for the tree below the root.
    pub open spec fn root_fuel(&self) -> nat {
        choose|fuel: nat| self.bounded(self.root.0, fuel)
    }

    pub fn goal(&self, i: I) -> (r: Option<Goal<'_>>)
        requires
            i.0 < self.ns@.len(),
        ensures
            r is Some <==> self.is_goal(i.0),
            r matches Some(g) ==> g.node() == i && g.outcome() == self.result_at(i.0) && g.shape()
                == self.shape_at(i.0) && g.in_tree() == *self,
    {
        match &self.ns[i.0 as usize] {
            N::R { predicate, result, .. } => Some(
                Goal { idx: i, result: *result, tree: self, predicate: *predicate },
            ),
            N::C { .. } => None,
        }
    }

    pub fn candidate(&self, i: I) -> (r: Option<Candidate<'_>>)
        requires
            i.0 < self.ns@.len(),
        ensures
            r is Some <==> self.is_candidate(i.0),
            r matches Some(c) ==> c.node() == i && c.outcome() == self.result_at(i.0) && c.in_tree()
                == *self,
    {
        match &self.ns[i.0 as usize] {
            N::C { kind, result, retain } => Some(
                Candidate { idx: i, retain: *retain, result: *result, tree: self, kind: *kind },
            ),
            N::R { .. } => None,
        }
    }

    fn goal_dnf(&self, g: I, Ghost(fuel): Ghost<nat>) -> (r: Option<Dnf>)
        requires
            self.bounded(g.0, fuel),
            self.is_goal(g.0),
        ensures
            r is Some <==> self.failing_goal(g.0),
            r matches Some(d) ==> d@.len() > 0 && forall|f: spec_fn(I) -> bool|
                dnf_holds(d@, f) == #[trigger] self.goal_holds(g.0, f, fuel),
            r matches Some(d) ==> all_atoms(d@, self.atom_below(g.0, fuel)),
            opt_view(r) == self.goal_formula(g.0, fuel),
        decreases fuel, 0nat,
    {
        let result = match &self.ns[g.0 as usize] {
            N::R { result, .. } => *result,
            N::C { result, .. } => *result,
        };
        if !((self.maybe_ambiguous && is_maybe(&result)) || is_no(&result)) {
            return None;
        }
        let cs = self.topology.children(g);
        let ghost raw = raw_seq(cs@);
        let mut nested: Vec<Dnf> = Vec::new();
        let ghost mut picked: Seq<u32> = Seq::empty();
        let mut k: usize = 0;
        while k < cs.len()
            invariant
                self.bounded(g.0, fuel),
                raw == raw_seq(cs@),
                raw.to_set() == self.topology.children_of(g.0),
                k <= cs@.len(),
                nested@.len() == picked.len(),
                forall|j: int|
                    0 <= j < picked.len() ==> #[trigger] self.active_candidate_of(g.0, picked[j]),
                forall|j: int| 0 <= j < picked.len() ==> (#[trigger] nested@[j])@.len() > 0,
                forall|j: int|
                    0 <= j < picked.len() ==> all_atoms(
                        (#[trigger] nested@[j])@,
                        self.atom_below(g.0, fuel),
                    ),
                forall|j: int, f: spec_fn(I) -> bool|
                    0 <= j < picked.len() ==> dnf_holds(#[trigger] nested@[j]@, f)
                        == #[trigger] self.candidate_holds(picked[j], f, (fuel - 1) as nat),
                forall|c: u32|
                    #[trigger] self.active_candidate_of(g.0, c) && raw.take(k as int).contains(c)
                        ==> picked.contains(c),
                raw == self.topology.child_order(g.0),
                dnf_views(nested@) == self.candidate_formulas(raw.take(k as int), (fuel - 1) as nat),
            decreases cs@.len() - k,
        {
            let c = cs[k];
            assert(raw[k as int] == c.0);
            assert(raw.take(k + 1).drop_last() =~= raw.take(k as int));
            assert(raw.take(k + 1).last() == c.0);
            let ghost views_before = dnf_views(nested@);
            assert(raw.to_set().contains(c.0));
            assert(self.bounded(c.0, (fuel - 1) as nat));
            let ghost before = picked;
            match &self.ns[c.0 as usize] {
                N::C { retain, .. } => {
                    if *retain {
                        match self.candidate_dnf(c, Ghost((fuel - 1) as nat)) {
                            Some(d) => {
                                proof {
                                    self.lemma_atoms_lift(g.0, c.0, d@, fuel);
                                    lemma_push_dnf_view(nested@, d);
                                }
                                nested.push(d);
                                proof {
                                    picked = picked.push(c.0);
                                }
                            },
                            None => {},
                        }
                    }
                },
                N::R { .. } => {},
            }
            proof {
                assert forall|x: u32|
                    #[trigger] self.active_candidate_of(g.0, x) && raw.take(k + 1).contains(
                        x,
                    ) implies picked.contains(x) by {
                    if x == c.0 {
                        assert(picked.last() == x);
                    } else {
                        let w = choose|w: int| 0 <= w < k + 1 && #[trigger] raw.take(k + 1)[w] == x;
                        assert(raw.take(k as int)[w] == x);
                        let v = choose|v: int| 0 <= v < before.len() && #[trigger] before[v] == x;
                        assert(picked[v] == x);
                    }
                }
            }
            k = k + 1;
        }
        proof {
            assert(raw.take(cs@.len() as int) =~= raw);
            assert forall|c: u32| #[trigger] self.active_candidate_of(g.0, c) implies picked.contains(c) by {
                assert(raw.to_set().contains(c));
            }
        }
        if nested.len() == 0 {
            let d = Dnf::single(g);
            proof {
                assert(!exists|c: u32| #[trigger] self.active_candidate_of(g.0, c));
                assert forall|i: int, j: int| 0 <= i < d@.len() && 0 <= j < d@[i].len() implies #[trigger] (
                self.atom_below(g.0, fuel))(d@[i][j]) by {
                    assert(d@[i][j] == g);
                    assert(self.correction_atom(g.0, g, fuel));
                }
                assert forall|f: spec_fn(I) -> bool| dnf_holds(d@, f) == #[trigger] self.goal_holds(g.0, f, fuel) by {
                    assert(!exists|c: u32| #[trigger] self.active_candidate_of(g.0, c));
                    if f(g) {
                        assert(all_hold(d@[0], f));
                    }
                    if dnf_holds(d@, f) {
                        let i = choose|i: int| 0 <= i < d@.len() && #[trigger] all_hold(d@[i], f);
                        assert(d@[i][0] == g);
                    }
                }
            }
            Some(d)
        } else {
            let ghost views = dnf_views(nested@);
            proof {
                assert forall|k: int| 0 <= k < views.len() implies all_atoms(
                    #[trigger] views[k],
                    self.atom_below(g.0, fuel),
                ) by {
                    assert(views[k] == nested@[k]@);
                }
                lemma_atoms_join(views, self.atom_below(g.0, fuel));
            }
            let r = Dnf::or(nested);
            match r {
                Some(d) => {
                    proof {
                        assert forall|f: spec_fn(I) -> bool| dnf_holds(d@, f) == #[trigger] self.goal_holds(g.0, f, fuel) by {
                            law_join_holds(views, f);
                            let c0 = picked[0];
                            assert(self.active_candidate_of(g.0, c0));
                            if dnf_holds(d@, f) {
                                let j = choose|j: int| 0 <= j < views.len() && #[trigger] dnf_holds(views[j], f);
                                assert(dnf_holds(nested@[j]@, f));
                                assert(self.candidate_holds(picked[j], f, (fuel - 1) as nat));
                                assert(self.active_candidate_of(g.0, picked[j]));
                            }
                            if self.goal_holds(g.0, f, fuel) {
                                let c = choose|c: u32| #[trigger] self.active_candidate_of(g.0, c) && self.candidate_holds(c, f, (fuel - 1) as nat);
                                assert(picked.contains(c));
                                let j = choose|j: int| 0 <= j < picked.len() && #[trigger] picked[j] == c;
                                assert(dnf_holds(nested@[j]@, f));
                                assert(dnf_holds(views[j], f));
                            }
                        }
                    }
                    Some(d)
                },
                None => {
                    proof {
                        assert(nested@[0]@.len() > 0);
                        assert(views[0] == nested@[0]@);
                        lemma_join_len(views, 0);
                    }
                    None
                },
            }
        }
    }

    fn candidate_dnf(&self, c: I, Ghost(fuel): Ghost<nat>) -> (r: Option<Dnf>)
        requires
            self.bounded(c.0, fuel),
            self.is_candidate(c.0),
        ensures
            r is Some <==> self.active_candidate(c.0),
            r matches Some(d) ==> d@.len() > 0 && forall|f: spec_fn(I) -> bool|
                dnf_holds(d@, f) == #[trigger] self.candidate_holds(c.0, f, fuel),
            r matches Some(d) ==> all_atoms(d@, self.atom_below(c.0, fuel)),
            opt_view(r) == self.candidate_formula(c.0, fuel),
        decreases fuel, 1nat,
    {
        let result = match &self.ns[c.0 as usize] {
            N::R { result, .. } => *result,
            N::C { result, .. } => *result,
        };
        if is_yes(&result) {
            return None;
        }
        let gs = self.topology.children(c);
        let ghost raw = raw_seq(gs@);
        let mut nested: Vec<Dnf> = Vec::new();
        let ghost mut picked: Seq<u32> = Seq::empty();
        let mut k: usize = 0;
        while k < gs.len()
            invariant
                self.bounded(c.0, fuel),
                raw == raw_seq(gs@),
                raw.to_set() == self.topology.children_of(c.0),
                k <= gs@.len(),
                nested@.len() == picked.len(),
                forall|j: int|
                    0 <= j < picked.len() ==> #[trigger] self.active_subgoal_of(c.0, picked[j]),
                forall|j: int| 0 <= j < picked.len() ==> (#[trigger] nested@[j])@.len() > 0,
                forall|j: int|
                    0 <= j < picked.len() ==> all_atoms(
                        (#[trigger] nested@[j])@,
                        self.atom_below(c.0, fuel),
                    ),
                forall|j: int, f: spec_fn(I) -> bool|
                    0 <= j < picked.len() ==> dnf_holds(#[trigger] nested@[j]@, f)
                        == #[trigger] self.goal_holds(picked[j], f, (fuel - 1) as nat),
                forall|g: u32|
                    #[trigger] self.active_subgoal_of(c.0, g) && raw.take(k as int).contains(g)
                        ==> picked.contains(g),
                raw == self.topology.child_order(c.0),
                dnf_views(nested@) == self.goal_formulas(raw.take(k as int), (fuel - 1) as nat),
            decreases gs@.len() - k,
        {
            let g = gs[k];
            assert(raw[k as int] == g.0);
            assert(raw.take(k + 1).drop_last() =~= raw.take(k as int));
            assert(raw.take(k + 1).last() == g.0);
            assert(raw.to_set().contains(g.0));
            assert(self.bounded(g.0, (fuel - 1) as nat));
            let ghost before = picked;
            match &self.ns[g.0 as usize] {
                N::R { is_error_source, .. } => {
                    if *is_error_source {
                        match self.goal_dnf(g, Ghost((fuel - 1) as nat)) {
                            Some(d) => {
                                proof {
                                    self.lemma_atoms_lift(c.0, g.0, d@, fuel);
                                    lemma_push_dnf_view(nested@, d);
                                }
                                nested.push(d);
                                proof {
                                    picked = picked.push(g.0);
                                }
                            },
                            None => {},
                        }
                    }
                },
                N::C { .. } => {},
            }
            proof {
                assert forall|x: u32|
                    #[trigger] self.active_subgoal_of(c.0, x) && raw.take(k + 1).contains(
                        x,
                    ) implies picked.contains(x) by {
                    if x == g.0 {
                        assert(picked.last() == x);
                    } else {
                        let w = choose|w: int| 0 <= w < k + 1 && #[trigger] raw.take(k + 1)[w] == x;
                        assert(raw.take(k as int)[w] == x);
                        let v = choose|v: int| 0 <= v < before.len() && #[trigger] before[v] == x;
                        assert(picked[v] == x);
                    }
                }
            }
            k = k + 1;
        }
        proof {
            assert(raw.take(gs@.len() as int) =~= raw);
            assert forall|g: u32| #[trigger] self.active_subgoal_of(c.0, g) implies picked.contains(g) by {
                assert(raw.to_set().contains(g));
            }
        }
        if nested.len() == 0 {
            proof {
                if self.active_candidate(c.0) {
                    let g = choose|g: u32| #[trigger] self.active_subgoal_of(c.0, g);
                    assert(picked.contains(g));
                }
            }
            None
        } else {
            let ghost views = dnf_views(nested@);
            proof {
                assert(self.active_subgoal_of(c.0, picked[0]));
                assert forall|k: int| 0 <= k < views.len() implies (#[trigger] views[k]).len() > 0 by {
                    assert(views[k] == nested@[k]@);
                }
            }
            proof {
                assert forall|k: int| 0 <= k < views.len() implies all_atoms(
                    #[trigger] views[k],
                    self.atom_below(c.0, fuel),
                ) by {
                    assert(views[k] == nested@[k]@);
                }
                lemma_atoms_and(views, self.atom_below(c.0, fuel));
            }
            proof {
                law_and_fold_nonempty(views);
            }
            let r = Dnf::and(nested);
            match r {
                Some(d) => {
                    proof {
                        lemma_and_nonempty(views);
                        assert forall|f: spec_fn(I) -> bool| dnf_holds(d@, f) == #[trigger] self.candidate_holds(c.0, f, fuel) by {
                            law_and_holds(views, f);
                            if dnf_holds(d@, f) {
                                assert forall|g: u32| #[trigger] self.active_subgoal_of(c.0, g) implies self.goal_holds(g, f, (fuel - 1) as nat) by {
                                    assert(picked.contains(g));
                                    let j = choose|j: int| 0 <= j < picked.len() && #[trigger] picked[j] == g;
                                    assert(dnf_holds(views[j], f));
                                    assert(dnf_holds(nested@[j]@, f));
                                }
                            }
                            if self.candidate_holds(c.0, f, fuel) {
                                assert forall|j: int| 0 <= j < views.len() implies #[trigger] dnf_holds(views[j], f) by {
                                    assert(views[j] == nested@[j]@);
                                    assert(self.active_subgoal_of(c.0, picked[j]));
                                    assert(self.goal_holds(picked[j], f, (fuel - 1) as nat));
                                }
                            }
                        }
                    }
                    Some(d)
                },
                None => {
                    None
                },
            }
        }
    }

    /// The correction sets of the tree: the sets of failed goals whose fixing
    /// satisfies the root goal. Empty when the root does not fail.
    pub fn dnf(&self) -> (r: Dnf)
        requires
            self.well_founded(),
            self.is_goal(self.root.0),
        ensures
            r@.len() > 0 <==> self.failing_goal(self.root.0),
            r@ == self.root_formula(),
            all_atoms(r@, self.atom_below(self.root.0, self.root_fuel())),
            forall|f: spec_fn(I) -> bool|
                dnf_holds(r@, f) == (self.failing_goal(self.root.0) && #[trigger] self.goal_holds(
                    self.root.0,
                    f,
                    self.root_fuel(),
                )),
    {
        let ghost fuel = self.root_fuel();
        match self.goal_dnf(self.root, Ghost(fuel)) {
            Some(d) => d,
            None => {
                let d = Dnf(Vec::new());
                assert(d@ =~= Seq::<Seq<I>>::empty());
                assert(all_atoms(d@, self.atom_below(self.root.0, fuel)));
                d
            },
        }
    }

    /// The correction sets, each as a conjunction of goals.
    pub fn iter_correction_sets(&self) -> (r: Vec<And>)
        requires
            self.well_founded(),
            self.is_goal(self.root.0),
        ensures
            r@.len() > 0 <==> self.failing_goal(self.root.0),
            r@.map_values(|a: And| a@) == self.root_formula(),
            all_atoms(r@.map_values(|a: And| a@), self.atom_below(self.root.0, self.root_fuel())),
            forall|f: spec_fn(I) -> bool|
                dnf_holds(r@.map_values(|a: And| a@), f) == (self.failing_goal(self.root.0)
                    && #[trigger] self.goal_holds(self.root.0, f, self.root_fuel())),
    {
        self.dnf().into_iter_conjuncts()
    }
}

proof fn lemma_join_len(vs: Seq<Seq<Seq<I>>>, k: int)
    requires
        0 <= k < vs.len(),
        vs[k].len() > 0,
    ensures
        join_all(vs).len() > 0,
    decreases vs.len(),
{
    if k < vs.len() - 1 {
        lemma_join_len(vs.drop_last(), k);
    }
}

proof fn lemma_and_nonempty(vs: Seq<Seq<Seq<I>>>)
    requires
        vs.len() > 0,
        forall|k: int| 0 <= k < vs.len() ==> (#[trigger] vs[k]).len() > 0,
    ensures
        and_all(vs).len() > 0,
    decreases vs.len(),
{
    if vs.len() > 1 {
        let init = vs.drop_last();
        assert forall|k: int| 0 <= k < init.len() implies (#[trigger] init[k]).len() > 0 by {
            assert(init[k] == vs[k]);
        }
        lemma_and_nonempty(init);
        lemma_distribute_nonempty(and_all(init), vs.last());
    }
}

/// The summed weights of the goals of a correction set.
pub open spec fn total_weight(t: T, atoms: Seq<I>) -> int
    decreases atoms.len(),
{
    if atoms.len() == 0 {
        0
    } else {
        total_weight(t, atoms.drop_last()) + weight_of(classify(t.shape_at(atoms.last().0)))
    }
}

/// The velocity of a correction set is the depth of its deepest goal: at
/// least the depth of each goal, the depth of one of them, and 0 for an
/// empty set.
pub proof fn law_velocity_is_deepest(t: T, atoms: Seq<I>)
    requires
        forall|k: int| 0 <= k < atoms.len() ==> t.topology.reaches_root(#[trigger] atoms[k].0),
    ensures
        forall|k: int|
            0 <= k < atoms.len() ==> max_depth(t, atoms) >= t.topology.depth_of(#[trigger] atoms[k].0),
        atoms.len() == 0 ==> max_depth(t, atoms) == 0,
        atoms.len() > 0 ==> exists|k: int|
            0 <= k < atoms.len() && max_depth(t, atoms) == t.topology.depth_of(#[trigger] atoms[k].0),
    decreases atoms.len(),
{
    if atoms.len() > 0 {
        let init = atoms.drop_last();
        assert forall|k: int| 0 <= k < init.len() implies t.topology.reaches_root(#[trigger] init[k].0) by {
            assert(init[k] == atoms[k]);
        }
        law_velocity_is_deepest(t, init);
        let n = atoms.len() - 1;
        assert forall|k: int| 0 <= k < atoms.len() implies max_depth(t, atoms) >= t.topology.depth_of(
            #[trigger] atoms[k].0,
        ) by {
            if k < n {
                assert(init[k] == atoms[k]);
            }
        }
        if init.len() > 0 {
            let j = choose|j: int|
                0 <= j < init.len() && max_depth(t, init) == t.topology.depth_of(#[trigger] init[j].0);
            assert(init[j] == atoms[j]);
            if max_depth(t, atoms) == max_depth(t, init) {
                assert(max_depth(t, atoms) == t.topology.depth_of(atoms[j].0));
            } else {
                assert(max_depth(t, atoms) == t.topology.depth_of(atoms[n].0));
            }
        } else {
            let d = t.topology.depth_of(atoms.last().0);
            if d > 0 {
                assert(max_depth(t, atoms) == t.topology.depth_of(atoms[n].0));
            } else {
                // The depth is the length of a chain minus one; a chain is never empty
                // when one exists, and 0 is then the depth of the goal.
                assert(max_depth(t, atoms) == 0);
                t.topology.lemma_depth_nonneg(atoms[n].0);
                assert(max_depth(t, atoms) == t.topology.depth_of(atoms[n].0));
            }
        }
    }
}

/// The largest depth of the goals of a correction set, 0 when it is empty.
pub open spec fn max_depth(t: T, atoms: Seq<I>) -> int
    decreases atoms.len(),
{
    if atoms.len() == 0 {
        0
    } else {
        let m = max_depth(t, atoms.drop_last());
        let d = t.topology.depth_of(atoms.last().0);
        if d > m {
            d
        } else {
            m
        }
    }
}

proof fn lemma_weights_nonneg(k: GoalKind)
    ensures
        weight_of(k) >= 0,
{
}

proof fn lemma_total_weight_prefix(t: T, atoms: Seq<I>, i: int)
    requires
        0 <= i <= atoms.len(),
    ensures
        total_weight(t, atoms.subrange(0, i)) <= total_weight(t, atoms),
        total_weight(t, atoms.subrange(0, i)) >= 0,
    decreases atoms.len() - i,
{
    if i < atoms.len() {
        lemma_total_weight_prefix(t, atoms, i + 1);
        assert(atoms.subrange(0, i + 1).drop_last() =~= atoms.subrange(0, i));
        lemma_weights_nonneg(classify(t.shape_at(atoms[i].0)));
        lemma_total_weight_nonneg(t, atoms.subrange(0, i));
    } else {
        assert(atoms.subrange(0, i) =~= atoms);
        lemma_total_weight_nonneg(t, atoms);
    }
}

proof fn lemma_total_weight_nonneg(t: T, atoms: Seq<I>)
    ensures
        total_weight(t, atoms) >= 0,
    decreases atoms.len(),
{
    if atoms.len() > 0 {
        lemma_total_weight_nonneg(t, atoms.drop_last());
        lemma_weights_nonneg(classify(t.shape_at(atoms.last().0)));
    }
}

impl And {
    /// The cost of this correction set in `tree`: each goal is analyzed, the
    /// weights of their kinds are summed, and the deepest goal gives the
    /// velocity.
    pub fn weight(self, tree: &T) -> (r: SetHeuristic)
        requires
            forall|k: int|
                0 <= k < self@.len() ==> {
                    let a = (#[trigger] self@[k]).0;
                    &&& tree.is_goal(a)
                    &&& !spec_is_yes(tree.result_at(a))
                    &&& tree.topology.reaches_root(a)
                },
            total_weight(*tree, self@) <= usize::MAX,
        ensures
            r.momentum == total_weight(*tree, self@),
            r.velocity == max_depth(*tree, self@),
            forall|k: int|
                0 <= k < self@.len() ==> r.velocity >= tree.topology.depth_of(#[trigger] self@[k].0),
            self@.len() == 0 ==> r.velocity == 0,
            self@.len() > 0 ==> exists|k: int|
                0 <= k < self@.len() && r.velocity == tree.topology.depth_of(#[trigger] self@[k].0),
            r.goals@.len() == self@.len(),
            forall|k: int|
                0 <= k < self@.len() ==> (#[trigger] r.goals@[k]).idx == self@[k] && r.goals@[k].kind
                    == classify(tree.shape_at(self@[k].0)),
    {
        let n = self.0.len();
        let mut goals: Vec<Heuristic> = Vec::new();
        let mut i: usize = 0;
        while i < n
            invariant
                n == self@.len(),
                i <= n,
                forall|k: int|
                    0 <= k < self@.len() ==> {
                        let a = (#[trigger] self@[k]).0;
                        &&& tree.is_goal(a)
                        &&& !spec_is_yes(tree.result_at(a))
                    },
                goals@.len() == i,
                forall|k: int|
                    0 <= k < i ==> (#[trigger] goals@[k]).idx == self@[k] && goals@[k].kind
                        == classify(tree.shape_at(self@[k].0)),
            decreases n - i,
        {
            let idx = self.0[i];
            assert(self@[i as int] == idx);
            let g = match tree.goal(idx) {
                Some(g) => g,
                None => {
                    assert(false);
                    return SetHeuristic { momentum: 0, velocity: 0, goals };
                },
            };
            goals.push(g.analyze());
            i = i + 1;
        }
        let mut momentum: usize = 0;
        let mut j: usize = 0;
        while j < n
            invariant
                n == self@.len(),
                j <= n,
                goals@.len() == n,
                forall|k: int|
                    0 <= k < n ==> (#[trigger] goals@[k]).idx == self@[k] && goals@[k].kind
                        == classify(tree.shape_at(self@[k].0)),
                total_weight(*tree, self@) <= usize::MAX,
                momentum == total_weight(*tree, self@.subrange(0, j as int)),
            decreases n - j,
        {
            proof {
                lemma_total_weight_prefix(*tree, self@, j + 1);
                assert(self@.subrange(0, j + 1).drop_last() =~= self@.subrange(0, j as int));
                assert(self@.subrange(0, j + 1).last() == self@[j as int]);
                lemma_total_weight_nonneg(*tree, self@.subrange(0, j as int));
                lemma_weights_nonneg(goals@[j as int].kind);
            }
            momentum = momentum + goals[j].kind.weight();
            j = j + 1;
        }
        assert(self@.subrange(0, n as int) =~= self@);
        let mut velocity: usize = 0;
        let mut m: usize = 0;
        while m < n
            invariant
                n == self@.len(),
                m <= n,
                forall|k: int|
                    0 <= k < self@.len() ==> tree.topology.reaches_root((#[trigger] self@[k]).0),
                velocity == max_depth(*tree, self@.subrange(0, m as int)),
            decreases n - m,
        {
            let d = tree.topology.depth(self.0[m]);
            assert(self@.subrange(0, m + 1).drop_last() =~= self@.subrange(0, m as int));
            assert(self@.subrange(0, m + 1).last() == self@[m as int]);
            if d > velocity {
                velocity = d;
            }
            m = m + 1;
        }
        assert(self@.subrange(0, n as int) =~= self@);
        proof {
            law_velocity_is_deepest(*tree, self@);
        }
        SetHeuristic { momentum, velocity, goals }
    }
}

impl<'a> T<'a> {
    /// The results of the analysis: the cost of each correction set of the
    /// tree, in the order of the sets. Every goal of a set must reach the
    /// root through its parents, and the summed weights of a set must fit
    /// in a `usize`.
    pub fn into_results(&self) -> (r: AnalysisResults)
        requires
            self.well_founded(),
            self.is_goal(self.root.0),
            forall|k: int, j: int|
                0 <= k < self.root_formula().len() && 0 <= j < self.root_formula()[k].len()
                    ==> self.topology.reaches_root(#[trigger] self.root_formula()[k][j].0),
            forall|k: int|
                0 <= k < self.root_formula().len() ==> total_weight(
                    *self,
                    #[trigger] self.root_formula()[k],
                ) <= usize::MAX,
        ensures
            r.problematic_sets@.len() == self.root_formula().len(),
            forall|k: int|
                0 <= k < self.root_formula().len() ==> {
                    let s = #[trigger] r.problematic_sets@[k];
                    let c = self.root_formula()[k];
                    &&& s.momentum == total_weight(*self, c)
                    &&& s.velocity == max_depth(*self, c)
                    &&& s.goals@.len() == c.len()
                    &&& forall|j: int|
                        0 <= j < c.len() ==> (#[trigger] s.goals@[j]).idx == c[j] && s.goals@[j].kind
                            == classify(self.shape_at(c[j].0))
                },
    {
        let sets = self.iter_correction_sets();
        let ghost rf = self.root_formula();
        let ghost fuel = self.root_fuel();
        assert(sets@.map_values(|a: And| a@) == rf);
        let mut out: Vec<SetHeuristic> = Vec::new();
        let mut i: usize = 0;
        while i < sets.len()
            invariant
                sets@.map_values(|a: And| a@) == rf,
                rf == self.root_formula(),
                fuel == self.root_fuel(),
                all_atoms(rf, self.atom_below(self.root.0, fuel)),
                forall|k: int, j: int|
                    0 <= k < rf.len() && 0 <= j < rf[k].len() ==> self.topology.reaches_root(
                        #[trigger] rf[k][j].0,
                    ),
                forall|k: int| 0 <= k < rf.len() ==> total_weight(*self, #[trigger] rf[k]) <= usize::MAX,
                i <= sets@.len(),
                out@.len() == i,
                forall|k: int|
                    0 <= k < i ==> {
                        let s = #[trigger] out@[k];
                        let c = rf[k];
                        &&& s.momentum == total_weight(*self, c)
                        &&& s.velocity == max_depth(*self, c)
                        &&& s.goals@.len() == c.len()
                        &&& forall|j: int|
                            0 <= j < c.len() ==> (#[trigger] s.goals@[j]).idx == c[j]
                                && s.goals@[j].kind == classify(self.shape_at(c[j].0))
                    },
            decreases sets@.len() - i,
        {
            let a = sets[i].duplicate();
            let ghost c = rf[i as int];
            assert(a@ == c);
            proof {
                assert forall|j: int| 0 <= j < c.len() implies {
                    let x = (#[trigger] a@[j]).0;
                    &&& self.is_goal(x)
                    &&& !spec_is_yes(self.result_at(x))
                    &&& self.topology.reaches_root(x)
                } by {
                    assert((self.atom_below(self.root.0, fuel))(rf[i as int][j]));
                    assert(self.topology.reaches_root(rf[i as int][j].0));
                }
            }
            let s = a.weight(self);
            out.push(s);
            proof {
                assert forall|k: int| 0 <= k < i + 1 implies {
                    let s = #[trigger] out@[k];
                    let c = rf[k];
                    &&& s.momentum == total_weight(*self, c)
                    &&& s.velocity == max_depth(*self, c)
                    &&& s.goals@.len() == c.len()
                    &&& forall|j: int|
                        0 <= j < c.len() ==> (#[trigger] s.goals@[j]).idx == c[j]
                            && s.goals@[j].kind == classify(self.shape_at(c[j].0))
                } by {
                    if k == i {
                        assert(out@[k] == s);
                    }
                }
            }
            i = i + 1;
        }
        AnalysisResults { problematic_sets: out }
    }
}

} // verus!
