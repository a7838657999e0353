use argus::aadebug::dnf;
use argus::aadebug::tree::{Dnf, GoalKind, Location, N, T};
use argus::proof_tree::topology::TreeTopology;
use argus::proof_tree::ProofNodeIdx;
use argus::types::{
    CandidateSource, Certainty, DefId, EvaluationResult, MaybeCause, NoSolution, PredicateShape,
    ProbeKind,
};

const YES: EvaluationResult = Ok(Certainty::Yes);
const AMBIG: EvaluationResult = Ok(Certainty::Maybe(MaybeCause::Ambiguity));
const NO: EvaluationResult = Err(NoSolution);

fn n(i: u32) -> ProofNodeIdx {
    ProofNodeIdx::from_raw(i)
}

fn raw_sets(d: Dnf) -> Vec<Vec<u32>> {
    let mut out: Vec<Vec<u32>> = d
        .into_iter_conjuncts()
        .iter()
        .map(|a| {
            let mut v: Vec<u32> = a.atoms().iter().map(|x| x.raw()).collect();
            v.sort();
            v
        })
        .collect();
    out.sort();
    out
}

fn trait_shape(self_local: bool, trait_local: bool) -> PredicateShape {
    PredicateShape::Trait {
        positive: true,
        is_fn_trait: false,
        self_fn_arity: None,
        fn_trait_arity: None,
        self_is_local: self_local,
        trait_is_local: trait_local,
    }
}

fn goal(result: EvaluationResult) -> N {
    N::R { predicate: trait_shape(true, true), result, is_error_source: true }
}

fn cand(result: EvaluationResult, retain: bool) -> N {
    N::C { kind: ProbeKind::TraitCandidate { source: CandidateSource::Impl(DefId { krate: 0, index: 1 }) }, result, retain }
}

#[test]
#[allow(non_snake_case)]
fn goal_kind_weights() {
    let (L, E) = (Location::Local, Location::External);
    assert_eq!(GoalKind::Trait { _self: L, _trait: L }.weight(), 0);
    assert_eq!(GoalKind::Trait { _self: L, _trait: E }.weight(), 1);
    assert_eq!(GoalKind::Trait { _self: E, _trait: L }.weight(), 2);
    assert_eq!(GoalKind::FnToTrait { _trait: L }.weight(), 2);
    assert_eq!(GoalKind::Trait { _self: E, _trait: E }.weight(), 3);
    assert_eq!(GoalKind::FnToTrait { _trait: E }.weight(), 4);
    assert_eq!(GoalKind::TyChange.weight(), 4);
    assert_eq!(GoalKind::FnParamDel { d: 3 }.weight(), 12);
    assert_eq!(GoalKind::TyAsCallable { arity: 2 }.weight(), 12);
    assert_eq!(GoalKind::Misc.weight(), 20);
}

#[test]
fn tree_dnf_single_and_or() {
    let a = Dnf::single(n(1));
    let b = Dnf::single(n(2));
    let c = Dnf::single(n(3));
    let or = Dnf::or(vec![a, b]).unwrap();
    assert_eq!(raw_sets(or), vec![vec![1], vec![2]]);
    assert!(Dnf::or(vec![]).is_none());
    let ab_or = Dnf::or(vec![Dnf::single(n(1)), Dnf::single(n(2))]).unwrap();
    let and = Dnf::and(vec![ab_or, c]).unwrap();
    assert_eq!(raw_sets(and), vec![vec![1, 3], vec![2, 3]]);
    assert!(Dnf::and(vec![]).is_none());
}

#[test]
fn small_dnf_operations() {
    let one = dnf::Dnf::single(1);
    let two = dnf::Dnf::single(2);
    let three = dnf::Dnf::single(3);
    let or = dnf::Dnf::or(vec![one, two]).unwrap();
    assert_eq!(or.iter_conjuncts().len(), 2);
    let and = dnf::Dnf::and(vec![or, three]).unwrap();
    let conj: Vec<Vec<u32>> = and.iter_conjuncts().iter().map(|a| a.iter().to_vec()).collect();
    assert_eq!(conj, vec![vec![1, 3], vec![2, 3]]);
    assert!(dnf::Dnf::and(vec![]).is_none());
    assert_eq!(dnf::Dnf::default().iter_conjuncts().len(), 0);
}

#[test]
fn small_dnf_and_restarts_after_empty() {
    let and = dnf::Dnf::and(vec![dnf::Dnf::single(1), dnf::Dnf::default(), dnf::Dnf::single(2)]).unwrap();
    let conj: Vec<Vec<u32>> = and.iter_conjuncts().iter().map(|a| a.iter().to_vec()).collect();
    assert_eq!(conj, vec![vec![2]]);
}

fn sample_tree() -> (Vec<N>, TreeTopology) {
    // 0: failing goal with candidates 1 and 2
    // 1: candidate with subgoals 3 and 4; 2: candidate with subgoal 5
    let ns = vec![goal(NO), cand(NO, true), cand(NO, true), goal(NO), goal(NO), goal(NO)];
    let mut t = TreeTopology::new();
    t.add(n(0), n(1));
    t.add(n(0), n(2));
    t.add(n(1), n(3));
    t.add(n(1), n(4));
    t.add(n(2), n(5));
    (ns, t)
}

#[test]
fn tree_correction_sets() {
    let (ns, topo) = sample_tree();
    let tree = T { root: n(0), ns: &ns, topology: &topo, maybe_ambiguous: false };
    assert_eq!(raw_sets(tree.dnf()), vec![vec![3, 4], vec![5]]);
    assert_eq!(tree.iter_correction_sets().len(), 2);
}

#[test]
fn tree_successful_root_has_no_sets() {
    let (mut ns, topo) = sample_tree();
    ns[0] = goal(YES);
    let tree = T { root: n(0), ns: &ns, topology: &topo, maybe_ambiguous: false };
    assert!(raw_sets(tree.dnf()).is_empty());
}

#[test]
fn tree_ambiguity_only_when_asked() {
    let ns = vec![goal(AMBIG)];
    let topo = TreeTopology::new();
    let strict = T { root: n(0), ns: &ns, topology: &topo, maybe_ambiguous: false };
    assert!(raw_sets(strict.dnf()).is_empty());
    let ambig = T { root: n(0), ns: &ns, topology: &topo, maybe_ambiguous: true };
    assert_eq!(raw_sets(ambig.dnf()), vec![vec![0]]);
}

#[test]
fn tree_unretained_candidates_are_ignored() {
    let (mut ns, topo) = sample_tree();
    ns[2] = cand(NO, false);
    let tree = T { root: n(0), ns: &ns, topology: &topo, maybe_ambiguous: false };
    assert_eq!(raw_sets(tree.dnf()), vec![vec![3, 4]]);
}

#[test]
fn tree_weight_of_correction_set() {
    let (mut ns, topo) = sample_tree();
    ns[3] = N::R { predicate: trait_shape(false, false), result: NO, is_error_source: true };
    ns[4] = N::R { predicate: PredicateShape::Projection, result: NO, is_error_source: true };
    let tree = T { root: n(0), ns: &ns, topology: &topo, maybe_ambiguous: false };
    let sets = tree.iter_correction_sets();
    let mut found = false;
    for set in sets {
        let len = set.atoms().len();
        let h = set.weight(&tree);
        if len == 2 {
            assert_eq!(h.momentum, 3 + 4);
            assert_eq!(h.velocity, 2);
            assert_eq!(h.goals.len(), 2);
            found = true;
        } else {
            assert_eq!(h.momentum, 0);
            assert_eq!(h.velocity, 2);
        }
    }
    assert!(found);
}

#[test]
fn tree_analyze_goal_kinds() {
    let shapes = vec![
        (PredicateShape::Trait { positive: true, is_fn_trait: true, self_fn_arity: Some(3), fn_trait_arity: Some(1), self_is_local: true, trait_is_local: true }, GoalKind::FnParamDel { d: 2 }),
        (PredicateShape::Trait { positive: true, is_fn_trait: true, self_fn_arity: Some(1), fn_trait_arity: Some(1), self_is_local: true, trait_is_local: true }, GoalKind::Misc),
        (PredicateShape::Trait { positive: true, is_fn_trait: true, self_fn_arity: None, fn_trait_arity: Some(2), self_is_local: true, trait_is_local: true }, GoalKind::TyAsCallable { arity: 2 }),
        (PredicateShape::Trait { positive: true, is_fn_trait: false, self_fn_arity: Some(2), fn_trait_arity: None, self_is_local: true, trait_is_local: false }, GoalKind::FnToTrait { _trait: Location::External }),
        (trait_shape(true, false), GoalKind::Trait { _self: Location::Local, _trait: Location::External }),
        (PredicateShape::Trait { positive: false, is_fn_trait: false, self_fn_arity: None, fn_trait_arity: None, self_is_local: true, trait_is_local: true }, GoalKind::Misc),
        (PredicateShape::Projection, GoalKind::TyChange),
        (PredicateShape::Other, GoalKind::Misc),
    ];
    for (shape, kind) in shapes {
        let ns = vec![N::R { predicate: shape, result: NO, is_error_source: true }];
        let topo = TreeTopology::new();
        let tree = T { root: n(0), ns: &ns, topology: &topo, maybe_ambiguous: false };
        let g = tree.goal(n(0)).unwrap();
        assert_eq!(g.predicate(), shape);
        assert_eq!(g.analyze().kind, kind);
        assert_eq!(g.analyze().idx, n(0));
    }
}

#[test]
fn tree_goal_and_candidate_lookups() {
    let (ns, topo) = sample_tree();
    let tree = T { root: n(0), ns: &ns, topology: &topo, maybe_ambiguous: false };
    assert!(tree.goal(n(0)).is_some());
    assert!(tree.goal(n(1)).is_none());
    assert!(tree.candidate(n(1)).is_some());
    assert!(tree.candidate(n(3)).is_none());
    let g = tree.goal(n(0)).unwrap();
    assert_eq!(g.all_candidates().len(), 2);
    assert_eq!(g.interesting_candidates().len(), 2);
    let c = tree.candidate(n(1)).unwrap();
    assert_eq!(c.all_subgoals().len(), 2);
    assert_eq!(c.source_subgoals().len(), 2);
}

#[test]
fn tree_last_ancestor_pre_builtin() {
    // 0 -> 1 (impl) -> 2 -> 3 (builtin) -> 4
    let builtin = N::C { kind: ProbeKind::TraitCandidate { source: CandidateSource::BuiltinImpl }, result: NO, retain: true };
    let ns = vec![goal(NO), cand(NO, true), goal(NO), builtin, goal(NO)];
    let mut topo = TreeTopology::new();
    for i in 0..4 {
        topo.add(n(i), n(i + 1));
    }
    let tree = T { root: n(0), ns: &ns, topology: &topo, maybe_ambiguous: false };
    let g4 = tree.goal(n(4)).unwrap();
    let a4 = g4.last_ancestor_pre_builtin();
    assert_eq!(a4.analyze().idx, n(4));
    let g2 = tree.goal(n(2)).unwrap();
    assert_eq!(g2.last_ancestor_pre_builtin().analyze().idx, n(0));
}

#[test]
fn tree_results_cost_each_correction_set() {
    let (mut ns, topo) = sample_tree();
    ns[3] = N::R { predicate: trait_shape(false, false), result: NO, is_error_source: true };
    ns[4] = N::R { predicate: PredicateShape::Projection, result: NO, is_error_source: true };
    let tree = T { root: n(0), ns: &ns, topology: &topo, maybe_ambiguous: false };
    let results = tree.into_results();
    assert_eq!(results.problematic_sets.len(), 2);
    let mut momenta: Vec<usize> = results.problematic_sets.iter().map(|s| s.momentum).collect();
    momenta.sort();
    assert_eq!(momenta, vec![0, 7]);
    assert!(results.problematic_sets.iter().all(|s| s.velocity == 2));
}
