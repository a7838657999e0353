use argus::proof_tree::serialize::nested_visit_order;
use argus::proof_tree::ext::is_informative_probe;
use argus::proof_tree::interners::{can_key, CanKey};
use argus::proof_tree::serialize::SerializedTreeVisitor;
use argus::proof_tree::{CandidateIdx, GoalIdx, ImplementorsIdx, ProofNode, ProofNodeUnpacked};
use argus::types::{CandidateSource, Certainty, DefId, EvaluationResult, NoSolution, ProbeKind};

fn goal(i: u32) -> ProofNode {
    ProofNode::pack(ProofNodeUnpacked::Goal(GoalIdx::from_raw(i)))
}

fn cand(i: u32) -> ProofNode {
    ProofNode::pack(ProofNodeUnpacked::Candidate(CandidateIdx::from_raw(i)))
}

#[test]
fn visitor_builds_topology() {
    let mut v = SerializedTreeVisitor::new(false);
    let root_parent = v.enter_goal(goal(0));
    assert_eq!(root_parent, None);
    assert_eq!(v.root, Some(goal(0)));
    assert!(v.enter_candidate(goal(0), cand(0)));
    let p = v.enter_goal(goal(1));
    assert_eq!(p, Some(cand(0)));
    assert_eq!(v.topology.parent(goal(1).index()), Some(cand(0).index()));
    v.exit_goal(p);
    v.exit_goal(root_parent);
    assert_eq!(v.previous, None);
    // A candidate seen before is skipped.
    assert!(!v.enter_candidate(goal(0), cand(0)));
    assert_eq!(v.root, Some(goal(0)));
    assert_eq!(v.topology.parent(cand(0).index()), Some(goal(0).index()));
}

#[test]
fn visitor_records_projections_and_impls() {
    let mut v = SerializedTreeVisitor::new(true);
    let yes: EvaluationResult = Ok(Certainty::Yes);
    let no: EvaluationResult = Err(NoSolution);
    // A goal that does not hold, or is no equation, records nothing.
    v.check_goal_projection(&no, Some((1, false, 2, true)));
    v.check_goal_projection(&yes, None);
    assert!(v.projection_values.is_empty());
    v.check_goal_projection(&yes, Some((1, false, 2, true)));
    assert_eq!(v.projection_values.get(&2), Some(&1));
    v.check_goal_projection(&yes, Some((2, true, 3, false)));
    assert_eq!(v.projection_values.get(&2), Some(&1));
    v.check_goal_projection(&yes, Some((4, true, 5, true)));
    v.check_goal_projection(&yes, Some((6, false, 6, false)));
    assert_eq!(v.projection_values.len(), 1);
    v.record_all_impls(GoalIdx::from_raw(3), ImplementorsIdx::from_raw(8));
    assert_eq!(v.impls.get(&3), Some(&8));
}

#[test]
fn candidate_keys() {
    assert!(matches!(can_key(ProbeKind::Root), CanKey::Str("root")));
    assert!(matches!(can_key(ProbeKind::UnsizeAssembly), CanKey::Str("unsize-asm")));
    assert!(matches!(
        can_key(ProbeKind::TraitCandidate { source: CandidateSource::BuiltinImpl }),
        CanKey::Str("builtin")
    ));
    assert!(matches!(
        can_key(ProbeKind::TraitCandidate { source: CandidateSource::ParamEnv(3) }),
        CanKey::ParamEnv(3)
    ));
    let d = DefId { krate: 1, index: 2 };
    assert!(matches!(
        can_key(ProbeKind::TraitCandidate { source: CandidateSource::Impl(d) }),
        CanKey::Impl(e) if e == d
    ));
}

#[test]
fn informative_probes() {
    assert!(is_informative_probe(ProbeKind::TraitCandidate { source: CandidateSource::BuiltinImpl }));
    assert!(is_informative_probe(ProbeKind::TraitCandidate {
        source: CandidateSource::Impl(DefId { krate: 0, index: 0 })
    }));
    assert!(!is_informative_probe(ProbeKind::TraitCandidate { source: CandidateSource::AliasBound }));
    assert!(!is_informative_probe(ProbeKind::Root));
}

#[test]
fn nested_goals_visited_failures_first() {
    let yes: EvaluationResult = Ok(Certainty::Yes);
    let no: EvaluationResult = Err(NoSolution);
    let results = vec![yes, no, no, yes, no];
    // Goal 2 fails but is no source of the error: it is not visited.
    let sources = vec![false, true, false, false, true];
    assert_eq!(nested_visit_order(&results, &sources), vec![1, 4, 0, 3]);
    assert_eq!(nested_visit_order(&vec![], &vec![]), Vec::<usize>::new());
}
