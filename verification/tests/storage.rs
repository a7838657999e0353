use argus::aadebug::tree::N;
use argus::aadebug::{candidate_retained, NestedGoalSource, Storage};
use argus::proof_tree::{CandidateIdx, GoalIdx, ProofNode, ProofNodeUnpacked};
use argus::types::{Certainty, EvaluationResult, MaybeCause, NoSolution, PredicateShape, ProbeKind};

const YES: EvaluationResult = Ok(Certainty::Yes);
const AMBIG: EvaluationResult = Ok(Certainty::Maybe(MaybeCause::Ambiguity));
const NO: EvaluationResult = Err(NoSolution);

#[test]
fn candidate_retained_by_failed_where_bound() {
    let nested = vec![(NestedGoalSource::Misc, NO), (NestedGoalSource::ImplWhereBound, NO)];
    assert!(candidate_retained(false, &NO, &nested));
    // A failure from elsewhere does not keep it.
    assert!(!candidate_retained(false, &NO, &vec![(NestedGoalSource::Misc, NO)]));
    // Without nested goals a failed candidate is dropped.
    assert!(!candidate_retained(false, &NO, &vec![]));
    assert!(candidate_retained(
        false,
        &NO,
        &vec![(NestedGoalSource::InstantiateHigherRanked, NO)]
    ));
}

#[test]
fn candidate_retained_when_ambiguity_analyzed() {
    // A candidate that did not fail is kept outright.
    assert!(candidate_retained(true, &YES, &vec![]));
    assert!(candidate_retained(true, &AMBIG, &vec![]));
    // A failed one is kept by an undecided where bound, not by a failed one.
    assert!(candidate_retained(true, &NO, &vec![(NestedGoalSource::ImplWhereBound, AMBIG)]));
    assert!(!candidate_retained(true, &NO, &vec![(NestedGoalSource::ImplWhereBound, NO)]));
}

#[test]
fn storage_records_nodes() {
    let mut s = Storage::new(false, false);
    let g = ProofNode::pack(ProofNodeUnpacked::Goal(GoalIdx(0)));
    let c = ProofNode::pack(ProofNodeUnpacked::Goal(GoalIdx(1)));
    s.push_goal(g, PredicateShape::Other, NO, true);
    s.push_candidate(c, ProbeKind::Root, NO, &vec![(NestedGoalSource::ImplWhereBound, NO)]);
    let nodes = s.nodes_below(2).unwrap();
    assert!(matches!(nodes[0], N::R { result: Err(NoSolution), is_error_source: true, .. }));
    assert!(matches!(nodes[1], N::C { kind: ProbeKind::Root, retain: true, .. }));
    assert!(s.nodes_below(3).is_none());
    assert_eq!(s.nodes_below(0).map(|v| v.len()), Some(0));
    let high = ProofNode::pack(ProofNodeUnpacked::Candidate(CandidateIdx(0)));
    s.push_candidate(high, ProbeKind::Root, YES, &vec![]);
    assert_eq!(s.nodes_below(2).map(|v| v.len()), Some(2));
}
