use argus::ext::PredicateFacts;
use argus::proof_tree::interners::{
    candidate_key, goal_key, result_key, Interner, Interners,
};
use argus::proof_tree::{CandidateData, CandidateIdx, GoalIdx, ProofNodeUnpacked, ResultIdx};
use argus::types::{
    CandidateSource, Certainty, DefId, EvaluationResult, MaybeCause, NoSolution,
    ObligationNecessity, ProbeKind,
};

fn trait_facts() -> PredicateFacts {
    PredicateFacts {
        writeable: true,
        lhs_unit: false,
        trait_predicate: true,
        rhs_lang_item: false,
        lhs_lang_item: false,
        self_ty_var: false,
    }
}

#[test]
fn interner_gives_one_index_per_key() {
    let mut t: Interner<&str> = Interner::new();
    assert_eq!(t.intern(10, "a"), 0);
    assert_eq!(t.intern(20, "b"), 1);
    assert_eq!(t.intern(10, "c"), 0);
    assert_eq!(t.len(), 2);
    assert_eq!(t.get(20), Some(1));
    assert_eq!(t.get(30), None);
    assert_eq!(*t.value(0), "a");
    assert_eq!(t.take(), vec!["a", "b"]);
}

#[test]
fn interner_insert_no_key_is_not_found_again() {
    let mut t: Interner<u8> = Interner::new();
    assert_eq!(t.insert_no_key(1), 0);
    assert_eq!(t.insert(5, 2), 1);
    assert_eq!(t.insert_no_key(3), 2);
    assert_eq!(t.get(5), Some(1));
    assert_eq!(t.take(), vec![1, 2, 3]);
}

#[test]
fn result_keys_are_distinct() {
    let rs: [EvaluationResult; 4] = [
        Ok(Certainty::Yes),
        Ok(Certainty::Maybe(MaybeCause::Ambiguity)),
        Ok(Certainty::Maybe(MaybeCause::Overflow)),
        Err(NoSolution),
    ];
    let keys: Vec<u128> = rs.iter().map(result_key).collect();
    assert_eq!(keys, vec![0, 1, 2, 3]);
}

#[test]
fn goal_key_puts_hash_above_result() {
    assert_eq!(goal_key(1, ResultIdx(2)), (1u128 << 32) + 2);
    assert_eq!(goal_key(0, ResultIdx(u32::MAX)), u32::MAX as u128);
    assert_ne!(goal_key(1, ResultIdx(0)), goal_key(0, ResultIdx(1)));
}

#[test]
fn candidate_keys_by_kind() {
    let d = DefId { krate: 3, index: 4 };
    let imp = ProbeKind::TraitCandidate { source: CandidateSource::Impl(d) };
    let env = ProbeKind::TraitCandidate { source: CandidateSource::ParamEnv(4) };
    assert_eq!(candidate_key(imp), (3u128 << 32) + 4);
    assert_eq!(candidate_key(env), (1u128 << 64) + 4);
    assert_eq!(candidate_key(ProbeKind::Root), 2u128 << 64);
    assert_ne!(candidate_key(ProbeKind::Root), candidate_key(ProbeKind::UnsizeAssembly));
}

#[test]
fn result_nodes_are_interned() {
    let mut i = Interners::default();
    assert_eq!(i.mk_result_node(Err(NoSolution)), ProofNodeUnpacked::Result(ResultIdx(0)));
    assert_eq!(i.mk_result_node(Ok(Certainty::Yes)), ProofNodeUnpacked::Result(ResultIdx(1)));
    assert_eq!(i.mk_result_node(Err(NoSolution)), ProofNodeUnpacked::Result(ResultIdx(0)));
    let (goals, candidates, results) = i.take();
    assert!(goals.is_empty());
    assert!(candidates.is_empty());
    assert_eq!(results.len(), 2);
    assert_eq!(results[0].0, Err(NoSolution));
    assert_eq!(results[1].0, Ok(Certainty::Yes));
}

#[test]
fn goal_nodes_are_interned_by_hash_and_result() {
    let mut i = Interners::default();
    let yes: EvaluationResult = Ok(Certainty::Yes);
    let no: EvaluationResult = Err(NoSolution);
    let g0 = i.mk_goal_node(77, yes, serde_json::Value::Null, &trait_facts(), 1, false);
    let g1 = i.mk_goal_node(77, no, serde_json::Value::Null, &trait_facts(), 0, true);
    let g2 = i.mk_goal_node(77, yes, serde_json::Value::Bool(true), &trait_facts(), 5, true);
    assert_eq!(g0, ProofNodeUnpacked::Goal(GoalIdx(0)));
    assert_eq!(g1, ProofNodeUnpacked::Goal(GoalIdx(1)));
    assert_eq!(g2, ProofNodeUnpacked::Goal(GoalIdx(0)));
    let first = i.goal(GoalIdx(0));
    assert_eq!(first.value, serde_json::Value::Null);
    assert_eq!(first.necessity, ObligationNecessity::Yes);
    assert_eq!(first.num_vars, 1);
    assert!(!first.is_main_tv);
    assert_eq!(first.result, ResultIdx(0));
    assert_eq!(i.goal(GoalIdx(1)).result, ResultIdx(1));
}

#[test]
fn candidate_nodes_by_label_param_env_and_impl() {
    let mut i = Interners::default();
    let env = ProbeKind::TraitCandidate { source: CandidateSource::ParamEnv(2) };
    let builtin = ProbeKind::TraitCandidate { source: CandidateSource::BuiltinImpl };
    let imp = ProbeKind::TraitCandidate {
        source: CandidateSource::Impl(DefId { krate: 0, index: 9 }),
    };
    let none = || String::from("foreign impl from: core");
    assert_eq!(i.mk_candidate_node(ProbeKind::Root, None, none()), ProofNodeUnpacked::Candidate(CandidateIdx(0)));
    assert_eq!(i.mk_candidate_node(env, None, none()), ProofNodeUnpacked::Candidate(CandidateIdx(1)));
    assert_eq!(i.mk_candidate_node(builtin, None, none()), ProofNodeUnpacked::Candidate(CandidateIdx(2)));
    assert_eq!(i.mk_candidate_node(ProbeKind::Root, None, none()), ProofNodeUnpacked::Candidate(CandidateIdx(0)));
    assert_eq!(i.mk_candidate_node(env, None, none()), ProofNodeUnpacked::Candidate(CandidateIdx(1)));
    // An impl without a header is stored again each time.
    assert_eq!(i.mk_candidate_node(imp, None, none()), ProofNodeUnpacked::Candidate(CandidateIdx(3)));
    assert_eq!(i.mk_candidate_node(imp, None, none()), ProofNodeUnpacked::Candidate(CandidateIdx(4)));
    // With a header it is interned.
    let hd = Some((serde_json::Value::String(String::from("impl Foo")), true));
    assert_eq!(i.mk_candidate_node(imp, hd, none()), ProofNodeUnpacked::Candidate(CandidateIdx(5)));
    assert_eq!(i.mk_candidate_node(imp, None, none()), ProofNodeUnpacked::Candidate(CandidateIdx(5)));
    let (_, candidates, _) = i.take();
    assert_eq!(candidates.len(), 6);
    assert!(matches!(&candidates[0], CandidateData::Any(s) if s == "root"));
    assert!(matches!(&candidates[1], CandidateData::ParamEnv(2)));
    assert!(matches!(&candidates[2], CandidateData::Any(s) if s == "builtin"));
    assert!(matches!(&candidates[3], CandidateData::Any(s) if s == "foreign impl from: core"));
    assert!(matches!(&candidates[5], CandidateData::Impl { is_user_visible: true, .. }));
}
