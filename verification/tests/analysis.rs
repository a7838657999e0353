use argus::analysis::transform::{relate_trait_bounds, relate_unreported_errors, sort_bins, BinFacts, ReportedError};
use argus::analysis::entry::process_obligation;
use argus::analysis::transform::bin_obligations;
use argus::analysis::transform::child_most_expr;
use argus::analysis::hir::{
    drain_targets, find_most_enclosing_node, BinCreator, BinKind, ExprShape, FindNodeBySpan, HirId,
    SpanData,
};
use argus::analysis::tls::{
    drain_implied_ambiguities, replace_reported_errors, store_obligation, store_tree,
};
use argus::analysis::transform::{
    exact_predicate_search, expr_kind_of, find_root_expr, is_valid, match_reported_predicates,
    relate_trait_bound, unreported_error_hashes, BranchlessSearch, SearchStep,
};
use argus::ext::{erase_non_local_data, guess_predicate_necessity, obligation_necessity, PredicateFacts};
use argus::types::{
    CharPos, CharRange,
    Certainty, EvaluationResult, Expr, ExprIdx, ExprKind, FulfillmentData, MaybeCause, NoSolution,
    Obligation, ObligationHash, ObligationIdx, ObligationKind, ObligationNecessity, Provenance,
};

const RANGE: CharRange = CharRange {
    start: CharPos { line: 0, column: 0 },
    end: CharPos { line: 0, column: 1 },
    filename: 0,
};
const YES: EvaluationResult = Ok(Certainty::Yes);
const AMBIG: EvaluationResult = Ok(Certainty::Maybe(MaybeCause::Ambiguity));
const NO: EvaluationResult = Err(NoSolution);

fn id(i: u32) -> HirId {
    HirId { owner: 0, local_id: i }
}

fn span(lo: u32, hi: u32) -> SpanData {
    SpanData { lo, hi }
}

fn obl(hash: u64, necessity: ObligationNecessity, result: EvaluationResult) -> Obligation {
    let kind = match result {
        Ok(Certainty::Yes) => ObligationKind::Success,
        Ok(_) => ObligationKind::Ambiguous,
        Err(_) => ObligationKind::Failure,
    };
    Obligation { hash: ObligationHash(hash), kind, necessity, result }
}

#[test]
fn most_enclosing_node_is_closest() {
    let nodes = vec![
        (id(1), span(10, 20)), // inner expression
        (id(2), span(0, 100)), // enclosing block
        (id(3), span(50, 60)), // unrelated
    ];
    assert_eq!(find_most_enclosing_node(&nodes, span(12, 18)), Some(id(1)));
    assert_eq!(find_most_enclosing_node(&nodes, span(30, 40)), Some(id(2)));
    assert_eq!(find_most_enclosing_node(&nodes, span(200, 300)), None);
}

#[test]
fn most_enclosing_node_first_wins_ties() {
    let nodes = vec![(id(1), span(5, 15)), (id(2), span(15, 25))];
    assert_eq!(find_most_enclosing_node(&nodes, span(10, 20)), Some(id(1)));
}

#[test]
fn find_node_by_span_steps() {
    let mut f = FindNodeBySpan::new(span(10, 20));
    assert!(!f.is_better_match(span(30, 40)));
    assert!(f.is_better_match(span(0, 100)));
    f.visit(id(7), span(0, 100));
    assert_eq!(f.result, Some((id(7), span(0, 100))));
    assert!(f.is_better_match(span(9, 21)));
    assert!(!f.is_better_match(span(0, 200)));
}

#[test]
fn bin_kinds_become_expr_kinds() {
    assert_eq!(expr_kind_of(BinKind::Misc), ExprKind::Misc);
    assert_eq!(expr_kind_of(BinKind::CallableExpr), ExprKind::CallableExpr);
    assert_eq!(expr_kind_of(BinKind::CallArg), ExprKind::CallArg);
    assert_eq!(expr_kind_of(BinKind::Call), ExprKind::Call);
}

#[test]
fn predicate_search_finds_first() {
    let raw = vec![
        obl(5, ObligationNecessity::Yes, NO),
        obl(7, ObligationNecessity::Yes, NO),
        obl(7, ObligationNecessity::No, YES),
    ];
    assert_eq!(exact_predicate_search(&raw, ObligationHash(7)), Some(ObligationIdx(1)));
    assert_eq!(exact_predicate_search(&raw, ObligationHash(9)), None);
}

#[test]
fn root_expr_first_come_first_served() {
    let exprs = vec![
        Expr { range: RANGE, snippet: String::new(), obligations: vec![ObligationIdx(0)], kind: ExprKind::Misc, is_body: false },
        Expr { range: RANGE, snippet: String::new(), obligations: vec![ObligationIdx(1), ObligationIdx(2)], kind: ExprKind::Call, is_body: false },
        Expr { range: RANGE, snippet: String::new(), obligations: vec![ObligationIdx(2)], kind: ExprKind::CallArg, is_body: false },
    ];
    assert_eq!(find_root_expr(&exprs, &vec![ObligationIdx(2)]), Some(ExprIdx(1)));
    assert_eq!(find_root_expr(&exprs, &vec![ObligationIdx(3), ObligationIdx(0)]), Some(ExprIdx(0)));
    assert_eq!(find_root_expr(&exprs, &vec![ObligationIdx(9)]), None);
    assert_eq!(find_root_expr(&exprs, &vec![]), None);
}

#[test]
fn unreported_errors_take_failed_hashes() {
    let raw = vec![
        obl(1, ObligationNecessity::Yes, NO),
        obl(2, ObligationNecessity::Yes, YES),
        obl(3, ObligationNecessity::OnError, NO),
    ];
    let expr = Expr { range: RANGE, snippet: String::new(), obligations: vec![ObligationIdx(2), ObligationIdx(1), ObligationIdx(0)], kind: ExprKind::Misc, is_body: true };
    assert_eq!(unreported_error_hashes(&expr, &raw), vec![ObligationHash(3), ObligationHash(1)]);
}

#[test]
fn validity_of_full_data() {
    let raw = vec![
        obl(1, ObligationNecessity::Yes, YES),
        obl(2, ObligationNecessity::OnError, YES),
        obl(3, ObligationNecessity::OnError, NO),
        obl(4, ObligationNecessity::No, NO),
    ];
    assert_eq!(is_valid(&raw, &vec![ObligationHash(1), ObligationHash(3)]), Ok(()));
    assert_eq!(is_valid(&raw, &vec![ObligationHash(1)]), Err(ObligationIdx(2)));
    assert_eq!(is_valid(&raw, &vec![]), Err(ObligationIdx(0)));
}

#[test]
fn branchless_search_steps() {
    let mut s = BranchlessSearch::new(ObligationHash(42));
    assert_eq!(s.visit_goal(ObligationHash(1), 1), SearchStep::Descend);
    assert_eq!(s.visit_goal(ObligationHash(2), 3), SearchStep::Stop);
    assert!(!BranchlessSearch::new(ObligationHash(42)).was_found());
    assert_eq!(s.visit_goal(ObligationHash(42), 1), SearchStep::Stop);
    assert!(s.was_found());
}

fn prov(hash: u64, full: Option<usize>, result: EvaluationResult) -> Provenance<Obligation> {
    Provenance { hir_id: id(0), full_data: full, it: obl(hash, ObligationNecessity::Yes, result) }
}

#[test]
fn store_obligation_dedups_by_hash() {
    let mut store = vec![];
    store_obligation(&mut store, prov(1, None, NO));
    store_obligation(&mut store, prov(2, None, NO));
    store_obligation(&mut store, prov(1, Some(3), YES));
    assert_eq!(store.len(), 2);
    assert_eq!(store[0].it.hash, ObligationHash(1));
    assert_eq!(store[0].full_data, None);
}

#[test]
fn drain_removes_only_implied_ambiguities() {
    let mut store = vec![
        prov(1, Some(0), AMBIG), // implied, ambiguous, has data: dropped
        prov(2, None, AMBIG),    // no data: kept
        prov(3, Some(1), NO),    // decided: kept
        prov(4, Some(2), AMBIG), // not implied: kept
    ];
    drain_implied_ambiguities(&mut store, &vec![true, true, true, false]);
    let hashes: Vec<u64> = store.iter().map(|p| p.it.hash.0).collect();
    assert_eq!(hashes, vec![2, 3, 4]);
}

#[test]
fn provenance_map_and_forget() {
    let p = prov(9, Some(1), NO);
    let q = p.map(|o| o.hash);
    assert_eq!(q.it, ObligationHash(9));
    assert_eq!(q.full_data, Some(1));
    assert_eq!(*q, ObligationHash(9));
    assert_eq!(p.forget().hash, ObligationHash(9));
}

#[test]
fn store_tree_keeps_first() {
    let mut slot = None;
    store_tree(&mut slot, 1);
    store_tree(&mut slot, 2);
    assert_eq!(slot, Some(1));
}

#[test]
fn reported_errors_replaced_when_count_changes() {
    let mut store = vec![(span(0, 1), vec![ObligationHash(1)])];
    replace_reported_errors(&mut store, vec![(span(5, 6), vec![])]);
    assert_eq!(store, vec![(span(0, 1), vec![ObligationHash(1)])]);
    replace_reported_errors(&mut store, vec![(span(5, 6), vec![]), (span(7, 8), vec![ObligationHash(2)])]);
    assert_eq!(store.len(), 2);
    assert_eq!(store[1].1, vec![ObligationHash(2)]);
}

fn facts(writeable: bool, lhs_unit: bool, trait_predicate: bool, rhs_lang_item: bool, self_ty_var: bool) -> PredicateFacts {
    PredicateFacts { writeable, lhs_unit, trait_predicate, rhs_lang_item, lhs_lang_item: false, self_ty_var }
}

#[test]
fn necessity_decisions() {
    assert_eq!(guess_predicate_necessity(&facts(false, false, true, false, false)), ObligationNecessity::No);
    assert_eq!(guess_predicate_necessity(&facts(true, true, true, false, false)), ObligationNecessity::No);
    assert_eq!(guess_predicate_necessity(&facts(true, false, true, true, false)), ObligationNecessity::OnError);
    assert_eq!(guess_predicate_necessity(&facts(true, false, false, false, false)), ObligationNecessity::OnError);
    assert_eq!(guess_predicate_necessity(&facts(true, false, true, false, false)), ObligationNecessity::Yes);
    assert_eq!(obligation_necessity(&facts(true, false, true, false, true), false), ObligationNecessity::No);
    assert_eq!(obligation_necessity(&facts(true, true, false, false, false), true), ObligationNecessity::No);
    assert_eq!(obligation_necessity(&facts(true, false, true, false, false), true), ObligationNecessity::Yes);
}

#[test]
fn erased_obligation_fields() {
    let f = FulfillmentData { hash: ObligationHash(11), result: AMBIG };
    let o = erase_non_local_data(f, &facts(true, false, true, false, false), false);
    assert_eq!(o.hash, ObligationHash(11));
    assert_eq!(o.kind, ObligationKind::Ambiguous);
    assert_eq!(o.necessity, ObligationNecessity::Yes);
    assert_eq!(o.result, AMBIG);
}

#[test]
fn reported_predicates_found_exactly_or_by_search() {
    let raw = vec![obl(5, ObligationNecessity::Yes, NO), obl(7, ObligationNecessity::Yes, NO)];
    let preds = vec![ObligationHash(7), ObligationHash(8), ObligationHash(9), ObligationHash(5)];
    // 7 and 5 are found by hash; 8 only by the tree search; 9 not at all.
    let shallow = vec![Some(ObligationIdx(0)), Some(ObligationIdx(1)), None, None];
    assert_eq!(
        match_reported_predicates(&raw, &preds, &shallow),
        vec![
            (ObligationIdx(1), ObligationHash(7)),
            (ObligationIdx(1), ObligationHash(8)),
            (ObligationIdx(0), ObligationHash(5)),
        ]
    );
    assert_eq!(match_reported_predicates(&raw, &vec![], &vec![]), vec![]);
}

#[test]
fn reported_error_attached_to_first_expression() {
    let raw = vec![obl(5, ObligationNecessity::Yes, NO), obl(7, ObligationNecessity::Yes, NO)];
    let exprs = vec![
        Expr { range: RANGE, snippet: String::new(), obligations: vec![ObligationIdx(1)], kind: ExprKind::Call, is_body: false },
        Expr { range: RANGE, snippet: String::new(), obligations: vec![ObligationIdx(0)], kind: ExprKind::Misc, is_body: true },
    ];
    let preds = vec![ObligationHash(5), ObligationHash(7)];
    assert_eq!(
        relate_trait_bound(&exprs, &raw, &preds, &vec![None, None]),
        Some((ExprIdx(0), vec![ObligationHash(5), ObligationHash(7)]))
    );
    let only5 = vec![ObligationHash(5)];
    assert_eq!(
        relate_trait_bound(&exprs, &raw, &only5, &vec![None]),
        Some((ExprIdx(1), vec![ObligationHash(5)]))
    );
    let unknown = vec![ObligationHash(9)];
    assert_eq!(relate_trait_bound(&exprs, &raw, &unknown, &vec![None]), None);
}

#[test]
fn drain_targets_of_calls() {
    let call = ExprShape::Call { id: id(1), callable: id(2), args: vec![id(3), id(4)] };
    assert_eq!(
        drain_targets(&call),
        vec![
            (id(3), BinKind::CallArg),
            (id(4), BinKind::CallArg),
            (id(2), BinKind::CallableExpr),
            (id(1), BinKind::Call),
        ]
    );
    let method =
        ExprShape::MethodCall { id: id(5), segment: id(6), receiver: id(7), args: vec![id(8)] };
    assert_eq!(
        drain_targets(&method),
        vec![
            (id(8), BinKind::CallArg),
            (id(6), BinKind::Call),
            (id(7), BinKind::CallArg),
            (id(5), BinKind::Misc),
        ]
    );
    assert!(drain_targets(&ExprShape::Other).is_empty());
}

#[test]
fn bins_drain_nested_then_misc() {
    // Obligations 0..5 come from nodes 10, 11, 10, 12, 11, 13.
    let nodes = vec![id(10), id(11), id(10), id(12), id(11), id(13)];
    let mut b = BinCreator::new(nodes);
    // The argument expression holds nodes 11 and 12.
    b.drain_nested(id(20), BinKind::CallArg, &vec![id(11), id(12)]);
    // Nothing is left under node 12: no bin is made.
    b.drain_nested(id(21), BinKind::Call, &vec![id(12)]);
    let bins = b.into_bins();
    assert_eq!(bins.len(), 3);
    assert_eq!(bins[0].hir_id, id(20));
    assert_eq!(bins[0].kind, BinKind::CallArg);
    assert_eq!(bins[0].obligations, vec![1, 3, 4]);
    assert_eq!(bins[1].hir_id, id(10));
    assert_eq!(bins[1].kind, BinKind::Misc);
    assert_eq!(bins[1].obligations, vec![0, 2]);
    assert_eq!(bins[2].hir_id, id(13));
    assert_eq!(bins[2].obligations, vec![5]);
}

#[test]
fn drain_looks_only_at_last_hundred() {
    // 102 implied ambiguities: the two oldest are outside the window.
    let mut store: Vec<_> = (0..102u64).map(|h| prov(h, Some(h as usize), AMBIG)).collect();
    let implied = vec![true; 102];
    drain_implied_ambiguities(&mut store, &implied);
    let hashes: Vec<u64> = store.iter().map(|p| p.it.hash.0).collect();
    assert_eq!(hashes, vec![0, 1]);
}

#[test]
fn necessity_of_lang_item_self_type() {
    let mut p = facts(true, false, true, false, false);
    p.lhs_lang_item = true;
    assert_eq!(guess_predicate_necessity(&p), ObligationNecessity::OnError);
    assert_eq!(obligation_necessity(&p, false), ObligationNecessity::OnError);
}

#[test]
fn obligation_hook_steps() {
    let s = process_obligation(false, true, &YES, false, ObligationNecessity::Yes);
    assert!(s.drain_ambiguities && !s.record && !s.keep_full_data);
    let s = process_obligation(false, true, &YES, true, ObligationNecessity::Yes);
    assert!(s.drain_ambiguities && s.record && s.keep_full_data);
    let s = process_obligation(false, true, &AMBIG, false, ObligationNecessity::OnError);
    assert!(!s.drain_ambiguities && s.record && !s.keep_full_data);
    let s = process_obligation(false, true, &NO, false, ObligationNecessity::OnError);
    assert!(s.drain_ambiguities && s.record && s.keep_full_data);
    let s = process_obligation(false, true, &NO, false, ObligationNecessity::No);
    assert!(s.record && !s.keep_full_data);
    // While a tree is inspected, or with no body, nothing happens.
    let s = process_obligation(true, true, &NO, true, ObligationNecessity::Yes);
    assert!(!s.drain_ambiguities && !s.record && !s.keep_full_data);
    let s = process_obligation(false, false, &NO, true, ObligationNecessity::Yes);
    assert!(!s.drain_ambiguities && !s.record && !s.keep_full_data);
}

#[test]
fn bin_obligations_with_data_first() {
    let provenance = vec![
        Provenance { hir_id: id(0), full_data: Some(0), it: ObligationIdx(10) },
        Provenance { hir_id: id(0), full_data: None, it: ObligationIdx(11) },
        Provenance { hir_id: id(0), full_data: Some(1), it: ObligationIdx(12) },
        Provenance { hir_id: id(0), full_data: Some(2), it: ObligationIdx(13) },
    ];
    // The filters drop the obligation at the second place with data.
    let bin = vec![1, 0, 2, 3];
    let kept = vec![true, true, false, true];
    assert_eq!(
        bin_obligations(&bin, &provenance, &kept),
        vec![ObligationIdx(10), ObligationIdx(13), ObligationIdx(11)]
    );
}

#[test]
fn child_most_expression_is_inside_all() {
    // Expression 5 encloses 7, which encloses 9; each node is its own parent.
    let candidates = vec![ExprIdx(5), ExprIdx(9), ExprIdx(7)];
    let encloses = vec![
        vec![true, true, true],
        vec![false, true, false],
        vec![false, true, true],
    ];
    assert_eq!(child_most_expr(&candidates, &encloses), Some(ExprIdx(9)));
    let unrelated = vec![vec![true, false], vec![false, true]];
    assert_eq!(child_most_expr(&vec![ExprIdx(1), ExprIdx(2)], &unrelated), None);
    assert_eq!(child_most_expr(&vec![], &vec![]), None);
}

fn range(line: usize) -> CharRange {
    CharRange { start: CharPos { line, column: 0 }, end: CharPos { line, column: 5 }, filename: 0 }
}

#[test]
fn sort_bins_one_expression_per_ranged_bin() {
    let provenance = vec![
        Provenance { hir_id: id(1), full_data: Some(0), it: ObligationIdx(0) },
        Provenance { hir_id: id(1), full_data: None, it: ObligationIdx(1) },
        Provenance { hir_id: id(2), full_data: Some(1), it: ObligationIdx(2) },
    ];
    let bins = vec![
        BinFacts {
            hir_id: id(1),
            kind: BinKind::Call,
            obligations: vec![1, 0],
            kept: vec![true, true],
            range: Some(range(3)),
            snippet: String::from("f(x)"),
        },
        // No range: no expression.
        BinFacts {
            hir_id: id(9),
            kind: BinKind::Misc,
            obligations: vec![2],
            kept: vec![true],
            range: None,
            snippet: String::new(),
        },
        BinFacts {
            hir_id: id(2),
            kind: BinKind::CallArg,
            obligations: vec![2],
            kept: vec![false],
            range: Some(range(4)),
            snippet: String::from("x"),
        },
    ];
    let (exprs, nodes) = sort_bins(&bins, &provenance, id(2));
    assert_eq!(exprs.len(), 2);
    assert_eq!(nodes, vec![id(1), id(2)]);
    assert_eq!(exprs[0].obligations, vec![ObligationIdx(0), ObligationIdx(1)]);
    assert_eq!(exprs[0].kind, ExprKind::Call);
    assert!(!exprs[0].is_body);
    assert_eq!(exprs[0].snippet, "f(x)");
    assert_eq!(exprs[0].range, range(3));
    // The filters dropped the only obligation with data.
    assert!(exprs[1].obligations.is_empty());
    assert!(exprs[1].is_body);
}

#[test]
fn trait_errors_for_reported_spans() {
    let raw = vec![obl(5, ObligationNecessity::Yes, NO), obl(7, ObligationNecessity::Yes, NO)];
    let exprs = vec![
        Expr { range: RANGE, snippet: String::new(), obligations: vec![ObligationIdx(1)], kind: ExprKind::Call, is_body: false },
        Expr { range: RANGE, snippet: String::new(), obligations: vec![], kind: ExprKind::Misc, is_body: true },
    ];
    let errs = vec![
        // Matched: attached to expression 0 with its hash.
        ReportedError { range: range(1), predicates: vec![ObligationHash(7)], shallow: vec![None], enclosing: None },
        // Unmatched, innermost enclosing expression is 1.
        ReportedError {
            range: range(2),
            predicates: vec![ObligationHash(9)],
            shallow: vec![None],
            enclosing: Some((vec![ExprIdx(0), ExprIdx(1)], vec![vec![true, true], vec![false, true]])),
        },
        // Unmatched and no node: nothing.
        ReportedError { range: range(3), predicates: vec![], shallow: vec![], enclosing: None },
    ];
    let out = relate_trait_bounds(&exprs, &raw, &errs);
    assert_eq!(out.len(), 2);
    assert_eq!(out[0].idx, ExprIdx(0));
    assert_eq!(out[0].hashes, vec![ObligationHash(7)]);
    assert_eq!(out[0].range, range(1));
    assert_eq!(out[1].idx, ExprIdx(1));
    assert!(out[1].hashes.is_empty());
}

#[test]
fn trait_errors_for_unreported_nodes() {
    let raw = vec![obl(5, ObligationNecessity::Yes, NO), obl(7, ObligationNecessity::Yes, YES)];
    let exprs = vec![
        Expr { range: RANGE, snippet: String::new(), obligations: vec![ObligationIdx(0), ObligationIdx(1)], kind: ExprKind::Call, is_body: false },
    ];
    let expr_nodes = vec![id(4)];
    let nodes = vec![(id(3), range(1)), (id(4), range(2))];
    let out = relate_unreported_errors(&exprs, &raw, &expr_nodes, &nodes);
    assert_eq!(out.len(), 1);
    assert_eq!(out[0].idx, ExprIdx(0));
    assert_eq!(out[0].range, range(2));
    assert_eq!(out[0].hashes, vec![ObligationHash(5)]);
}
