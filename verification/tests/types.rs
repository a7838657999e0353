use std::str::FromStr;

use argus::types::{
    is_maybe, is_no, is_yes, Certainty, EvaluationResult, EvaluationResultDef, FulfillmentData,
    HashParseError, MaybeCause, NoSolution, ObligationHash, ObligationKind, ObligationNecessity,
    PrettyResultExt,
};

const YES: EvaluationResult = Ok(Certainty::Yes);
const AMBIG: EvaluationResult = Ok(Certainty::Maybe(MaybeCause::Ambiguity));
const OVERFLOW: EvaluationResult = Ok(Certainty::Maybe(MaybeCause::Overflow));
const NO: EvaluationResult = Err(NoSolution);

#[test]
fn result_predicates() {
    assert!(is_yes(&YES) && !is_maybe(&YES) && !is_no(&YES));
    assert!(!is_yes(&AMBIG) && is_maybe(&AMBIG) && !is_no(&AMBIG));
    assert!(is_maybe(&OVERFLOW));
    assert!(!is_yes(&NO) && !is_maybe(&NO) && is_no(&NO));
}

#[test]
fn pretty_results() {
    assert_eq!(YES.pretty(), "Yes");
    assert_eq!(OVERFLOW.pretty(), "No: Overflow");
    assert_eq!(AMBIG.pretty(), "No: Ambiguity");
    assert_eq!(NO.pretty(), "No");
    assert!(PrettyResultExt::is_yes(&YES));
    assert!(!PrettyResultExt::is_yes(&NO));
}

#[test]
fn serialized_result_labels() {
    assert_eq!(EvaluationResultDef::serialize(&YES), "yes");
    assert_eq!(EvaluationResultDef::serialize(&OVERFLOW), "maybe-overflow");
    assert_eq!(EvaluationResultDef::serialize(&AMBIG), "maybe-ambiguity");
    assert_eq!(EvaluationResultDef::serialize(&NO), "no");
}

#[test]
fn fulfillment_kinds() {
    let h = ObligationHash(1);
    assert_eq!(FulfillmentData { hash: h, result: YES }.kind(), ObligationKind::Success);
    assert_eq!(FulfillmentData { hash: h, result: AMBIG }.kind(), ObligationKind::Ambiguous);
    assert_eq!(FulfillmentData { hash: h, result: NO }.kind(), ObligationKind::Failure);
}

#[test]
fn necessity_is_necessary() {
    assert!(ObligationNecessity::Yes.is_necessary(NO));
    assert!(ObligationNecessity::Yes.is_necessary(YES));
    assert!(!ObligationNecessity::OnError.is_necessary(NO));
    assert!(!ObligationNecessity::No.is_necessary(NO));
}

#[test]
fn obligation_hash_conversions() {
    let h = ObligationHash::from(12345u64);
    assert_eq!(*h, 12345);
    assert_eq!(ObligationHash::from_str("12345"), Ok(h));
    assert_eq!(ObligationHash::parse("+7"), Ok(ObligationHash(7)));
    assert_eq!(ObligationHash::parse("18446744073709551615"), Ok(ObligationHash(u64::MAX)));
}

#[test]
fn obligation_hash_parse_errors() {
    assert_eq!(ObligationHash::parse(""), Err(HashParseError));
    assert_eq!(ObligationHash::parse("+"), Err(HashParseError));
    assert_eq!(ObligationHash::parse("-1"), Err(HashParseError));
    assert_eq!(ObligationHash::parse("12a"), Err(HashParseError));
    assert_eq!(ObligationHash::parse("18446744073709551616"), Err(HashParseError));
}
