//! Obligation data sent to the frontend, and the evaluation results that
//! the trait solver hands back.
use std::num::ParseIntError;
use std::ops::Deref;
use std::str::FromStr;

use vstd::prelude::*;

use crate::analysis::hir::HirId;

verus! {

/// Why the solver could not decide a goal.
#[derive(Clone, Copy, Debug, PartialEq, Eq, Structural, Hash)]
pub enum MaybeCause {
    Ambiguity,
    Overflow,
}

/// How sure the solver is of a solution.
#[derive(Clone, Copy, Debug, PartialEq, Eq, Structural, Hash)]
pub enum Certainty {
    Yes,
    Maybe(MaybeCause),
}

/// The solver found no solution.
#[derive(Clone, Copy, Debug, PartialEq, Eq, Structural, Hash)]
pub struct NoSolution;

/// The outcome of evaluating a goal.
pub type EvaluationResult = Result<Certainty, NoSolution>;

/// The goal holds.
pub open spec fn spec_is_yes(r: EvaluationResult) -> bool {
    r == Ok::<Certainty, NoSolution>(Certainty::Yes)
}

/// The solver could not decide the goal.
pub open spec fn spec_is_maybe(r: EvaluationResult) -> bool {
    r matches Ok(Certainty::Maybe(_))
}

/// The goal fails.
pub open spec fn spec_is_no(r: EvaluationResult) -> bool {
    r is Err
}

pub fn is_yes(r: &EvaluationResult) -> (b: bool)
    ensures
        b == spec_is_yes(*r),
{
    match r {
        Ok(Certainty::Yes) => true,
        _ => false,
    }
}

pub fn is_maybe(r: &EvaluationResult) -> (b: bool)
    ensures
        b == spec_is_maybe(*r),
{
    match r {
        Ok(Certainty::Maybe(_)) => true,
        _ => false,
    }
}

pub fn is_no(r: &EvaluationResult) -> (b: bool)
    ensures
        b == spec_is_no(*r),
{
    match r {
        Err(_) => true,
        _ => false,
    }
}

/// Every result is exactly one of yes, maybe and no.
pub proof fn law_result_trichotomy(r: EvaluationResult)
    ensures
        spec_is_yes(r) || spec_is_maybe(r) || spec_is_no(r),
        !(spec_is_yes(r) && spec_is_maybe(r)),
        !(spec_is_yes(r) && spec_is_no(r)),
        !(spec_is_maybe(r) && spec_is_no(r)),
{
}

/// The text shown for an evaluation result.
pub open spec fn pretty_text(r: EvaluationResult) -> Seq<char> {
    match r {
        Ok(Certainty::Yes) => "Yes"@,
        Ok(Certainty::Maybe(MaybeCause::Overflow)) => "No: Overflow"@,
        Ok(Certainty::Maybe(MaybeCause::Ambiguity)) => "No: Ambiguity"@,
        Err(_) => "No"@,
    }
}

/// Pretty printing for results.
pub trait PrettyResultExt {
    spec fn result_of(&self) -> EvaluationResult;

    fn pretty(&self) -> (s: String)
        ensures
            s@ == pretty_text(self.result_of()),
    ;

    fn is_yes(&self) -> (b: bool)
        ensures
            b == spec_is_yes(self.result_of()),
    ;
}

impl PrettyResultExt for EvaluationResult {
    open spec fn result_of(&self) -> EvaluationResult {
        *self
    }

    fn is_yes(&self) -> (b: bool) {
        matches!(self, Ok(Certainty::Yes))
    }

    fn pretty(&self) -> (s: String) {
        let str = match self {
            Ok(Certainty::Yes) => "Yes",
            Ok(Certainty::Maybe(MaybeCause::Overflow)) => "No: Overflow",
            Ok(Certainty::Maybe(MaybeCause::Ambiguity)) => "No: Ambiguity",
            Err(NoSolution) => "No",
        };
        str.to_owned()
    }
}

/// The label under which a result is serialized.
pub open spec fn result_label(r: EvaluationResult) -> Seq<char> {
    match r {
        Ok(Certainty::Yes) => "yes"@,
        Ok(Certainty::Maybe(MaybeCause::Overflow)) => "maybe-overflow"@,
        Ok(Certainty::Maybe(MaybeCause::Ambiguity)) => "maybe-ambiguity"@,
        Err(_) => "no"@,
    }
}

/// Serialization of evaluation results as labels.
pub struct EvaluationResultDef;

impl EvaluationResultDef {
    /// The label that stands for `value` in serialized output.
    pub fn serialize(value: &EvaluationResult) -> (s: &'static str)
        ensures
            s@ == result_label(*value),
    {
        match value {
            Ok(Certainty::Yes) => "yes",
            Ok(Certainty::Maybe(MaybeCause::Overflow)) => "maybe-overflow",
            Ok(Certainty::Maybe(MaybeCause::Ambiguity)) => "maybe-ambiguity",
            Err(..) => "no",
        }
    }
}

/// How important an obligation is to show.
#[derive(Clone, Copy, Debug, PartialEq, Eq, Structural, Hash)]
pub enum ObligationNecessity {
    No,
    OnError,
    Yes,
}

impl ObligationNecessity {
    pub fn is_necessary(&self, res: EvaluationResult) -> (b: bool)
        ensures
            b == (*self == ObligationNecessity::Yes),
    {
        matches!((self, res), (ObligationNecessity::Yes, _))
    }
}

/// Whether an obligation with this necessity and result keeps its full
/// data (and so can have its proof tree built): necessary ones always,
/// on-error ones when they failed.
pub open spec fn keeps_full_data(necessity: ObligationNecessity, result: EvaluationResult) -> bool {
    necessity == ObligationNecessity::Yes || (necessity == ObligationNecessity::OnError
        && result is Err)
}

pub fn needs_full_data(necessity: ObligationNecessity, result: &EvaluationResult) -> (b: bool)
    ensures
        b == keeps_full_data(necessity, *result),
{
    matches!(necessity, ObligationNecessity::Yes) || (matches!(necessity, ObligationNecessity::OnError)
        && is_no(result))
}

/// The outcome of an obligation as shown to the user.
#[derive(Clone, Copy, Debug, PartialEq, Eq, Structural, Hash)]
pub enum ObligationKind {
    Success,
    Ambiguous,
    Failure,
}

/// The kind of an obligation with the given result.
pub open spec fn kind_of(r: EvaluationResult) -> ObligationKind {
    match r {
        Ok(Certainty::Yes) => ObligationKind::Success,
        Ok(..) => ObligationKind::Ambiguous,
        Err(..) => ObligationKind::Failure,
    }
}

/// The kind of expression an obligation is attached to.
#[derive(Clone, Copy, Debug, PartialEq, Eq, Structural, Hash)]
pub enum ExprKind {
    Misc,
    CallableExpr,
    Call,
    CallArg,
}

/// An item definition: its crate and its index in that crate.
#[derive(Clone, Copy, Debug, PartialEq, Eq, Structural, Hash)]
pub struct DefId {
    pub krate: u32,
    pub index: u32,
}

/// Where a trait candidate comes from.
#[derive(Clone, Copy, Debug, PartialEq, Eq, Structural, Hash)]
pub enum CandidateSource {
    CoherenceUnknowable,
    BuiltinImpl,
    AliasBound,
    ParamEnv(usize),
    Impl(DefId),
}

/// What the solver probed when it tried a candidate.
#[derive(Clone, Copy, Debug, PartialEq, Eq, Structural, Hash)]
pub enum ProbeKind {
    Root,
    NormalizedSelfTyAssembly,
    TryNormalizeNonRigid,
    UnsizeAssembly,
    UpcastProjectionCompatibility,
    TraitCandidate { source: CandidateSource },
    ShadowedEnvProbing,
    OpaqueTypeStorageLookup,
}

/// What the analysis reads of a goal's predicate.
#[derive(Clone, Copy, Debug, PartialEq, Eq, Structural, Hash)]
pub enum PredicateShape {
    /// A trait clause `Self: Trait`.
    Trait {
        /// The clause is positive (not `!Trait`).
        positive: bool,
        /// The trait is one of the `Fn` traits.
        is_fn_trait: bool,
        /// The number of parameters of the self type, when it is a function.
        self_fn_arity: Option<usize>,
        /// The number of parameters that the `Fn` trait expects, when known.
        fn_trait_arity: Option<usize>,
        /// The self type is defined in the local crate.
        self_is_local: bool,
        /// The trait is defined in the local crate.
        trait_is_local: bool,
    },
    /// A projection clause `<T as Trait>::Assoc == U`.
    Projection,
    /// Any other predicate.
    Other,
}

/// Index of an expression of a body.
#[derive(Clone, Copy, Debug, PartialEq, Eq, Structural, Hash)]
pub struct ExprIdx(pub usize);

/// Index of an obligation of a body.
#[derive(Clone, Copy, Debug, PartialEq, Eq, Structural, Hash)]
pub struct ObligationIdx(pub usize);

/// A stable hash of an obligation's predicate.
#[derive(Clone, Copy, Debug, PartialEq, Eq, Structural, Hash)]
pub struct ObligationHash(pub u64);

/// An obligation of a body as the analysis reads it.
#[derive(Clone, Copy, Debug)]
pub struct Obligation {
    pub hash: ObligationHash,
    pub kind: ObligationKind,
    pub necessity: ObligationNecessity,
    pub result: EvaluationResult,
}

/// A position in a source file.
#[derive(Clone, Copy, Debug, PartialEq, Eq, Structural, Hash)]
pub struct CharPos {
    pub line: usize,
    pub column: usize,
}

/// A range of source text: its file (by index), start and end.
#[derive(Clone, Copy, Debug, PartialEq, Eq, Structural, Hash)]
pub struct CharRange {
    pub start: CharPos,
    pub end: CharPos,
    pub filename: usize,
}

/// An expression of a body and the obligations attached to it.
#[derive(Clone, Debug)]
pub struct Expr {
    pub range: CharRange,
    pub snippet: String,
    pub obligations: Vec<ObligationIdx>,
    pub kind: ExprKind,
    pub is_body: bool,
}

/// A trait error reported at `range`, attached to expression `idx`, with the
/// hashes of the obligations it names.
#[derive(Clone, Debug)]
pub struct TraitError {
    pub idx: ExprIdx,
    pub range: CharRange,
    pub hashes: Vec<ObligationHash>,
}

/// An element together with the HIR node it came from, and the index of
/// its full data when that data is kept.
#[derive(Clone, Copy, Debug)]
pub struct Provenance<T> {
    pub hir_id: HirId,
    pub full_data: Option<usize>,
    pub it: T,
}

impl<T> Provenance<T> {
    /// The same provenance for `f` applied to the element.
    pub fn map<U, F: FnOnce(&T) -> U>(&self, f: F) -> (r: Provenance<U>)
        requires
            f.requires((&self.it,)),
        ensures
            f.ensures((&self.it,), r.it),
            r.hir_id == self.hir_id,
            r.full_data == self.full_data,
    {
        Provenance { it: f(&self.it), hir_id: self.hir_id, full_data: self.full_data }
    }

    /// The element, without its provenance.
    pub fn forget(self) -> (r: T)
        ensures
            r == self.it,
    {
        self.it
    }
}

impl<T> Deref for Provenance<T> {
    type Target = T;

    fn deref(&self) -> (r: &T)
        ensures
            *r == self.it,
    {
        &self.it
    }
}

/// A fulfilled obligation as the analysis sees it: its hash and result.
#[derive(Clone, Copy, Debug)]
pub struct FulfillmentData {
    pub hash: ObligationHash,
    pub result: EvaluationResult,
}

impl FulfillmentData {
    pub fn kind(&self) -> (k: ObligationKind)
        ensures
            k == kind_of(self.result),
    {
        match self.result {
            Ok(Certainty::Yes) => ObligationKind::Success,
            Ok(..) => ObligationKind::Ambiguous,
            Err(..) => ObligationKind::Failure,
        }
    }
}

impl From<u64> for ObligationHash {
    fn from(value: u64) -> (r: ObligationHash) {
        ObligationHash(value)
    }
}

impl vstd::std_specs::convert::FromSpecImpl<u64> for ObligationHash {
    open spec fn obeys_from_spec() -> bool {
        true
    }

    open spec fn from_spec(v: u64) -> ObligationHash {
        ObligationHash(v)
    }
}

impl Deref for ObligationHash {
    type Target = u64;

    fn deref(&self) -> (r: &u64)
        ensures
            *r == self.0,
    {
        &self.0
    }
}

/// The value of a sequence of decimal digits.
pub open spec fn digits_value(s: Seq<char>) -> int
    decreases s.len(),
{
    if s.len() == 0 {
        0
    } else {
        digits_value(s.drop_last()) * 10 + (s.last() as int - '0' as int)
    }
}

/// Every character is an ASCII decimal digit.
pub open spec fn all_digits(s: Seq<char>) -> bool {
    forall|i: int| 0 <= i < s.len() ==> '0' <= #[trigger] s[i] <= '9'
}

/// The digits of an unsigned decimal number: the text without one leading `+`.
pub open spec fn unsigned_digits(s: Seq<char>) -> Seq<char> {
    if s.len() > 0 && s[0] == '+' {
        s.drop_first()
    } else {
        s
    }
}

/// The text is an unsigned decimal number that fits in 64 bits.
pub open spec fn is_u64_text(s: Seq<char>) -> bool {
    let d = unsigned_digits(s);
    d.len() > 0 && all_digits(d) && digits_value(d) <= u64::MAX
}

/// The character of a decimal digit.
pub open spec fn digit_char(d: nat) -> char {
    (48 + d) as char
}

/// The decimal text of a number, most significant digit first and without
/// leading zeros: the text in which a hash is sent.
pub open spec fn decimal(n: nat) -> Seq<char>
    decreases n,
{
    if n < 10 {
        seq![digit_char(n)]
    } else {
        decimal(n / 10).push(digit_char(n % 10))
    }
}

proof fn lemma_decimal_digits(n: nat)
    ensures
        decimal(n).len() > 0,
        all_digits(decimal(n)),
        digits_value(decimal(n)) == n,
    decreases n,
{
    if n < 10 {
        let s = decimal(n);
        assert(s.drop_last() =~= Seq::<char>::empty());
        assert(s[0] == digit_char(n));
        assert(digit_char(n) as int == 48 + n);
        assert(s.last() == s[0]);
        assert('0' as int == 48);
        assert(digits_value(s.drop_last()) == 0);
        assert(digits_value(s) == digits_value(s.drop_last()) * 10 + (s.last() as int - '0' as int));
    } else {
        lemma_decimal_digits(n / 10);
        let s = decimal(n);
        assert(s.drop_last() =~= decimal(n / 10));
        assert(s.last() == digit_char(n % 10));
        assert(digit_char(n % 10) as int == 48 + n % 10);
        assert forall|i: int| 0 <= i < s.len() implies '0' <= #[trigger] s[i] <= '9' by {
            if i < s.len() - 1 {
                assert(s[i] == decimal(n / 10)[i]);
            }
        }
        assert((n / 10) * 10 + n % 10 == n) by (nonlinear_arith);
        assert('0' as int == 48);
        assert(digits_value(s) == digits_value(s.drop_last()) * 10 + (s.last() as int - '0' as int));
    }
}

/// The decimal text of a hash reads back as the same hash.
pub proof fn law_decimal_round_trip(n: u64)
    ensures
        is_u64_text(decimal(n as nat)),
        digits_value(unsigned_digits(decimal(n as nat))) == n,
{
    lemma_decimal_digits(n as nat);
    assert(decimal(n as nat)[0] != '+');
}

#[verifier::external_type_specification]
#[verifier::external_body]
pub struct ExParseIntError(ParseIntError);

/// `<u64 as FromStr>::from_str`: parses an optional `+` followed by decimal
/// digits whose value fits in 64 bits, and fails on anything else.
#[verifier::external_body]
fn parse_u64(s: &str) -> (r: Result<u64, ParseIntError>)
    ensures
        r is Ok <==> is_u64_text(s@),
        r matches Ok(n) ==> n == digits_value(unsigned_digits(s@)),
{
    <u64 as FromStr>::from_str(s)
}

/// The text is not a valid obligation hash.
#[derive(Clone, Copy, Debug, PartialEq, Eq, Structural)]
pub struct HashParseError;

impl ObligationHash {
    /// Reads a hash from its decimal text.
    pub fn parse(s: &str) -> (r: Result<ObligationHash, HashParseError>)
        ensures
            r is Ok <==> is_u64_text(s@),
            r matches Ok(h) ==> h.0 == digits_value(unsigned_digits(s@)),
    {
        match parse_u64(s) {
            Ok(n) => Ok(ObligationHash::from(n)),
            Err(_) => Err(HashParseError),
        }
    }
}

impl FromStr for ObligationHash {
    type Err = HashParseError;

    fn from_str(s: &str) -> (r: Result<ObligationHash, HashParseError>)
        ensures
            r is Ok <==> is_u64_text(s@),
            r matches Ok(h) ==> h.0 == digits_value(unsigned_digits(s@)),
    {
        ObligationHash::parse(s)
    }
}

} // verus!
