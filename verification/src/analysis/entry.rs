//! What the inspection hook does with each obligation that the solver
//! decides.
use vstd::prelude::*;

use crate::types::{
    is_no, is_yes, keeps_full_data, needs_full_data, spec_is_no, spec_is_yes, EvaluationResult,
    ObligationNecessity,
};

verus! {

/// The steps the hook takes for one decided obligation.
#[derive(Clone, Copy, Debug, PartialEq, Eq, Structural)]
pub struct ObligationSteps {
    /// Drop the stored ambiguities that this obligation implies.
    pub drain_ambiguities: bool,
    /// Record the obligation.
    pub record: bool,
    /// Keep its full data, so that its proof tree can be built.
    pub keep_full_data: bool,
}

/// Nothing happens while a proof tree is being inspected already
/// (`in_progress`) or when no body is being checked (`!has_body`).
/// Otherwise a decided result (success or failure) drains the ambiguities
/// it implies; successes are recorded only when they are asked for; and a
/// recorded obligation keeps its full data when its necessity and result
/// call for it.
pub fn process_obligation(
    in_progress: bool,
    has_body: bool,
    result: &EvaluationResult,
    include_successes: bool,
    necessity: ObligationNecessity,
) -> (r: ObligationSteps)
    ensures
        ({
            let active = !in_progress && has_body;
            &&& r.drain_ambiguities == (active && (spec_is_yes(*result) || spec_is_no(*result)))
            &&& r.record == (active && (include_successes || !spec_is_yes(*result)))
            &&& r.keep_full_data == (r.record && keeps_full_data(necessity, *result))
        }),
{
    if in_progress || !has_body {
        return ObligationSteps { drain_ambiguities: false, record: false, keep_full_data: false };
    }
    let drain_ambiguities = is_yes(result) || is_no(result);
    let record = include_successes || !is_yes(result);
    let keep_full_data = record && needs_full_data(necessity, result);
    ObligationSteps { drain_ambiguities, record, keep_full_data }
}

} // verus!
