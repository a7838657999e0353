//! Properties of candidates.
use vstd::prelude::*;

use crate::types::{CandidateSource, ProbeKind};

verus! {

/// Impl candidates, user-written or builtin, carry information worth showing.
pub open spec fn informative(kind: ProbeKind) -> bool {
    kind matches ProbeKind::TraitCandidate { source: CandidateSource::Impl(_) } || kind
        matches ProbeKind::TraitCandidate { source: CandidateSource::BuiltinImpl }
}

pub fn is_informative_probe(kind: ProbeKind) -> (r: bool)
    ensures
        r == informative(kind),
{
    matches!(
        kind,
        ProbeKind::TraitCandidate { source: CandidateSource::Impl(_) }
            | ProbeKind::TraitCandidate { source: CandidateSource::BuiltinImpl }
    )
}

} // verus!
