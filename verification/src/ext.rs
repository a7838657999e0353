//! How necessary an obligation is to show, decided from what the trait
//! solver reports of its predicate.
use vstd::prelude::*;

use crate::types::{kind_of, FulfillmentData, Obligation, ObligationNecessity};

verus! {

/// What the necessity of an obligation depends on.
#[derive(Clone, Copy, Debug, PartialEq, Eq, Structural, Hash)]
pub struct PredicateFacts {
    /// The predicate is a trait, outlives or projection clause, which the
    /// user can write.
    pub writeable: bool,
    /// The self type of the predicate is the unit type.
    pub lhs_unit: bool,
    /// The predicate is a trait predicate.
    pub trait_predicate: bool,
    /// The trait of the predicate is a language item.
    pub rhs_lang_item: bool,
    /// The self type of the trait predicate is a language item.
    pub lhs_lang_item: bool,
    /// The self type of the trait predicate is a type variable.
    pub self_ty_var: bool,
}

/// The necessity guessed from a predicate alone: predicates the user cannot
/// write and those on the unit type are unnecessary; other predicates are
/// shown on error unless they are trait predicates where neither the self
/// type nor the trait is a language item, which are necessary.
pub open spec fn guessed_necessity(p: PredicateFacts) -> ObligationNecessity {
    if !p.writeable || p.lhs_unit {
        ObligationNecessity::No
    } else if (p.trait_predicate && (p.rhs_lang_item || p.lhs_lang_item)) || !p.trait_predicate {
        ObligationNecessity::OnError
    } else {
        ObligationNecessity::Yes
    }
}

/// The necessity of an obligation with this predicate; `sized_return_type`
/// tells whether its cause is the `Sized` bound of a return type.
pub open spec fn necessity_of(p: PredicateFacts, sized_return_type: bool) -> ObligationNecessity {
    if (sized_return_type && p.lhs_unit) || (p.trait_predicate && p.self_ty_var) {
        ObligationNecessity::No
    } else {
        guessed_necessity(p)
    }
}

pub fn guess_predicate_necessity(p: &PredicateFacts) -> (r: ObligationNecessity)
    ensures
        r == guessed_necessity(*p),
{
    if !p.writeable || p.lhs_unit {
        ObligationNecessity::No
    } else if (p.trait_predicate && (p.rhs_lang_item || p.lhs_lang_item)) || !p.trait_predicate {
        ObligationNecessity::OnError
    } else {
        ObligationNecessity::Yes
    }
}

/// Determine what level of necessity an obligation has: unit return types
/// and type-variable self types are unnecessary, non-trait predicates and
/// predicates on language-item types or traits are shown on error, and other
/// trait predicates are necessary.
pub fn obligation_necessity(p: &PredicateFacts, sized_return_type: bool) -> (r: ObligationNecessity)
    ensures
        r == necessity_of(*p, sized_return_type),
{
    if (sized_return_type && p.lhs_unit) || (p.trait_predicate && p.self_ty_var) {
        ObligationNecessity::No
    } else {
        guess_predicate_necessity(p)
    }
}

/// The obligation kept for a fulfilled obligation: its hash and result,
/// the kind of its result and its necessity.
pub fn erase_non_local_data(fdata: FulfillmentData, p: &PredicateFacts, sized_return_type: bool) -> (r:
    Obligation)
    ensures
        r.hash == fdata.hash,
        r.result == fdata.result,
        r.kind == kind_of(fdata.result),
        r.necessity == necessity_of(*p, sized_return_type),
{
    let necessity = obligation_necessity(p, sized_return_type);
    Obligation { hash: fdata.hash, kind: fdata.kind(), necessity, result: fdata.result }
}

} // verus!
