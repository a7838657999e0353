//! Stores that accumulate obligations and trees while a body is checked.
use vstd::prelude::*;

use super::hir::SpanData;
use crate::types::{is_maybe, spec_is_maybe, Obligation, ObligationHash, Provenance};

verus! {

/// Some stored obligation has the hash `h`.
pub open spec fn has_hash(store: Seq<Provenance<Obligation>>, h: ObligationHash) -> bool {
    exists|k: int| 0 <= k < store.len() && (#[trigger] store[k]).it.hash == h
}

/// No two stored obligations share a hash.
pub open spec fn unique_hashes(store: Seq<Provenance<Obligation>>) -> bool {
    forall|a: int, b: int|
        0 <= a < store.len() && 0 <= b < store.len() && a != b ==> (#[trigger] store[a]).it.hash
            != (#[trigger] store[b]).it.hash
}

/// Stores an obligation unless one with the same hash is stored already.
pub fn store_obligation(store: &mut Vec<Provenance<Obligation>>, obl: Provenance<Obligation>)
    ensures
        has_hash(old(store)@, obl.it.hash) ==> final(store)@ == old(store)@,
        !has_hash(old(store)@, obl.it.hash) ==> final(store)@ == old(store)@.push(obl),
{
    let mut i: usize = 0;
    let mut seen = false;
    while i < store.len()
        invariant
            i <= store@.len(),
            seen == (exists|k: int| 0 <= k < i && (#[trigger] store@[k]).it.hash == obl.it.hash),
        decreases store@.len() - i,
    {
        if store[i].it.hash == obl.it.hash {
            seen = true;
        }
        i = i + 1;
    }
    if !seen {
        store.push(obl);
    }
}

/// Storing obligations keeps their hashes unique.
pub proof fn law_store_keeps_hashes_unique(
    before: Seq<Provenance<Obligation>>,
    after: Seq<Provenance<Obligation>>,
    obl: Provenance<Obligation>,
)
    requires
        unique_hashes(before),
        has_hash(before, obl.it.hash) ==> after == before,
        !has_hash(before, obl.it.hash) ==> after == before.push(obl),
    ensures
        unique_hashes(after),
        has_hash(after, obl.it.hash),
{
    if has_hash(before, obl.it.hash) {
    } else {
        assert(after[after.len() - 1].it.hash == obl.it.hash);
        assert forall|a: int, b: int|
            0 <= a < after.len() && 0 <= b < after.len() && a != b implies (#[trigger] after[a]).it.hash
            != (#[trigger] after[b]).it.hash by {
            if a < before.len() && b < before.len() {
                assert(after[a] == before[a] && after[b] == before[b]);
            } else if a < before.len() {
                assert(after[a] == before[a]);
            } else {
                assert(after[b] == before[b]);
            }
        }
    }
}

/// How many of the most recently stored obligations a drain looks at.
pub const DRAIN_WINDOW: usize = 100;

/// The first index that a drain looks at in a store of `len` obligations:
/// only the last `DRAIN_WINDOW` are looked at.
pub open spec fn drain_window_start(len: nat) -> nat {
    if len > DRAIN_WINDOW {
        (len - DRAIN_WINDOW) as nat
    } else {
        0
    }
}

/// Whether the stored obligation at `k` is dropped: it is ambiguous, has
/// its full data kept, and is implied by the obligation just decided.
pub open spec fn drops(o: Provenance<Obligation>, implied: bool) -> bool {
    spec_is_maybe(o.it.result) && o.full_data is Some && implied
}

/// The stored obligations that remain after dropping the implied
/// ambiguities at indices `from` and above.
pub open spec fn remaining_after_drain(
    store: Seq<Provenance<Obligation>>,
    implied: Seq<bool>,
    from: int,
) -> Seq<Provenance<Obligation>>
    decreases store.len(),
{
    if store.len() == 0 {
        Seq::empty()
    } else {
        let rest = remaining_after_drain(store.drop_last(), implied, from);
        if store.len() - 1 >= from && drops(store.last(), implied[store.len() - 1]) {
            rest
        } else {
            rest.push(store.last())
        }
    }
}

/// Drops the ambiguous obligations, among the last `DRAIN_WINDOW` stored,
/// that the obligation just decided implies; `implied[k]` tells whether it
/// implies the stored obligation `k`. Older obligations are not touched.
pub fn drain_implied_ambiguities(store: &mut Vec<Provenance<Obligation>>, implied: &Vec<bool>)
    requires
        implied@.len() == old(store)@.len(),
    ensures
        final(store)@ == remaining_after_drain(
            old(store)@,
            implied@,
            drain_window_start(old(store)@.len()) as int,
        ),
{
    let len = store.len();
    let lower_bound: usize = if len > DRAIN_WINDOW {
        len - DRAIN_WINDOW
    } else {
        0
    };
    let mut kept: Vec<Provenance<Obligation>> = Vec::new();
    let mut i: usize = 0;
    while i < store.len()
        invariant
            implied@.len() == store@.len(),
            i <= store@.len(),
            lower_bound == drain_window_start(store@.len()),
            kept@ == remaining_after_drain(store@.subrange(0, i as int), implied@, lower_bound as int),
        decreases store@.len() - i,
    {
        let o = store[i];
        let ghost sub = store@.subrange(0, i + 1);
        assert(sub.drop_last() =~= store@.subrange(0, i as int));
        assert(sub.last() == o);
        let should_remove = i >= lower_bound && is_maybe(&o.it.result) && o.full_data.is_some()
            && implied[i];
        if !should_remove {
            kept.push(o);
        }
        i = i + 1;
    }
    assert(store@.subrange(0, store@.len() as int) =~= store@);
    *store = kept;
}

/// Dropping implied ambiguities only ever removes obligations.
pub proof fn law_drain_keeps_decided(
    store: Seq<Provenance<Obligation>>,
    implied: Seq<bool>,
    from: int,
    k: int,
)
    requires
        implied.len() >= store.len(),
        0 <= k < store.len(),
        !spec_is_maybe(store[k].it.result),
    ensures
        remaining_after_drain(store, implied, from).contains(store[k]),
    decreases store.len(),
{
    if k < store.len() - 1 {
        law_drain_keeps_decided(store.drop_last(), implied, from, k);
        let rest = remaining_after_drain(store.drop_last(), implied, from);
        assert(store.drop_last()[k] == store[k]);
        let w = choose|w: int| 0 <= w < rest.len() && rest[w] == store[k];
        if !(store.len() - 1 >= from && drops(store.last(), implied[store.len() - 1])) {
            assert(rest.push(store.last())[w] == store[k]);
        }
    } else {
        let rest = remaining_after_drain(store.drop_last(), implied, from);
        assert(rest.push(store.last())[rest.len() as int] == store[k]);
    }
}

/// A drain leaves the obligations stored before index `from` untouched, in
/// their places.
pub proof fn law_drain_keeps_older(store: Seq<Provenance<Obligation>>, implied: Seq<bool>, from: int)
    requires
        0 <= from <= store.len(),
    ensures
        remaining_after_drain(store, implied, from).len() >= from,
        remaining_after_drain(store, implied, from).take(from) == store.take(from),
    decreases store.len(),
{
    if store.len() > from {
        law_drain_keeps_older(store.drop_last(), implied, from);
        let rest = remaining_after_drain(store.drop_last(), implied, from);
        assert(store.drop_last().take(from) =~= store.take(from));
        if !(store.len() - 1 >= from && drops(store.last(), implied[store.len() - 1])) {
            assert(rest.push(store.last()).take(from) =~= rest.take(from));
        }
    } else if store.len() > 0 {
        // from == store.len(): everything is kept.
        lemma_drain_before_window(store, implied, from);
    }
}

proof fn lemma_drain_before_window(store: Seq<Provenance<Obligation>>, implied: Seq<bool>, from: int)
    requires
        store.len() <= from,
    ensures
        remaining_after_drain(store, implied, from) == store,
    decreases store.len(),
{
    if store.len() > 0 {
        lemma_drain_before_window(store.drop_last(), implied, from);
        assert(store.drop_last().push(store.last()) =~= store);
    }
}

/// Stores a tree unless one is stored already.
pub fn store_tree<T>(slot: &mut Option<T>, new_tree: T)
    ensures
        *old(slot) is Some ==> *final(slot) == *old(slot),
        *old(slot) is None ==> *final(slot) == Some(new_tree),
{
    if slot.is_none() {
        *slot = Some(new_tree);
    }
}

/// Replaces the stored reported errors with the newly hashed ones, unless
/// their number did not change.
pub fn replace_reported_errors(
    store: &mut Vec<(SpanData, Vec<ObligationHash>)>,
    reported: Vec<(SpanData, Vec<ObligationHash>)>,
)
    ensures
        old(store)@.len() == reported@.len() ==> final(store)@ == old(store)@,
        old(store)@.len() != reported@.len() ==> final(store)@ == reported@,
{
    if reported.len() == store.len() {
        return ;
    }
    *store = reported;
}

} // verus!
