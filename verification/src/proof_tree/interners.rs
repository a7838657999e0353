//! Tables that give each distinct goal, candidate and result of a proof
//! tree one index, and the keys under which they are found again.
use std::collections::HashMap;

use vstd::prelude::*;

use super::{
    CandidateData, CandidateIdx, GoalData, GoalIdx, ProofNodeUnpacked, ResultData, ResultIdx,
};
use crate::ext::{guess_predicate_necessity, guessed_necessity, PredicateFacts};
use crate::types::{
    CandidateSource, Certainty, DefId, EvaluationResult, MaybeCause, ObligationNecessity, ProbeKind,
};

verus! {

broadcast use {vstd::std_specs::hash::group_hash_axioms, vstd::string::group_string_axioms};

/// Values in the order in which they were stored, and for each key the
/// index that it was last stored under.
pub struct Interner<D> {
    values: Vec<D>,
    keys: HashMap<u128, u32>,
}

/// The index that interning `key` gives: the one recorded for it, else
/// the next free one.
pub open spec fn interned_index(keys: Map<u128, u32>, len: nat, key: u128) -> nat {
    if keys.contains_key(key) {
        keys[key] as nat
    } else {
        len
    }
}

/// `after` is `before` with `key` interned: unchanged when `key` was
/// recorded, else with one more value, which `fresh` holds of, recorded
/// for `key`.
pub open spec fn interned_as<D>(
    before: Interner<D>,
    after: Interner<D>,
    key: u128,
    fresh: spec_fn(D) -> bool,
) -> bool {
    if before.key_map().contains_key(key) {
        &&& after.key_map() == before.key_map()
        &&& after.value_seq() == before.value_seq()
    } else {
        &&& after.key_map() == before.key_map().insert(key, before.value_seq().len() as u32)
        &&& after.value_seq().len() == before.value_seq().len() + 1
        &&& after.value_seq().drop_last() == before.value_seq()
        &&& fresh(after.value_seq().last())
    }
}

impl<D> Interner<D> {
    /// The index recorded for each key.
    pub closed spec fn key_map(&self) -> Map<u128, u32> {
        self.keys@
    }

    /// The stored values, by index.
    pub closed spec fn value_seq(&self) -> Seq<D> {
        self.values@
    }

    /// Every recorded index names a stored value, and no two keys share an
    /// index.
    pub open spec fn well_formed(&self) -> bool {
        &&& self.value_seq().len() <= u32::MAX
        &&& forall|k: u128| #[trigger]
            self.key_map().contains_key(k) ==> self.key_map()[k] < self.value_seq().len()
        &&& forall|k1: u128, k2: u128|
            #![trigger self.key_map()[k1], self.key_map()[k2]]
            self.key_map().contains_key(k1) && self.key_map().contains_key(k2) && k1 != k2
                ==> self.key_map()[k1] != self.key_map()[k2]
    }

    pub fn new() -> (r: Interner<D>)
        ensures
            r.well_formed(),
            r.key_map() == Map::<u128, u32>::empty(),
            r.value_seq() == Seq::<D>::empty(),
    {
        Interner { values: Vec::new(), keys: HashMap::new() }
    }

    /// The number of stored values.
    pub fn len(&self) -> (r: usize)
        ensures
            r == self.value_seq().len(),
    {
        self.values.len()
    }

    /// The index recorded for `key`, if any.
    pub fn get(&self, key: u128) -> (r: Option<u32>)
        ensures
            r == (if self.key_map().contains_key(key) {
                Some(self.key_map()[key])
            } else {
                None
            }),
    {
        match self.keys.get(&key) {
            Some(i) => Some(*i),
            None => None,
        }
    }

    /// Stores `d` under a new index and records that index for `key`.
    pub fn insert(&mut self, key: u128, d: D) -> (i: u32)
        requires
            old(self).well_formed(),
            old(self).value_seq().len() < u32::MAX,
        ensures
            final(self).well_formed(),
            i == old(self).value_seq().len(),
            final(self).value_seq() == old(self).value_seq().push(d),
            final(self).key_map() == old(self).key_map().insert(key, i),
    {
        let i = self.values.len() as u32;
        self.values.push(d);
        self.keys.insert(key, i);
        proof {
            let m0 = old(self).key_map();
            let m1 = self.key_map();
            assert forall|k: u128| #[trigger] m1.contains_key(k) implies m1[k]
                < self.value_seq().len() by {
                if k != key {
                    assert(m0.contains_key(k));
                }
            }
            assert forall|k1: u128, k2: u128|
                m1.contains_key(k1) && m1.contains_key(k2) && k1 != k2 implies #[trigger] m1[k1]
                != #[trigger] m1[k2] by {
                if k1 != key && k2 != key {
                    assert(m0[k1] != m0[k2]);
                } else if k1 == key {
                    assert(m0.contains_key(k2) && m0[k2] < i);
                } else {
                    assert(m0.contains_key(k1) && m0[k1] < i);
                }
            }
        }
        i
    }

    /// Stores `d` under a new index that no key will find.
    pub fn insert_no_key(&mut self, d: D) -> (i: u32)
        requires
            old(self).well_formed(),
            old(self).value_seq().len() < u32::MAX,
        ensures
            final(self).well_formed(),
            i == old(self).value_seq().len(),
            final(self).value_seq() == old(self).value_seq().push(d),
            final(self).key_map() == old(self).key_map(),
    {
        let i = self.values.len() as u32;
        self.values.push(d);
        proof {
            let m = self.key_map();
            assert(m == old(self).key_map());
            assert forall|k: u128| #[trigger] m.contains_key(k) implies m[k]
                < self.value_seq().len() by {
                assert(old(self).key_map().contains_key(k));
            }
            assert forall|k1: u128, k2: u128|
                m.contains_key(k1) && m.contains_key(k2) && k1 != k2 implies #[trigger] m[k1]
                != #[trigger] m[k2] by {
                assert(old(self).key_map()[k1] != old(self).key_map()[k2]);
            }
        }
        i
    }

    /// The index of `key`; when `key` is new, `d` is stored under the next
    /// index first.
    pub fn intern(&mut self, key: u128, d: D) -> (i: u32)
        requires
            old(self).well_formed(),
            old(self).value_seq().len() < u32::MAX,
        ensures
            final(self).well_formed(),
            i == interned_index(old(self).key_map(), old(self).value_seq().len(), key),
            interned_as(*old(self), *final(self), key, |x: D| x == d),
    {
        match self.get(key) {
            Some(i) => i,
            None => {
                let i = self.insert(key, d);
                assert(self.value_seq().drop_last() =~= old(self).value_seq());
                i
            },
        }
    }

    /// The value stored under index `i`.
    pub fn value(&self, i: u32) -> (r: &D)
        requires
            i < self.value_seq().len(),
        ensures
            *r == self.value_seq()[i as int],
    {
        &self.values[i as usize]
    }

    /// The stored values, by index.
    pub fn take(self) -> (r: Vec<D>)
        ensures
            r@ == self.value_seq(),
    {
        self.values
    }
}

/// Interning a key a second time gives the index of the first time and
/// changes nothing.
pub proof fn law_intern_twice(keys: Map<u128, u32>, len: nat, key: u128)
    requires
        len < u32::MAX,
    ensures
        ({
            let i = interned_index(keys, len, key);
            let keys2 = if keys.contains_key(key) {
                keys
            } else {
                keys.insert(key, i as u32)
            };
            let len2 = if keys.contains_key(key) {
                len
            } else {
                len + 1
            };
            &&& keys2.contains_key(key)
            &&& interned_index(keys2, len2, key) == i
        }),
{
}

/// Distinct keys of a well-formed table have distinct indices.
pub proof fn law_distinct_keys<D>(t: Interner<D>, k1: u128, k2: u128)
    requires
        t.well_formed(),
        t.key_map().contains_key(k1),
        t.key_map().contains_key(k2),
        k1 != k2,
    ensures
        t.key_map()[k1] != t.key_map()[k2],
{
}

/// The key of an interned candidate: an impl, a where clause of the
/// environment, or a label.
#[derive(Clone, Copy, Debug)]
pub enum CanKey {
    Impl(DefId),
    ParamEnv(usize),
    Str(&'static str),
}

/// The label of a candidate that is interned by a label.
pub open spec fn candidate_label(kind: ProbeKind) -> Seq<char> {
    match kind {
        ProbeKind::Root => "root"@,
        ProbeKind::NormalizedSelfTyAssembly => "normalized-self-ty-asm"@,
        ProbeKind::TryNormalizeNonRigid => "try-normalize-non-rigid"@,
        ProbeKind::UnsizeAssembly => "unsize-asm"@,
        ProbeKind::UpcastProjectionCompatibility => "upcase-proj-compat"@,
        ProbeKind::TraitCandidate { source: CandidateSource::CoherenceUnknowable } =>
            "coherence-unknowable"@,
        ProbeKind::TraitCandidate { source: CandidateSource::BuiltinImpl } => "builtin"@,
        ProbeKind::TraitCandidate { source: CandidateSource::AliasBound } => "alias-bound"@,
        ProbeKind::ShadowedEnvProbing => "shadowed-env-probing"@,
        ProbeKind::OpaqueTypeStorageLookup => "opaque-type-storage-lookup"@,
        _ => Seq::empty(),
    }
}

/// The candidate is interned by a label (not an impl or a where clause).
pub open spec fn labelled(kind: ProbeKind) -> bool {
    !(kind matches ProbeKind::TraitCandidate { source: CandidateSource::Impl(_) })
        && !(kind matches ProbeKind::TraitCandidate { source: CandidateSource::ParamEnv(_) })
}

/// Distinct kinds of candidates interned by label have distinct labels, so
/// that no two of them are stored alike.
pub proof fn law_candidate_labels_distinct(a: ProbeKind, b: ProbeKind)
    requires
        labelled(a),
        labelled(b),
        a != b,
    ensures
        candidate_label(a) != candidate_label(b),
{
    reveal_strlit("root");
    reveal_strlit("normalized-self-ty-asm");
    reveal_strlit("try-normalize-non-rigid");
    reveal_strlit("unsize-asm");
    reveal_strlit("upcase-proj-compat");
    reveal_strlit("coherence-unknowable");
    reveal_strlit("builtin");
    reveal_strlit("alias-bound");
    reveal_strlit("shadowed-env-probing");
    reveal_strlit("opaque-type-storage-lookup");
    let la = candidate_label(a);
    let lb = candidate_label(b);
    if la == lb {
        assert(la.len() == lb.len());
        assert(la[0] == lb[0]);
        assert(la[1] == lb[1]);
    }
}

/// The key under which a candidate of the given kind is interned: impls by
/// their definition, where clauses by their index, everything else by label.
pub fn can_key(kind: ProbeKind) -> (r: CanKey)
    ensures
        match kind {
            ProbeKind::TraitCandidate { source: CandidateSource::ParamEnv(idx) } => r matches CanKey::ParamEnv(i) && i == idx,
            ProbeKind::TraitCandidate { source: CandidateSource::Impl(d) } => r matches CanKey::Impl(e) && e == d,
            _ => r matches CanKey::Str(s) && s@ == candidate_label(kind),
        },
{
    match kind {
        ProbeKind::Root => CanKey::Str("root"),
        ProbeKind::NormalizedSelfTyAssembly => CanKey::Str("normalized-self-ty-asm"),
        ProbeKind::TryNormalizeNonRigid => CanKey::Str("try-normalize-non-rigid"),
        ProbeKind::UnsizeAssembly => CanKey::Str("unsize-asm"),
        ProbeKind::UpcastProjectionCompatibility => CanKey::Str("upcase-proj-compat"),
        ProbeKind::TraitCandidate { source } => match source {
            CandidateSource::CoherenceUnknowable => CanKey::Str("coherence-unknowable"),
            CandidateSource::BuiltinImpl => CanKey::Str("builtin"),
            CandidateSource::AliasBound => CanKey::Str("alias-bound"),
            CandidateSource::ParamEnv(idx) => CanKey::ParamEnv(idx),
            CandidateSource::Impl(def_id) => CanKey::Impl(def_id),
        },
        ProbeKind::ShadowedEnvProbing => CanKey::Str("shadowed-env-probing"),
        ProbeKind::OpaqueTypeStorageLookup => CanKey::Str("opaque-type-storage-lookup"),
    }
}

/// The key of an evaluation result.
pub open spec fn result_code(r: EvaluationResult) -> u128 {
    match r {
        Ok(Certainty::Yes) => 0,
        Ok(Certainty::Maybe(MaybeCause::Ambiguity)) => 1,
        Ok(Certainty::Maybe(MaybeCause::Overflow)) => 2,
        Err(_) => 3,
    }
}

pub fn result_key(r: &EvaluationResult) -> (k: u128)
    ensures
        k == result_code(*r),
{
    match r {
        Ok(Certainty::Yes) => 0,
        Ok(Certainty::Maybe(MaybeCause::Ambiguity)) => 1,
        Ok(Certainty::Maybe(MaybeCause::Overflow)) => 2,
        Err(_) => 3,
    }
}

/// The key of a goal: the hash of its predicate, then the index of its
/// result.
pub open spec fn goal_code(hash: u64, result: ResultIdx) -> u128 {
    (hash as int * 0x1_0000_0000 + result.0 as int) as u128
}

pub fn goal_key(hash: u64, result: ResultIdx) -> (k: u128)
    ensures
        k == goal_code(hash, result),
{
    (hash as u128) * 0x1_0000_0000u128 + (result.0 as u128)
}

/// The key of a candidate of the given kind: impls below 2^64 by their
/// definition, where clauses from 2^64 by their index, and the kinds that
/// are interned by a label from 2^65, one key per label.
pub open spec fn candidate_code(kind: ProbeKind) -> u128 {
    match kind {
        ProbeKind::TraitCandidate { source: CandidateSource::Impl(d) } => (d.krate as int
            * 0x1_0000_0000 + d.index as int) as u128,
        ProbeKind::TraitCandidate { source: CandidateSource::ParamEnv(i) } => (
        0x1_0000_0000_0000_0000 + i as int) as u128,
        ProbeKind::Root => 0x2_0000_0000_0000_0000,
        ProbeKind::NormalizedSelfTyAssembly => 0x2_0000_0000_0000_0001,
        ProbeKind::TryNormalizeNonRigid => 0x2_0000_0000_0000_0002,
        ProbeKind::UnsizeAssembly => 0x2_0000_0000_0000_0003,
        ProbeKind::UpcastProjectionCompatibility => 0x2_0000_0000_0000_0004,
        ProbeKind::TraitCandidate { source: CandidateSource::CoherenceUnknowable } =>
            0x2_0000_0000_0000_0005,
        ProbeKind::TraitCandidate { source: CandidateSource::BuiltinImpl } =>
            0x2_0000_0000_0000_0006,
        ProbeKind::TraitCandidate { source: CandidateSource::AliasBound } =>
            0x2_0000_0000_0000_0007,
        ProbeKind::ShadowedEnvProbing => 0x2_0000_0000_0000_0008,
        ProbeKind::OpaqueTypeStorageLookup => 0x2_0000_0000_0000_0009,
    }
}

pub fn candidate_key(kind: ProbeKind) -> (k: u128)
    ensures
        k == candidate_code(kind),
{
    match kind {
        ProbeKind::TraitCandidate { source: CandidateSource::Impl(d) } => (d.krate as u128)
            * 0x1_0000_0000u128 + (d.index as u128),
        ProbeKind::TraitCandidate { source: CandidateSource::ParamEnv(i) } =>
            0x1_0000_0000_0000_0000u128 + (i as u128),
        ProbeKind::Root => 0x2_0000_0000_0000_0000u128,
        ProbeKind::NormalizedSelfTyAssembly => 0x2_0000_0000_0000_0001u128,
        ProbeKind::TryNormalizeNonRigid => 0x2_0000_0000_0000_0002u128,
        ProbeKind::UnsizeAssembly => 0x2_0000_0000_0000_0003u128,
        ProbeKind::UpcastProjectionCompatibility => 0x2_0000_0000_0000_0004u128,
        ProbeKind::TraitCandidate { source: CandidateSource::CoherenceUnknowable } =>
            0x2_0000_0000_0000_0005u128,
        ProbeKind::TraitCandidate { source: CandidateSource::BuiltinImpl } =>
            0x2_0000_0000_0000_0006u128,
        ProbeKind::TraitCandidate { source: CandidateSource::AliasBound } =>
            0x2_0000_0000_0000_0007u128,
        ProbeKind::ShadowedEnvProbing => 0x2_0000_0000_0000_0008u128,
        ProbeKind::OpaqueTypeStorageLookup => 0x2_0000_0000_0000_0009u128,
    }
}

/// Two results share a key only when they are the same result.
pub proof fn law_result_code_injective(a: EvaluationResult, b: EvaluationResult)
    ensures
        result_code(a) == result_code(b) <==> a == b,
{
    if let (Err(x), Err(y)) = (a, b) {
        assert(x == y);
    }
}

/// Two goals share a key only when their hashes and results are the same.
pub proof fn law_goal_code_injective(h1: u64, r1: ResultIdx, h2: u64, r2: ResultIdx)
    ensures
        goal_code(h1, r1) == goal_code(h2, r2) <==> h1 == h2 && r1 == r2,
{
}

/// Two candidate kinds share a key only when they are the same kind.
pub proof fn law_candidate_code_injective(a: ProbeKind, b: ProbeKind)
    ensures
        candidate_code(a) == candidate_code(b) <==> a == b,
{
}

/// The label that a candidate key from 2^65 on stands for.
pub open spec fn code_label(k: u128) -> Seq<char> {
    if k == 0x2_0000_0000_0000_0000 {
        candidate_label(ProbeKind::Root)
    } else if k == 0x2_0000_0000_0000_0001 {
        candidate_label(ProbeKind::NormalizedSelfTyAssembly)
    } else if k == 0x2_0000_0000_0000_0002 {
        candidate_label(ProbeKind::TryNormalizeNonRigid)
    } else if k == 0x2_0000_0000_0000_0003 {
        candidate_label(ProbeKind::UnsizeAssembly)
    } else if k == 0x2_0000_0000_0000_0004 {
        candidate_label(ProbeKind::UpcastProjectionCompatibility)
    } else if k == 0x2_0000_0000_0000_0005 {
        candidate_label(ProbeKind::TraitCandidate { source: CandidateSource::CoherenceUnknowable })
    } else if k == 0x2_0000_0000_0000_0006 {
        candidate_label(ProbeKind::TraitCandidate { source: CandidateSource::BuiltinImpl })
    } else if k == 0x2_0000_0000_0000_0007 {
        candidate_label(ProbeKind::TraitCandidate { source: CandidateSource::AliasBound })
    } else if k == 0x2_0000_0000_0000_0008 {
        candidate_label(ProbeKind::ShadowedEnvProbing)
    } else {
        candidate_label(ProbeKind::OpaqueTypeStorageLookup)
    }
}

/// The candidate data `d` is of the kind that key `k` stands for: an impl
/// below 2^64, the where clause `k - 2^64` below 2^65, else the label of `k`.
pub open spec fn candidate_fits(k: u128, d: CandidateData) -> bool {
    if k < 0x1_0000_0000_0000_0000 {
        d is Impl
    } else if k < 0x2_0000_0000_0000_0000 {
        d == CandidateData::ParamEnv((k - 0x1_0000_0000_0000_0000) as usize)
    } else {
        d matches CandidateData::Any(s) && s@ == code_label(k)
    }
}

/// The goals, candidates and results of one proof tree, each interned.
pub struct Interners {
    goals: Interner<GoalData>,
    candidates: Interner<CandidateData>,
    results: Interner<ResultData>,
}

impl Interners {
    pub closed spec fn goal_table(&self) -> Interner<GoalData> {
        self.goals
    }

    pub closed spec fn candidate_table(&self) -> Interner<CandidateData> {
        self.candidates
    }

    pub closed spec fn result_table(&self) -> Interner<ResultData> {
        self.results
    }

    /// Each table is well formed, and the value stored under each key is
    /// one that has that key: a result has its own code, a goal has the
    /// result index that its key ends with, and a candidate has the kind
    /// of data that its key stands for.
    pub open spec fn well_formed(&self) -> bool {
        &&& self.goal_table().well_formed()
        &&& self.candidate_table().well_formed()
        &&& self.result_table().well_formed()
        &&& forall|k: u128| #[trigger]
            self.result_table().key_map().contains_key(k) ==> result_code(
                self.result_table().value_seq()[self.result_table().key_map()[k] as int].0,
            ) == k
        &&& forall|k: u128| #[trigger]
            self.goal_table().key_map().contains_key(k)
                ==> self.goal_table().value_seq()[self.goal_table().key_map()[k] as int].result.0
                == k % 0x1_0000_0000
        &&& forall|k: u128| #[trigger]
            self.candidate_table().key_map().contains_key(k) ==> candidate_fits(
                k,
                self.candidate_table().value_seq()[self.candidate_table().key_map()[k] as int],
            )
    }

    /// The index that interning `result` gives.
    pub open spec fn result_index(&self, result: EvaluationResult) -> u32 {
        interned_index(
            self.result_table().key_map(),
            self.result_table().value_seq().len(),
            result_code(result),
        ) as u32
    }

    /// The index that interning a goal under `key` gives.
    pub open spec fn goal_index(&self, key: u128) -> u32 {
        interned_index(self.goal_table().key_map(), self.goal_table().value_seq().len(), key) as u32
    }

    /// The index that interning a candidate under `key` gives.
    pub open spec fn candidate_index(&self, key: u128) -> u32 {
        interned_index(
            self.candidate_table().key_map(),
            self.candidate_table().value_seq().len(),
            key,
        ) as u32
    }

    pub fn default() -> (r: Interners)
        ensures
            r.well_formed(),
            r.goal_table().key_map().is_empty(),
            r.goal_table().value_seq().len() == 0,
            r.candidate_table().key_map().is_empty(),
            r.candidate_table().value_seq().len() == 0,
            r.result_table().key_map().is_empty(),
            r.result_table().value_seq().len() == 0,
    {
        Interners { goals: Interner::new(), candidates: Interner::new(), results: Interner::new() }
    }

    /// The interned goals, candidates and results, by index.
    pub fn take(self) -> (r: (Vec<GoalData>, Vec<CandidateData>, Vec<ResultData>))
        ensures
            r.0@ == self.goal_table().value_seq(),
            r.1@ == self.candidate_table().value_seq(),
            r.2@ == self.result_table().value_seq(),
    {
        (self.goals.take(), self.candidates.take(), self.results.take())
    }

    pub fn goal(&self, g: GoalIdx) -> (r: &GoalData)
        requires
            g.0 < self.goal_table().value_seq().len(),
        ensures
            *r == self.goal_table().value_seq()[g.0 as int],
    {
        self.goals.value(g.0)
    }

    pub fn candidate(&self, c: CandidateIdx) -> (r: &CandidateData)
        requires
            c.0 < self.candidate_table().value_seq().len(),
        ensures
            *r == self.candidate_table().value_seq()[c.0 as int],
    {
        self.candidates.value(c.0)
    }

    /// The node of an evaluation result, interned by the result.
    pub fn mk_result_node(&mut self, result: EvaluationResult) -> (r: ProofNodeUnpacked)
        requires
            old(self).well_formed(),
            old(self).result_table().value_seq().len() < u32::MAX,
        ensures
            final(self).well_formed(),
            r == ProofNodeUnpacked::Result(ResultIdx(old(self).result_index(result))),
            interned_as(
                old(self).result_table(),
                final(self).result_table(),
                result_code(result),
                |x: ResultData| x == ResultData(result),
            ),
            final(self).result_table().value_seq()[old(self).result_index(result) as int] == ResultData(
                result,
            ),
            final(self).goal_table() == old(self).goal_table(),
            final(self).candidate_table() == old(self).candidate_table(),
    {
        ProofNodeUnpacked::Result(self.intern_result(result))
    }

    /// The node of a goal whose predicate hashes to `hash` and evaluates to
    /// `result`. The result is interned first; the goal is interned by its
    /// hash and the index of its result, and when it is new it is stored
    /// with its serialized predicate `value`, the necessity guessed from
    /// `facts`, its number of type variables and whether its main component
    /// is a type variable.
    pub fn mk_goal_node(
        &mut self,
        hash: u64,
        result: EvaluationResult,
        value: serde_json::Value,
        facts: &PredicateFacts,
        num_vars: usize,
        is_main_tv: bool,
    ) -> (r: ProofNodeUnpacked)
        requires
            old(self).well_formed(),
            old(self).result_table().value_seq().len() < u32::MAX,
            old(self).goal_table().value_seq().len() < u32::MAX,
        ensures
            final(self).well_formed(),
            interned_as(
                old(self).result_table(),
                final(self).result_table(),
                result_code(result),
                |x: ResultData| x == ResultData(result),
            ),
            interned_as(
                old(self).goal_table(),
                final(self).goal_table(),
                goal_code(hash, ResultIdx(old(self).result_index(result))),
                |x: GoalData|
                    x == (GoalData {
                        value,
                        necessity: guessed_necessity(*facts),
                        num_vars,
                        is_main_tv,
                        result: ResultIdx(old(self).result_index(result)),
                    }),
            ),
            r == ProofNodeUnpacked::Goal(
                GoalIdx(old(self).goal_index(goal_code(hash, ResultIdx(old(self).result_index(result))))),
            ),
            final(self).result_table().value_seq()[old(self).result_index(result) as int] == ResultData(
                result,
            ),
            final(self).goal_table().value_seq()[old(self).goal_index(
                goal_code(hash, ResultIdx(old(self).result_index(result))),
            ) as int].result == ResultIdx(old(self).result_index(result)),
            final(self).candidate_table() == old(self).candidate_table(),
    {
        let result_idx = self.intern_result(result);
        let necessity = guess_predicate_necessity(facts);
        let goal_idx = self.intern_goal(hash, result_idx, value, necessity, num_vars, is_main_tv);
        ProofNodeUnpacked::Goal(goal_idx)
    }

    /// The node of a candidate of the given kind. Impls are interned by
    /// their definition and stored with their serialized header, when they
    /// have one; an impl without a header is stored anew, under the text
    /// `impl_fallback`, each time it is not yet interned. Where clauses are
    /// interned by their index, everything else by its label.
    pub fn mk_candidate_node(
        &mut self,
        kind: ProbeKind,
        impl_header: Option<(serde_json::Value, bool)>,
        impl_fallback: String,
    ) -> (r: ProofNodeUnpacked)
        requires
            old(self).well_formed(),
            old(self).candidate_table().value_seq().len() < u32::MAX,
        ensures
            final(self).well_formed(),
            final(self).goal_table() == old(self).goal_table(),
            final(self).result_table() == old(self).result_table(),
            ({
                let key = candidate_code(kind);
                let before = old(self).candidate_table();
                let after = final(self).candidate_table();
                match kind {
                    ProbeKind::TraitCandidate { source: CandidateSource::Impl(_) } => if before.key_map().contains_key(key)
                        || impl_header is Some {
                        &&& r == ProofNodeUnpacked::Candidate(CandidateIdx(old(self).candidate_index(key)))
                        &&& interned_as(
                            before,
                            after,
                            key,
                            |x: CandidateData|
                                impl_header matches Some((hd, vis)) && x == (CandidateData::Impl {
                                    hd,
                                    is_user_visible: vis,
                                }),
                        )
                        &&& after.value_seq()[old(self).candidate_index(key) as int] is Impl
                    } else {
                        &&& r == ProofNodeUnpacked::Candidate(CandidateIdx(before.value_seq().len() as u32))
                        &&& after.key_map() == before.key_map()
                        &&& after.value_seq() == before.value_seq().push(CandidateData::Any(impl_fallback))
                    },
                    ProbeKind::TraitCandidate { source: CandidateSource::ParamEnv(i) } => {
                        &&& r == ProofNodeUnpacked::Candidate(CandidateIdx(old(self).candidate_index(key)))
                        &&& interned_as(before, after, key, |x: CandidateData| x == CandidateData::ParamEnv(i))
                        &&& after.value_seq()[old(self).candidate_index(key) as int] == CandidateData::ParamEnv(i)
                    },
                    _ => {
                        &&& r == ProofNodeUnpacked::Candidate(CandidateIdx(old(self).candidate_index(key)))
                        &&& interned_as(
                            before,
                            after,
                            key,
                            |x: CandidateData| x matches CandidateData::Any(s) && s@ == candidate_label(kind),
                        )
                        &&& after.value_seq()[old(self).candidate_index(key) as int] matches CandidateData::Any(s)
                            && s@ == candidate_label(kind)
                    },
                }
            }),
    {
        let key = candidate_key(kind);
        let idx = match kind {
            ProbeKind::TraitCandidate { source: CandidateSource::Impl(_) } => self.intern_impl(
                key,
                impl_header,
                impl_fallback,
            ),
            ProbeKind::TraitCandidate { source: CandidateSource::ParamEnv(i) } => self.intern_can_param_env(key, i),
            _ => match can_key(kind) {
                CanKey::Str(label) => self.intern_can_string(key, label),
                _ => {
                    assert(false);
                    CandidateIdx(0)
                },
            },
        };
        ProofNodeUnpacked::Candidate(idx)
    }

    fn intern_result(&mut self, result: EvaluationResult) -> (r: ResultIdx)
        requires
            old(self).well_formed(),
            old(self).result_table().value_seq().len() < u32::MAX,
        ensures
            final(self).well_formed(),
            r == ResultIdx(old(self).result_index(result)),
            interned_as(
                old(self).result_table(),
                final(self).result_table(),
                result_code(result),
                |x: ResultData| x == ResultData(result),
            ),
            final(self).result_table().value_seq()[r.0 as int] == ResultData(result),
            final(self).goal_table() == old(self).goal_table(),
            final(self).candidate_table() == old(self).candidate_table(),
    {
        let key = result_key(&result);
        let i = self.results.intern(key, ResultData(result));
        proof {
            let v = self.results.value_seq()[i as int];
            assert(result_code(v.0) == result_code(result));
            law_result_code_injective(v.0, result);
        }
        ResultIdx(i)
    }

    fn intern_goal(
        &mut self,
        hash: u64,
        result: ResultIdx,
        value: serde_json::Value,
        necessity: ObligationNecessity,
        num_vars: usize,
        is_main_tv: bool,
    ) -> (r: GoalIdx)
        requires
            old(self).well_formed(),
            old(self).goal_table().value_seq().len() < u32::MAX,
        ensures
            final(self).well_formed(),
            r == GoalIdx(old(self).goal_index(goal_code(hash, result))),
            final(self).goal_table().value_seq()[r.0 as int].result == result,
            interned_as(
                old(self).goal_table(),
                final(self).goal_table(),
                goal_code(hash, result),
                |x: GoalData| x == (GoalData { value, necessity, num_vars, is_main_tv, result }),
            ),
            final(self).candidate_table() == old(self).candidate_table(),
            final(self).result_table() == old(self).result_table(),
    {
        let key = goal_key(hash, result);
        proof {
            let h = hash as int;
            let q = result.0 as int;
            assert((h * 0x1_0000_0000 + q) % 0x1_0000_0000 == q) by (nonlinear_arith)
                requires
                    0 <= q < 0x1_0000_0000,
                    h >= 0,
            ;
        }
        match self.goals.get(key) {
            Some(i) => GoalIdx(i),
            None => {
                let i = self.goals.insert(key, GoalData { value, necessity, num_vars, is_main_tv, result });
                assert(self.goals.value_seq().drop_last() =~= old(self).goals.value_seq());
                GoalIdx(i)
            },
        }
    }

    fn intern_can_string(&mut self, key: u128, s: &'static str) -> (r: CandidateIdx)
        requires
            old(self).well_formed(),
            key >= 0x2_0000_0000_0000_0000,
            code_label(key) == s@,
            old(self).candidate_table().value_seq().len() < u32::MAX,
        ensures
            final(self).well_formed(),
            r == CandidateIdx(old(self).candidate_index(key)),
            interned_as(
                old(self).candidate_table(),
                final(self).candidate_table(),
                key,
                |x: CandidateData| x matches CandidateData::Any(t) && t@ == s@,
            ),
            final(self).goal_table() == old(self).goal_table(),
            final(self).result_table() == old(self).result_table(),
    {
        match self.candidates.get(key) {
            Some(i) => CandidateIdx(i),
            None => {
                let i = self.candidates.insert(key, CandidateData::from(s.to_string()));
                assert(self.candidates.value_seq().drop_last() =~= old(self).candidates.value_seq());
                CandidateIdx(i)
            },
        }
    }

    fn intern_can_param_env(&mut self, key: u128, idx: usize) -> (r: CandidateIdx)
        requires
            old(self).well_formed(),
            key == 0x1_0000_0000_0000_0000 + idx,
            old(self).candidate_table().value_seq().len() < u32::MAX,
        ensures
            final(self).well_formed(),
            r == CandidateIdx(old(self).candidate_index(key)),
            interned_as(
                old(self).candidate_table(),
                final(self).candidate_table(),
                key,
                |x: CandidateData| x == CandidateData::ParamEnv(idx),
            ),
            final(self).goal_table() == old(self).goal_table(),
            final(self).result_table() == old(self).result_table(),
    {
        CandidateIdx(self.candidates.intern(key, CandidateData::ParamEnv(idx)))
    }

    fn intern_impl(
        &mut self,
        key: u128,
        header: Option<(serde_json::Value, bool)>,
        fallback: String,
    ) -> (r: CandidateIdx)
        requires
            old(self).well_formed(),
            key < 0x1_0000_0000_0000_0000,
            old(self).candidate_table().value_seq().len() < u32::MAX,
        ensures
            final(self).well_formed(),
            final(self).goal_table() == old(self).goal_table(),
            final(self).result_table() == old(self).result_table(),
            old(self).candidate_table().key_map().contains_key(key) || header is Some ==> {
                &&& r == CandidateIdx(old(self).candidate_index(key))
                &&& interned_as(
                    old(self).candidate_table(),
                    final(self).candidate_table(),
                    key,
                    |x: CandidateData|
                        header matches Some((hd, vis)) && x == (CandidateData::Impl {
                            hd,
                            is_user_visible: vis,
                        }),
                )
            },
            !old(self).candidate_table().key_map().contains_key(key) && header is None ==> {
                &&& r == CandidateIdx(old(self).candidate_table().value_seq().len() as u32)
                &&& final(self).candidate_table().key_map() == old(self).candidate_table().key_map()
                &&& final(self).candidate_table().value_seq() == old(
                    self,
                ).candidate_table().value_seq().push(CandidateData::Any(fallback))
            },
    {
        if let Some(i) = self.candidates.get(key) {
            return CandidateIdx(i);
        }
        match header {
            Some((hd, is_user_visible)) => {
                let i = self.candidates.insert(key, CandidateData::Impl { hd, is_user_visible });
                assert(self.candidates.value_seq().drop_last() =~= old(self).candidates.value_seq());
                CandidateIdx(i)
            },
            None => CandidateIdx(self.candidates.insert_no_key(CandidateData::from(fallback))),
        }
    }
}

} // verus!
