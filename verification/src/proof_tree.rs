//! Proof tree node identifiers sent to the frontend.
use vstd::prelude::*;

use crate::types::{EvaluationResult, ObligationNecessity};

pub mod ext;
pub mod format;
pub mod interners;
pub mod serialize;
pub mod topology;

verus! {

/// Index of an interned goal.
#[derive(Clone, Copy, Debug, PartialEq, Eq, Structural, Hash)]
pub struct GoalIdx(pub u32);

/// Index of an interned set of implementors.
#[derive(Clone, Copy, Debug, PartialEq, Eq, Structural, Hash)]
pub struct ImplementorsIdx(pub u32);

/// Index of an interned candidate.
#[derive(Clone, Copy, Debug, PartialEq, Eq, Structural, Hash)]
pub struct CandidateIdx(pub u32);

/// Index of an interned evaluation result.
#[derive(Clone, Copy, Debug, PartialEq, Eq, Structural, Hash)]
pub struct ResultIdx(pub u32);

/// Index of a node in a proof tree topology.
#[derive(Clone, Copy, Debug, PartialEq, Eq, Structural, Hash)]
pub struct ProofNodeIdx(pub u32);

impl GoalIdx {
    pub fn from_raw(raw: u32) -> (r: GoalIdx)
        ensures
            r.0 == raw,
    {
        GoalIdx(raw)
    }

    pub fn raw(&self) -> (r: u32)
        ensures
            r == self.0,
    {
        self.0
    }
}

impl ImplementorsIdx {
    pub fn from_raw(raw: u32) -> (r: ImplementorsIdx)
        ensures
            r.0 == raw,
    {
        ImplementorsIdx(raw)
    }

    pub fn raw(&self) -> (r: u32)
        ensures
            r == self.0,
    {
        self.0
    }
}

impl CandidateIdx {
    pub fn from_raw(raw: u32) -> (r: CandidateIdx)
        ensures
            r.0 == raw,
    {
        CandidateIdx(raw)
    }

    pub fn raw(&self) -> (r: u32)
        ensures
            r == self.0,
    {
        self.0
    }
}

impl ResultIdx {
    pub fn from_raw(raw: u32) -> (r: ResultIdx)
        ensures
            r.0 == raw,
    {
        ResultIdx(raw)
    }

    pub fn raw(&self) -> (r: u32)
        ensures
            r == self.0,
    {
        self.0
    }
}

impl ProofNodeIdx {
    pub fn from_raw(raw: u32) -> (r: ProofNodeIdx)
        ensures
            r.0 == raw,
    {
        ProofNodeIdx(raw)
    }

    pub fn raw(&self) -> (r: u32)
        ensures
            r == self.0,
    {
        self.0
    }
}

/// A proof tree node packed into 32 bits: the two high bits hold the
/// kind (00 goal, 10 candidate, 01 result), the low 30 bits the index.
#[derive(Clone, Copy, Debug, PartialEq, Eq, Structural, Hash)]
pub struct ProofNode(u32);

/// A proof tree node with its kind spelled out; only used temporarily.
#[derive(Clone, Copy, Debug, PartialEq, Eq, Structural, Hash)]
pub enum ProofNodeUnpacked {
    Goal(GoalIdx),
    Candidate(CandidateIdx),
    Result(ResultIdx),
}

/// Bit 31 marks a candidate.
pub open spec fn candidate_tag() -> int {
    0x8000_0000
}

/// Bit 30 marks a result.
pub open spec fn result_tag() -> int {
    0x4000_0000
}

/// Indices must fit in the low 30 bits.
pub open spec fn index_limit() -> int {
    0x4000_0000
}

impl ProofNodeUnpacked {
    /// The index held by the node, whatever its kind.
    pub open spec fn raw_index(self) -> u32 {
        match self {
            ProofNodeUnpacked::Goal(g) => g.0,
            ProofNodeUnpacked::Candidate(c) => c.0,
            ProofNodeUnpacked::Result(r) => r.0,
        }
    }

    /// Whether the index fits in the bits that packing leaves for it.
    pub open spec fn packable(self) -> bool {
        self.raw_index() < index_limit()
    }

    /// The 32-bit value that packing produces.
    pub open spec fn packed_value(self) -> int {
        match self {
            ProofNodeUnpacked::Goal(g) => g.0 as int,
            ProofNodeUnpacked::Candidate(c) => c.0 + candidate_tag(),
            ProofNodeUnpacked::Result(r) => r.0 + result_tag(),
        }
    }
}

/// What unpacking a 32-bit value yields: the kind is read from the two high
/// bits (bit 31 wins over bit 30), the index from the low 30 bits.
pub open spec fn unpacked_value(v: u32) -> ProofNodeUnpacked {
    let idx = ((v as int) % index_limit()) as u32;
    if v < result_tag() {
        ProofNodeUnpacked::Goal(GoalIdx(idx))
    } else if v >= candidate_tag() {
        ProofNodeUnpacked::Candidate(CandidateIdx(idx))
    } else {
        ProofNodeUnpacked::Result(ResultIdx(idx))
    }
}

impl View for ProofNode {
    type V = u32;

    closed spec fn view(&self) -> u32 {
        self.0
    }
}

proof fn lemma_tag_bits(idx: u32)
    requires
        idx < 0x4000_0000,
    ensures
        1u32 << 31u32 == 0x8000_0000u32,
        1u32 << 30u32 == 0x4000_0000u32,
        idx & 0xC000_0000u32 == 0,
        (idx | 0x8000_0000u32) == idx + 0x8000_0000,
        (idx | 0x4000_0000u32) == idx + 0x4000_0000,
{
    assert(1u32 << 31u32 == 0x8000_0000u32) by (bit_vector);
    assert(1u32 << 30u32 == 0x4000_0000u32) by (bit_vector);
    assert(idx & 0xC000_0000u32 == 0) by (bit_vector)
        requires
            idx < 0x4000_0000u32,
    ;
    assert((idx | 0x8000_0000u32) == idx + 0x8000_0000) by (bit_vector)
        requires
            idx < 0x4000_0000u32,
    ;
    assert((idx | 0x4000_0000u32) == idx + 0x4000_0000) by (bit_vector)
        requires
            idx < 0x4000_0000u32,
    ;
}

proof fn lemma_read_bits(v: u32)
    ensures
        1u32 << 31u32 == 0x8000_0000u32,
        (1u32 << 31u32) | (1u32 << 30u32) == 0xC000_0000u32,
        v & (u32::MAX >> 2u32) == v % 0x4000_0000,
        (v & 0xC000_0000u32 == 0) == (v < 0x4000_0000),
        (v & 0x8000_0000u32 != 0) == (v >= 0x8000_0000),
{
    assert(1u32 << 31u32 == 0x8000_0000u32) by (bit_vector);
    assert((1u32 << 31u32) | (1u32 << 30u32) == 0xC000_0000u32) by (bit_vector);
    assert(v & (u32::MAX >> 2u32) == v % 0x4000_0000) by (bit_vector);
    assert((v & 0xC000_0000u32 == 0) == (v < 0x4000_0000)) by (bit_vector);
    assert((v & 0x8000_0000u32 != 0) == (v >= 0x8000_0000)) by (bit_vector);
}

impl ProofNode {
    /// The packed 32-bit value.
    pub closed spec fn value(self) -> u32 {
        self.0
    }

    /// Packs a node; the index must leave the two high bits free.
    pub fn pack(pnu: ProofNodeUnpacked) -> (r: ProofNode)
        requires
            pnu.packable(),
        ensures
            r@ == pnu.packed_value(),
    {
        let idx = match &pnu {
            ProofNodeUnpacked::Goal(goal_idx) => goal_idx.raw(),
            ProofNodeUnpacked::Candidate(candidate_idx) => candidate_idx.raw(),
            ProofNodeUnpacked::Result(result_idx) => result_idx.raw(),
        };
        proof {
            lemma_tag_bits(idx);
        }
        ProofNode(
            match pnu {
                ProofNodeUnpacked::Goal(_) => idx,
                ProofNodeUnpacked::Candidate(_) => idx | (1u32 << 31u32),
                ProofNodeUnpacked::Result(_) => idx | (1u32 << 30u32),
            },
        )
    }

    /// The topology index of this node: its packed value.
    pub fn index(self) -> (r: ProofNodeIdx)
        ensures
            r.0 == self@,
    {
        ProofNodeIdx(self.0)
    }

    /// Reads the kind from the two high bits and the index from the rest.
    pub fn unpack(self) -> (r: ProofNodeUnpacked)
        ensures
            r == unpacked_value(self@),
            r.packable(),
    {
        let idx = self.0 & (u32::MAX >> 2u32);
        proof {
            lemma_read_bits(self.0);
        }
        if self.0 & ((1u32 << 31u32) | (1u32 << 30u32)) == 0 {
            ProofNodeUnpacked::Goal(GoalIdx::from_raw(idx))
        } else if self.0 & (1u32 << 31u32) != 0 {
            ProofNodeUnpacked::Candidate(CandidateIdx::from_raw(idx))
        } else {
            ProofNodeUnpacked::Result(ResultIdx::from_raw(idx))
        }
    }
}

#[verifier::external_type_specification]
#[verifier::external_body]
pub struct ExJsonValue(serde_json::Value);

/// An interned goal: its serialized predicate and what the frontend needs
/// to sort and filter it.
#[derive(Debug)]
pub struct GoalData {
    pub value: serde_json::Value,
    pub necessity: ObligationNecessity,
    pub num_vars: usize,
    /// One of the main components of the predicate is a type variable.
    pub is_main_tv: bool,
    pub result: ResultIdx,
}

/// An interned candidate.
#[derive(Debug)]
pub enum CandidateData {
    /// An impl, by its serialized header.
    Impl { hd: serde_json::Value, is_user_visible: bool },
    /// A where clause of the environment, by its index.
    ParamEnv(usize),
    /// Anything else, by a label.
    Any(String),
}

/// An interned evaluation result.
#[derive(Clone, Copy, Debug)]
pub struct ResultData(pub EvaluationResult);

impl From<String> for CandidateData {
    fn from(value: String) -> (r: CandidateData) {
        CandidateData::Any(value)
    }
}

impl vstd::std_specs::convert::FromSpecImpl<String> for CandidateData {
    open spec fn obeys_from_spec() -> bool {
        true
    }

    open spec fn from_spec(v: String) -> CandidateData {
        CandidateData::Any(v)
    }
}

/// A cycle in the proof tree, listed from the root down.
#[derive(Debug)]
pub struct ProofCycle(Vec<ProofNodeIdx>);

impl View for ProofCycle {
    type V = Seq<ProofNodeIdx>;

    closed spec fn view(&self) -> Seq<ProofNodeIdx> {
        self.0@
    }
}

impl ProofCycle {
    /// The nodes of the cycle, from the root down.
    pub fn nodes(&self) -> (r: &[ProofNodeIdx])
        ensures
            r@ == self@,
    {
        self.0.as_slice()
    }
}

impl topology::Path<ProofNodeIdx, topology::ToRoot> {
    /// The cycle made of this path, read from the root down.
    pub fn into(self) -> (r: ProofCycle)
        ensures
            r@ == self.nodes().reverse(),
    {
        let from_root = self.reverse();
        ProofCycle(from_root.into_nodes())
    }
}

/// Unpacking a packed node gives back the node.
pub proof fn law_unpack_pack(pnu: ProofNodeUnpacked)
    requires
        pnu.packable(),
    ensures
        pnu.packed_value() <= u32::MAX,
        unpacked_value(pnu.packed_value() as u32) == pnu,
{
    match pnu {
        ProofNodeUnpacked::Goal(g) => {},
        ProofNodeUnpacked::Candidate(c) => {},
        ProofNodeUnpacked::Result(r) => {},
    }
}

/// Packing an unpacked value gives back the value, unless both high bits
/// were set (then the result bit is lost).
pub proof fn law_pack_unpack(v: u32)
    requires
        v < 0xC000_0000,
    ensures
        unpacked_value(v).packable(),
        unpacked_value(v).packed_value() == v,
{
}

/// Two packed nodes are equal exactly when their 32-bit values are.
pub proof fn law_proof_node_eq(a: ProofNode, b: ProofNode)
    ensures
        (a == b) == (a@ == b@),
{
}

} // verus!
