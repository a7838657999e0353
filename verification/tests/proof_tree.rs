use std::marker::PhantomData;

use argus::proof_tree::format::{Indentor, IndentorState};
use ts_rs::TS;

use argus::proof_tree::topology::TreeTopology;
use argus::proof_tree::{
    CandidateIdx, GoalIdx, ImplementorsIdx, ProofNode, ProofNodeIdx, ProofNodeUnpacked, ResultIdx,
};
use argus::types::{ExprIdx, ObligationIdx};

/// An index type of the library, by the name under which the frontend
/// knows it; it is sent as its raw number.
trait IndexName {
    const NAME: &'static str;
    const FILE: &'static str;
}

impl IndexName for GoalIdx {
    const NAME: &'static str = "GoalIdx";
    const FILE: &'static str = "bindings/GoalIdx.ts";
}

impl IndexName for ImplementorsIdx {
    const NAME: &'static str = "ImplementorsIdx";
    const FILE: &'static str = "bindings/ImplementorsIdx.ts";
}

impl IndexName for CandidateIdx {
    const NAME: &'static str = "CandidateIdx";
    const FILE: &'static str = "bindings/CandidateIdx.ts";
}

impl IndexName for ResultIdx {
    const NAME: &'static str = "ResultIdx";
    const FILE: &'static str = "bindings/ResultIdx.ts";
}

impl IndexName for ProofNodeIdx {
    const NAME: &'static str = "ProofNodeIdx";
    const FILE: &'static str = "bindings/ProofNodeIdx.ts";
}

impl IndexName for ExprIdx {
    const NAME: &'static str = "ExprIdx";
    const FILE: &'static str = "bindings/ExprIdx.ts";
}

impl IndexName for ObligationIdx {
    const NAME: &'static str = "ObligationIdx";
    const FILE: &'static str = "bindings/ObligationIdx.ts";
}

/// The TypeScript binding of an index type: an alias of `number`.
struct NumberBinding<T>(PhantomData<T>);

impl<T: IndexName + 'static> TS for NumberBinding<T> {
    const EXPORT_TO: Option<&'static str> = Some(T::FILE);

    fn decl() -> String {
        format!("type {} = number;", T::NAME)
    }

    fn name() -> String {
        T::NAME.to_owned()
    }

    fn inline() -> String {
        "number".to_owned()
    }

    fn dependencies() -> Vec<ts_rs::Dependency> {
        vec![]
    }

    fn transparent() -> bool {
        false
    }
}

/// The JSON value sent for a raw index.
fn wire(raw: u32) -> serde_json::Value {
    serde_json::to_value(raw).expect("a number serializes")
}

fn export_binding<T: IndexName + 'static>(raw_on_wire: serde_json::Value) {
    // What the frontend receives for the index is a plain number...
    assert!(raw_on_wire.is_number());
    // ...and its binding says so.
    let ts = NumberBinding::<T>::export_to_string().expect("could not export type");
    assert!(ts.contains(&format!("export type {} = number;", T::NAME)));
}

#[test]
fn mod_export_bindings_indices() {
    export_binding::<GoalIdx>(wire(GoalIdx::from_raw(7).raw()));
    export_binding::<ImplementorsIdx>(wire(ImplementorsIdx::from_raw(0).raw()));
    export_binding::<CandidateIdx>(wire(CandidateIdx::from_raw(u32::MAX).raw()));
    export_binding::<ResultIdx>(wire(ResultIdx::from_raw(42).raw()));
}

#[test]
fn ts_export_bindings_indices() {
    export_binding::<ExprIdx>(wire(ExprIdx(3).0 as u32));
    export_binding::<ObligationIdx>(wire(ObligationIdx(9).0 as u32));
    export_binding::<ProofNodeIdx>(wire(ProofNodeIdx::from_raw(5).raw()));
    export_binding::<GoalIdx>(wire(GoalIdx::from_raw(1).raw()));
    export_binding::<CandidateIdx>(wire(CandidateIdx::from_raw(2).raw()));
    export_binding::<ResultIdx>(wire(ResultIdx::from_raw(3).raw()));
}

#[test]
fn pack_unpack_round_trip() {
    let cases = [
        ProofNodeUnpacked::Goal(GoalIdx::from_raw(0)),
        ProofNodeUnpacked::Goal(GoalIdx::from_raw(0x3FFF_FFFF)),
        ProofNodeUnpacked::Candidate(CandidateIdx::from_raw(17)),
        ProofNodeUnpacked::Result(ResultIdx::from_raw(0x3FFF_FFFF)),
    ];
    for c in cases {
        assert_eq!(ProofNode::pack(c).unpack(), c);
    }
}

#[test]
fn pack_sets_kind_bits() {
    let g = ProofNode::pack(ProofNodeUnpacked::Goal(GoalIdx::from_raw(5)));
    let c = ProofNode::pack(ProofNodeUnpacked::Candidate(CandidateIdx::from_raw(5)));
    let r = ProofNode::pack(ProofNodeUnpacked::Result(ResultIdx::from_raw(5)));
    assert_ne!(g, c);
    assert_ne!(c, r);
    assert_ne!(g, r);
    assert_eq!(c.unpack(), ProofNodeUnpacked::Candidate(CandidateIdx::from_raw(5)));
    assert_eq!(r.unpack(), ProofNodeUnpacked::Result(ResultIdx::from_raw(5)));
}

#[test]
fn topology_add_and_parent() {
    let mut t = TreeTopology::new();
    let a = ProofNodeIdx::from_raw(1);
    let b = ProofNodeIdx::from_raw(2);
    let c = ProofNodeIdx::from_raw(3);
    assert!(t.is_leaf(a));
    assert_eq!(t.parent(b), None);
    t.add(a, b);
    t.add(a, c);
    assert!(!t.is_leaf(a));
    assert!(t.is_leaf(b));
    assert_eq!(t.parent(b), Some(a));
    assert_eq!(t.parent(c), Some(a));
    assert_eq!(t.parent(a), None);
    let mut kids = t.children(a);
    kids.sort_by_key(|n| n.raw());
    assert_eq!(kids, vec![b, c]);
    assert!(t.children(b).is_empty());
}

#[test]
fn topology_path_to_root() {
    let mut t = TreeTopology::new();
    let n = |i| ProofNodeIdx::from_raw(i);
    t.add(n(0), n(1));
    t.add(n(1), n(2));
    t.add(n(2), n(3));
    let p = t.path_to_root(n(3));
    assert_eq!(p.node, n(3));
    assert_eq!(p.root, n(0));
    assert_eq!(p.iter_inclusive(), &[n(3), n(2), n(1), n(0)]);
    assert_eq!(p.iter_exclusive(), vec![n(2), n(1), n(0)]);
    assert_eq!(t.depth(n(3)), 3);
    assert_eq!(t.depth(n(0)), 0);
    let from_root = p.clone().reverse();
    assert_eq!(from_root.iter_inclusive(), &[n(0), n(1), n(2), n(3)]);
    let back = from_root.reverse();
    assert_eq!(back.iter_inclusive(), p.iter_inclusive());
    let cycle = p.into();
    assert_eq!(cycle.nodes(), &[n(0), n(1), n(2), n(3)]);
}

#[test]
fn topology_path_of_root_is_itself() {
    let t = TreeTopology::default();
    let p = t.path_to_root(ProofNodeIdx::from_raw(9));
    assert_eq!(p.iter_inclusive(), &[ProofNodeIdx::from_raw(9)]);
    assert!(p.iter_exclusive().is_empty());
}

#[test]
fn indentor_indents_each_line() {
    let mut w = Indentor { state: IndentorState::StartWithNewline };
    let out: String = w.write_str("a\nb").into_iter().collect();
    assert_eq!(out, "\n    a\n    b");
    assert_eq!(w.state, IndentorState::Inline);
    let more: String = w.write_str("c\n").into_iter().collect();
    assert_eq!(more, "c\n");
    assert_eq!(w.state, IndentorState::OnNewline);
    let next: String = w.write_str("d").into_iter().collect();
    assert_eq!(next, "    d");
    let none: String = w.write_str("").into_iter().collect();
    assert_eq!(none, "");
}
