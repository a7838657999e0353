//! Topology structures, mainly used by the proof tree.
use std::collections::HashMap;
use std::collections::HashSet;
use std::marker::PhantomData;

use vstd::prelude::*;

use super::ProofNodeIdx;

verus! {

broadcast use vstd::std_specs::hash::group_hash_axioms;

/// Parent/child relationships between proof tree nodes, keyed by the raw
/// node index.
#[derive(Clone, Debug)]
pub struct TreeTopology {
    children: HashMap<u32, HashSet<u32>>,
    parent: HashMap<u32, u32>,
}

/// Marker for a path that starts at the root.
#[derive(Clone, Debug)]
pub struct FromRoot;

/// Marker for a path that ends at the root.
#[derive(Clone, Debug)]
pub struct ToRoot;

/// The path from or to the root for a given node.
#[derive(Debug)]
pub struct Path<N, Marker> {
    pub root: N,
    pub node: N,
    path: Vec<N>,
    _marker: PhantomData<Marker>,
}

/// Whether following parents from `n` meets a node without a parent within
/// `fuel` steps.
pub open spec fn reaches_root_within(parent: Map<u32, u32>, n: u32, fuel: nat) -> bool
    decreases fuel,
{
    if !parent.contains_key(n) {
        true
    } else if fuel == 0 {
        false
    } else {
        reaches_root_within(parent, parent[n], (fuel - 1) as nat)
    }
}

/// Each node of `nodes` but the last has the next one as its parent.
pub open spec fn parent_links(parent: Map<u32, u32>, nodes: Seq<u32>) -> bool {
    forall|i: int|
        #![trigger nodes[i]]
        0 <= i < nodes.len() - 1 ==> parent.contains_key(nodes[i]) && parent[nodes[i]] == nodes[i
            + 1]
}

/// `nodes` is the chain of parents from `node` up to a node without a parent.
pub open spec fn is_root_chain(parent: Map<u32, u32>, node: u32, nodes: Seq<u32>) -> bool {
    &&& nodes.len() >= 1
    &&& nodes[0] == node
    &&& !parent.contains_key(nodes.last())
    &&& parent_links(parent, nodes)
}

/// The raw indices of a sequence of node indices.
pub open spec fn raw_seq(nodes: Seq<ProofNodeIdx>) -> Seq<u32> {
    nodes.map_values(|n: ProofNodeIdx| n.0)
}

impl<N, Marker> Path<N, Marker> {
    /// The nodes of the path, in order.
    pub closed spec fn nodes(&self) -> Seq<N> {
        self.path@
    }

    /// The root end of the path.
    pub closed spec fn root_end(&self) -> N {
        self.root
    }

    /// The node the path was computed for.
    pub closed spec fn node_end(&self) -> N {
        self.node
    }

    /// The nodes of the path, in order.
    pub fn into_nodes(self) -> (r: Vec<N>)
        ensures
            r@ == self.nodes(),
    {
        self.path
    }

    /// All nodes of the path, both ends included.
    pub fn iter_inclusive(&self) -> (r: &[N])
        ensures
            r@ == self.nodes(),
    {
        self.path.as_slice()
    }

    /// The nodes of the path without its first node.
    pub fn iter_exclusive(&self) -> (r: Vec<N>) where N: Copy
        ensures
            r@ == (if self.nodes().len() == 0 {
                Seq::<N>::empty()
            } else {
                self.nodes().skip(1)
            }),
    {
        let mut r: Vec<N> = Vec::new();
        let n = self.path.len();
        let mut i: usize = 1;
        while i < n
            invariant
                n == self.path@.len(),
                1 <= i <= n || n == 0,
                n > 0 ==> r@ == self.path@.subrange(1, i as int),
                n == 0 ==> r@.len() == 0,
            decreases n - i,
        {
            r.push(self.path[i]);
            i = i + 1;
        }
        proof {
            if n > 0 {
                assert(self.path@.skip(1) =~= self.path@.subrange(1, n as int));
            } else {
                assert(r@ =~= Seq::<N>::empty());
            }
        }
        r
    }
}

/// Copies a sequence of nodes.
fn copied<N: Copy>(v: &Vec<N>) -> (r: Vec<N>)
    ensures
        r@ == v@,
{
    let mut r: Vec<N> = Vec::new();
    let n = v.len();
    let mut i: usize = 0;
    while i < n
        invariant
            n == v@.len(),
            i <= n,
            r@ == v@.subrange(0, i as int),
        decreases n - i,
    {
        r.push(v[i]);
        i = i + 1;
    }
    assert(r@ =~= v@);
    r
}

impl<N: Copy, Marker> Clone for Path<N, Marker> {
    fn clone(&self) -> (r: Self)
        ensures
            r.root_end() == self.root_end(),
            r.node_end() == self.node_end(),
            r.nodes() == self.nodes(),
    {
        Path { root: self.root, node: self.node, path: copied(&self.path), _marker: PhantomData }
    }
}

/// Reverses a sequence of nodes.
fn reversed<N: Copy>(v: &Vec<N>) -> (r: Vec<N>)
    ensures
        r@ == v@.reverse(),
{
    let mut r: Vec<N> = Vec::new();
    let n = v.len();
    let mut i: usize = n;
    while i > 0
        invariant
            n == v@.len(),
            i <= n,
            r@ == v@.subrange(i as int, n as int).reverse(),
        decreases i,
    {
        i = i - 1;
        r.push(v[i]);
        proof {
            assert(v@.subrange(i as int, n as int).reverse() =~= v@.subrange(
                i + 1,
                n as int,
            ).reverse().push(v@[i as int]));
        }
    }
    proof {
        assert(v@.subrange(0, n as int) =~= v@);
    }
    r
}

impl<N: Copy> Path<N, ToRoot> {
    /// The same path read from the root down.
    pub fn reverse(self) -> (r: Path<N, FromRoot>)
        ensures
            r.root_end() == self.root_end(),
            r.node_end() == self.node_end(),
            r.nodes() == self.nodes().reverse(),
    {
        let path = reversed(&self.path);
        Path { root: self.root, node: self.node, path, _marker: PhantomData }
    }
}

impl<N: Copy> Path<N, FromRoot> {
    /// The same path read from the node up.
    pub fn reverse(self) -> (r: Path<N, ToRoot>)
        ensures
            r.root_end() == self.root_end(),
            r.node_end() == self.node_end(),
            r.nodes() == self.nodes().reverse(),
    {
        let path = reversed(&self.path);
        Path { root: self.root, node: self.node, path, _marker: PhantomData }
    }
}

/// Reading a path backwards twice gives back the path.
pub proof fn law_reverse_involutive<N>(nodes: Seq<N>)
    ensures
        nodes.reverse().reverse() == nodes,
{
    assert(nodes.reverse().reverse() =~= nodes);
}

impl TreeTopology {
    /// The children recorded for each node.
    pub closed spec fn child_sets(&self) -> Map<u32, Set<u32>> {
        Map::new(|k: u32| self.children@.contains_key(k), |k: u32| self.children@[k]@)
    }

    /// The parent recorded for each node.
    pub closed spec fn parent_map(&self) -> Map<u32, u32> {
        self.parent@
    }

    /// The children of `n`; empty when none were recorded.
    pub open spec fn children_of(&self, n: u32) -> Set<u32> {
        if self.child_sets().contains_key(n) {
            self.child_sets()[n]
        } else {
            Set::empty()
        }
    }

    /// Following parents from `node` ends at a node without a parent.
    pub open spec fn reaches_root(&self, node: u32) -> bool {
        exists|fuel: nat| reaches_root_within(self.parent_map(), node, fuel)
    }

    pub fn new() -> (r: TreeTopology)
        ensures
            r.child_sets() == Map::<u32, Set<u32>>::empty(),
            r.parent_map() == Map::<u32, u32>::empty(),
    {
        let r = TreeTopology { children: HashMap::new(), parent: HashMap::new() };
        assert(r.child_sets() =~= Map::<u32, Set<u32>>::empty());
        r
    }

    /// Records `to` as a child of `from`.
    pub fn add(&mut self, from: ProofNodeIdx, to: ProofNodeIdx)
        ensures
            final(self).child_sets() == old(self).child_sets().insert(
                from.0,
                old(self).children_of(from.0).insert(to.0),
            ),
            final(self).parent_map() == old(self).parent_map().insert(to.0, from.0),
    {
        let mut set = match self.children.remove(&from.0) {
            Some(s) => s,
            None => HashSet::new(),
        };
        set.insert(to.0);
        self.children.insert(from.0, set);
        self.parent.insert(to.0, from.0);
        assert(self.child_sets() =~= old(self).child_sets().insert(
            from.0,
            old(self).children_of(from.0).insert(to.0),
        ));
    }

    /// The order in which the children of `n` come out of their set.
    pub closed spec fn child_order(&self, n: u32) -> Seq<u32> {
        if self.children@.contains_key(n) {
            vstd::std_specs::hash::into_iter_hash_keys(
                vstd::std_specs::hash::spec_hash_keys_iter(&self.children@[n]),
            )
        } else {
            Seq::empty()
        }
    }

    /// The children of `node`, each once, in the order of their set.
    pub fn children(&self, node: ProofNodeIdx) -> (r: Vec<ProofNodeIdx>)
        ensures
            raw_seq(r@) == self.child_order(node.0),
            raw_seq(r@).to_set() == self.children_of(node.0),
            raw_seq(r@).no_duplicates(),
    {
        let mut r: Vec<ProofNodeIdx> = Vec::new();
        match self.children.get(&node.0) {
            None => {
                assert(raw_seq(r@).to_set() =~= self.children_of(node.0));
                r
            },
            Some(set) => {
                let keys_iter = set.iter();
                let ghost keys = vstd::std_specs::iter::IteratorSpec::remaining(&keys_iter).unref();
                assert(keys == vstd::std_specs::hash::into_iter_hash_keys(keys_iter));
                assert(keys.to_set() == set@);
                for x in it: keys_iter
                    invariant
                        it.seq().unref() == keys,
                        raw_seq(r@) == keys.take(it.index()),
                {
                    let ghost r0 = r@;
                    assert(it.index() < keys.len());
                    assert(*x == keys[it.index()]);
                    r.push(ProofNodeIdx(*x));
                    assert(raw_seq(r@) =~= raw_seq(r0).push(*x));
                    assert(keys.take(it.index() + 1) =~= keys.take(it.index()).push(*x));
                }
                assert(keys.take(keys.len() as int) =~= keys);
                r
            },
        }
    }

    /// Whether children were ever recorded for `node`.
    pub fn has_children(&self, node: ProofNodeIdx) -> (r: bool)
        ensures
            r == self.child_sets().contains_key(node.0),
    {
        self.children.contains_key(&node.0)
    }

    /// A node is a leaf when it has no children.
    pub fn is_leaf(&self, node: ProofNodeIdx) -> (r: bool)
        ensures
            r == self.children_of(node.0).is_empty(),
    {
        match self.children.get(&node.0) {
            None => {
                assert(self.children_of(node.0) =~= Set::<u32>::empty());
                true
            },
            Some(children) => children.is_empty(),
        }
    }

    pub fn parent(&self, to: ProofNodeIdx) -> (r: Option<ProofNodeIdx>)
        ensures
            r == (if self.parent_map().contains_key(to.0) {
                Some(ProofNodeIdx(self.parent_map()[to.0]))
            } else {
                None
            }),
    {
        match self.parent.get(&to.0) {
            Some(p) => Some(ProofNodeIdx(*p)),
            None => None,
        }
    }

    /// The chain of parents from `node` up to the root, `node` first.
    pub fn path_to_root(&self, node: ProofNodeIdx) -> (r: Path<ProofNodeIdx, ToRoot>)
        requires
            self.reaches_root(node.0),
        ensures
            r.node_end() == node,
            is_root_chain(self.parent_map(), node.0, raw_seq(r.nodes())),
            r.root_end() == r.nodes().last(),
    {
        let ghost mut fuel: nat = choose|fuel: nat|
            reaches_root_within(self.parent_map(), node.0, fuel);
        let mut path: Vec<ProofNodeIdx> = Vec::new();
        path.push(node);
        let mut curr = node;
        loop
            invariant
                path@.len() >= 1,
                path@[0] == node,
                path@.last() == curr,
                reaches_root_within(self.parent_map(), curr.0, fuel),
                parent_links(self.parent_map(), raw_seq(path@)),
            ensures
                path@.len() >= 1,
                path@[0] == node,
                path@.last() == curr,
                !self.parent_map().contains_key(curr.0),
                parent_links(self.parent_map(), raw_seq(path@)),
            decreases fuel,
        {
            match self.parent(curr) {
                Some(p) => {
                    proof {
                        fuel = (fuel - 1) as nat;
                    }
                    let ghost before = path@;
                    path.push(p);
                    curr = p;
                    proof {
                        let raw = raw_seq(path@);
                        let raw0 = raw_seq(before);
                        assert forall|i: int| 0 <= i < raw.len() - 1 implies #[trigger] self.parent_map().contains_key(
                            raw[i],
                        ) && self.parent_map()[raw[i]] == raw[i + 1] by {
                            if i < raw.len() - 2 {
                                assert(raw0[i] == raw[i] && raw0[i + 1] == raw[i + 1]);
                            }
                        }
                    }
                },
                None => {
                    break ;
                },
            }
        }
        Path { root: curr, node, path, _marker: PhantomData }
    }
}

/// Two chains of parents from the same node to a root are the same chain.
pub proof fn law_root_chain_unique(parent: Map<u32, u32>, node: u32, a: Seq<u32>, b: Seq<u32>)
    requires
        is_root_chain(parent, node, a),
        is_root_chain(parent, node, b),
    ensures
        a == b,
{
    assert forall|i: int| 0 <= i < a.len() implies i < b.len() && a[i] == b[i] by {
        lemma_chains_agree(parent, node, a, b, i);
    }
    assert forall|i: int| 0 <= i < b.len() implies i < a.len() && a[i] == b[i] by {
        lemma_chains_agree(parent, node, b, a, i);
    }
    assert(a =~= b);
}

proof fn lemma_chains_agree(parent: Map<u32, u32>, node: u32, a: Seq<u32>, b: Seq<u32>, i: int)
    requires
        is_root_chain(parent, node, a),
        is_root_chain(parent, node, b),
        0 <= i < a.len(),
    ensures
        i < b.len(),
        a[i] == b[i],
    decreases i,
{
    if i > 0 {
        lemma_chains_agree(parent, node, a, b, i - 1);
        assert(parent_links(parent, a));
        assert(parent_links(parent, b));
        assert(0 <= i - 1 < a.len() - 1);
        assert(parent.contains_key(a[i - 1]) && parent[a[i - 1]] == a[i]);
        if i - 1 == b.len() - 1 {
            assert(b.last() == b[i - 1]);
        }
        assert(parent.contains_key(b[i - 1]) && parent[b[i - 1]] == b[i]);
    }
}

impl TreeTopology {
    /// The number of parent steps from `node` to its root.
    pub open spec fn depth_of(&self, node: u32) -> int {
        (choose|nodes: Seq<u32>| is_root_chain(self.parent_map(), node, nodes)).len() - 1
    }

    /// The number of ancestors of `node`.
    pub fn depth(&self, node: ProofNodeIdx) -> (r: usize)
        requires
            self.reaches_root(node.0),
        ensures
            r == self.depth_of(node.0),
    {
        let path = self.path_to_root(node);
        let nodes = path.iter_inclusive();
        proof {
            let c = raw_seq(path.nodes());
            let chosen = choose|nodes: Seq<u32>| is_root_chain(self.parent_map(), node.0, nodes);
            law_root_chain_unique(self.parent_map(), node.0, c, chosen);
        }
        nodes.len() - 1
    }
}

impl Default for TreeTopology {
    fn default() -> (r: TreeTopology)
        ensures
            r.child_sets() == Map::<u32, Set<u32>>::empty(),
            r.parent_map() == Map::<u32, u32>::empty(),
    {
        TreeTopology::new()
    }
}

proof fn lemma_chain_exists(parent: Map<u32, u32>, n: u32, fuel: nat)
    requires
        reaches_root_within(parent, n, fuel),
    ensures
        exists|nodes: Seq<u32>| is_root_chain(parent, n, nodes),
    decreases fuel,
{
    if !parent.contains_key(n) {
        let c = seq![n];
        assert(is_root_chain(parent, n, c));
    } else {
        lemma_chain_exists(parent, parent[n], (fuel - 1) as nat);
        let rest = choose|nodes: Seq<u32>| is_root_chain(parent, parent[n], nodes);
        let c = seq![n] + rest;
        assert forall|i: int| 0 <= i < c.len() - 1 implies parent.contains_key(#[trigger] c[i])
            && parent[c[i]] == c[i + 1] by {
            if i > 0 {
                assert(c[i] == rest[i - 1]);
                assert(c[i + 1] == rest[i]);
            }
        }
        assert(c.last() == rest.last());
        assert(is_root_chain(parent, n, c));
    }
}

impl TreeTopology {
    /// A node that reaches the root has a depth, at least 0.
    pub proof fn lemma_depth_nonneg(&self, node: u32)
        requires
            self.reaches_root(node),
        ensures
            self.depth_of(node) >= 0,
    {
        let fuel = choose|fuel: nat| reaches_root_within(self.parent_map(), node, fuel);
        lemma_chain_exists(self.parent_map(), node, fuel);
    }
}

/// After `add(from, to)`, `from` is the parent of `to` and no leaf.
pub proof fn law_add_links(before: TreeTopology, after: TreeTopology, from: u32, to: u32)
    requires
        after.child_sets() == before.child_sets().insert(
            from,
            before.children_of(from).insert(to),
        ),
        after.parent_map() == before.parent_map().insert(to, from),
    ensures
        after.parent_map().contains_key(to),
        after.parent_map()[to] == from,
        after.children_of(from).contains(to),
        !after.children_of(from).is_empty(),
{
    assert(after.children_of(from).contains(to));
}

} // verus!
