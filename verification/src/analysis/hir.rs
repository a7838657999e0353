//! Locating the HIR node that most closely encloses a span, and sorting
//! the obligations of a body into bins by the expressions they belong to.
use vstd::prelude::*;

verus! {

/// The identity of a HIR node: its owner and its index within the owner.
#[derive(Clone, Copy, Debug, PartialEq, Eq, Structural, Hash)]
pub struct HirId {
    pub owner: u32,
    pub local_id: u32,
}

/// A source span as byte offsets: `lo` inclusive, `hi` exclusive.
#[derive(Clone, Copy, Debug, PartialEq, Eq, Structural, Hash)]
pub struct SpanData {
    pub lo: u32,
    pub hi: u32,
}

/// The kind of expression a bin of obligations belongs to.
#[derive(Clone, Copy, Debug, PartialEq, Eq, Structural, Hash)]
pub enum BinKind {
    CallableExpr,
    CallArg,
    Call,
    Misc,
}

/// The two spans share at least one byte position.
pub open spec fn overlaps(a: SpanData, b: SpanData) -> bool {
    a.lo < b.hi && b.lo < a.hi
}

/// How far `outer` is from `span`: the distance between their starts plus
/// the distance between their ends.
pub open spec fn distance(outer: SpanData, span: SpanData) -> int {
    let dlo = if outer.lo >= span.lo {
        outer.lo - span.lo
    } else {
        span.lo - outer.lo
    };
    let dhi = if outer.hi >= span.hi {
        outer.hi - span.hi
    } else {
        span.hi - outer.hi
    };
    dlo + dhi
}

pub fn span_overlaps(a: SpanData, b: SpanData) -> (r: bool)
    ensures
        r == overlaps(a, b),
{
    a.lo < b.hi && b.lo < a.hi
}

fn span_distance(outer: SpanData, span: SpanData) -> (r: u32)
    requires
        distance(outer, span) <= u32::MAX,
    ensures
        r == distance(outer, span),
{
    let dlo = if outer.lo >= span.lo {
        outer.lo - span.lo
    } else {
        span.lo - outer.lo
    };
    let dhi = if outer.hi >= span.hi {
        outer.hi - span.hi
    } else {
        span.hi - outer.hi
    };
    dlo + dhi
}

/// Finds the HIR node whose span encloses a target span most closely.
pub struct FindNodeBySpan {
    pub span: SpanData,
    pub result: Option<(HirId, SpanData)>,
}

/// The span of the best match so far.
pub open spec fn best_span(best: Option<(HirId, SpanData)>) -> SpanData {
    match best {
        Some((_, s)) => s,
        None => SpanData { lo: 0, hi: 0 },
    }
}

/// `s` is a closer match for `span` than the best match so far.
pub open spec fn better_match(span: SpanData, best: Option<(HirId, SpanData)>, s: SpanData) -> bool {
    overlaps(s, span) && match best {
        None => true,
        Some((_, bsf)) => distance(s, span) < distance(bsf, span),
    }
}

impl FindNodeBySpan {
    pub fn new(span: SpanData) -> (r: FindNodeBySpan)
        ensures
            r.span == span,
            r.result is None,
    {
        FindNodeBySpan { span, result: None }
    }

    /// Is span `s` a closer match than the current best?
    pub fn is_better_match(&self, s: SpanData) -> (r: bool)
        requires
            overlaps(s, self.span) ==> distance(s, self.span) <= u32::MAX,
            overlaps(s, self.span) && self.result is Some ==> distance(
                best_span(self.result),
                self.span,
            ) <= u32::MAX,
        ensures
            r == better_match(self.span, self.result, s),
    {
        span_overlaps(s, self.span) && match self.result {
            None => true,
            Some((_, bsf)) => span_distance(s, self.span) < span_distance(bsf, self.span),
        }
    }

    /// Visits a node: it becomes the best match when it is a closer one.
    pub fn visit(&mut self, hir_id: HirId, s: SpanData)
        requires
            overlaps(s, old(self).span) ==> distance(s, old(self).span) <= u32::MAX,
            overlaps(s, old(self).span) && old(self).result is Some ==> distance(
                best_span(old(self).result),
                old(self).span,
            ) <= u32::MAX,
        ensures
            final(self).span == old(self).span,
            final(self).result == (if better_match(old(self).span, old(self).result, s) {
                Some((hir_id, s))
            } else {
                old(self).result
            }),
    {
        if self.is_better_match(s) {
            self.result = Some((hir_id, s));
        }
    }
}

/// Every node that overlaps `span` is close enough for distances to fit.
pub open spec fn distances_fit(nodes: Seq<(HirId, SpanData)>, span: SpanData) -> bool {
    forall|j: int|
        0 <= j < nodes.len() && overlaps(#[trigger] nodes[j].1, span) ==> distance(nodes[j].1, span)
            <= u32::MAX
}

/// `k` is the first of the overlapping nodes closest to `span`.
pub open spec fn first_closest(nodes: Seq<(HirId, SpanData)>, span: SpanData, k: int) -> bool {
    &&& 0 <= k < nodes.len()
    &&& overlaps(nodes[k].1, span)
    &&& forall|j: int|
        0 <= j < nodes.len() && overlaps(#[trigger] nodes[j].1, span) ==> distance(nodes[k].1, span)
            <= distance(nodes[j].1, span)
    &&& forall|j: int|
        0 <= j < k && overlaps(#[trigger] nodes[j].1, span) ==> distance(nodes[k].1, span)
            < distance(nodes[j].1, span)
}

/// The node that most closely encloses `span` among `nodes`, given in the
/// order the body is visited: the first of the overlapping nodes at the
/// smallest distance, `None` when no node overlaps.
pub fn find_most_enclosing_node(nodes: &Vec<(HirId, SpanData)>, span: SpanData) -> (r: Option<HirId>)
    requires
        distances_fit(nodes@, span),
    ensures
        r is None <==> forall|j: int| 0 <= j < nodes@.len() ==> !overlaps(#[trigger] nodes@[j].1, span),
        r matches Some(id) ==> exists|k: int| first_closest(nodes@, span, k) && nodes@[k].0 == id,
{
    let mut finder = FindNodeBySpan::new(span);
    let ghost mut best: int = -1;
    let mut i: usize = 0;
    while i < nodes.len()
        invariant
            finder.span == span,
            distances_fit(nodes@, span),
            i <= nodes@.len(),
            finder.result is None <==> forall|j: int|
                0 <= j < i ==> !overlaps(#[trigger] nodes@[j].1, span),
            finder.result is Some ==> {
                &&& 0 <= best < i
                &&& finder.result == Some(nodes@[best])
                &&& first_closest(nodes@.subrange(0, i as int), span, best)
            },
        decreases nodes@.len() - i,
    {
        let (id, s) = nodes[i];
        let ghost prev = finder.result;
        let ghost before = nodes@.subrange(0, i as int);
        let ghost after = nodes@.subrange(0, i + 1);
        proof {
            if overlaps(s, span) {
                assert(nodes@[i as int].1 == s);
            }
            if finder.result is Some {
                assert(before[best].1 == nodes@[best].1);
                assert(overlaps(before[best].1, span));
            }
        }
        finder.visit(id, s);
        proof {
            assert(nodes@[i as int] == (id, s));
            if finder.result != prev {
                best = i as int;
            }
            assert forall|j: int| 0 <= j < i + 1 implies #[trigger] after[j] == nodes@[j] by {}
            assert forall|j: int| 0 <= j < i implies #[trigger] before[j] == nodes@[j] by {}
        }
        i = i + 1;
    }
    assert(nodes@.subrange(0, nodes@.len() as int) =~= nodes@);
    match finder.result {
        Some((id, _)) => Some(id),
        None => None,
    }
}

/// Obligations (by their index) associated with a HIR node.
#[derive(Debug)]
pub struct Bin {
    pub hir_id: HirId,
    pub obligations: Vec<usize>,
    pub kind: BinKind,
}

/// The shape of an expression, as far as binning reads it.
#[derive(Clone, Debug)]
pub enum ExprShape {
    /// `callable(args..)`.
    Call { id: HirId, callable: HirId, args: Vec<HirId> },
    /// `receiver.segment(args..)`.
    MethodCall { id: HirId, segment: HirId, receiver: HirId, args: Vec<HirId> },
    /// Any other expression.
    Other,
}

/// Each argument as a call argument.
pub open spec fn as_call_args(args: Seq<HirId>) -> Seq<(HirId, BinKind)> {
    args.map_values(|a: HirId| (a, BinKind::CallArg))
}

/// The nodes whose nested obligations are drained after an expression's
/// subexpressions were visited, in order, with the kind of their bins: for a
/// call, the arguments, the callee, then the call; for a method call, the
/// arguments, the method segment, the receiver, then the whole expression.
pub open spec fn drain_plan(shape: ExprShape) -> Seq<(HirId, BinKind)> {
    match shape {
        ExprShape::Call { id, callable, args } => as_call_args(args@) + seq![
            (callable, BinKind::CallableExpr),
            (id, BinKind::Call),
        ],
        ExprShape::MethodCall { id, segment, receiver, args } => as_call_args(args@) + seq![
            (segment, BinKind::Call),
            (receiver, BinKind::CallArg),
            (id, BinKind::Misc),
        ],
        ExprShape::Other => Seq::empty(),
    }
}

fn call_args(args: &Vec<HirId>) -> (r: Vec<(HirId, BinKind)>)
    ensures
        r@ == as_call_args(args@),
{
    let mut r: Vec<(HirId, BinKind)> = Vec::new();
    let mut i: usize = 0;
    while i < args.len()
        invariant
            i <= args@.len(),
            r@ == as_call_args(args@.take(i as int)),
        decreases args@.len() - i,
    {
        r.push((args[i], BinKind::CallArg));
        assert(as_call_args(args@.take(i + 1)) =~= as_call_args(args@.take(i as int)).push(
            (args@[i as int], BinKind::CallArg),
        ));
        i = i + 1;
    }
    assert(args@.take(args@.len() as int) =~= args@);
    r
}

/// Which nodes to drain, and into which kind of bin, once the
/// subexpressions of an expression of this shape were visited.
pub fn drain_targets(shape: &ExprShape) -> (r: Vec<(HirId, BinKind)>)
    ensures
        r@ == drain_plan(*shape),
{
    match shape {
        ExprShape::Call { id, callable, args } => {
            let mut r = call_args(args);
            r.push((*callable, BinKind::CallableExpr));
            r.push((*id, BinKind::Call));
            r
        },
        ExprShape::MethodCall { id, segment, receiver, args } => {
            let mut r = call_args(args);
            r.push((*segment, BinKind::Call));
            r.push((*receiver, BinKind::CallArg));
            r.push((*id, BinKind::Misc));
            r
        },
        ExprShape::Other => Vec::new(),
    }
}

/// The obligations among the first `nodes.len()` that are not yet binned
/// and whose node is one of `nested`, in order.
pub open spec fn drained(nodes: Seq<HirId>, taken: Seq<bool>, nested: Seq<HirId>) -> Seq<usize>
    decreases nodes.len(),
{
    if nodes.len() == 0 {
        Seq::empty()
    } else {
        let n = (nodes.len() - 1) as int;
        drained(nodes.drop_last(), taken, nested) + if !taken[n] && nested.contains(nodes[n]) {
            seq![n as usize]
        } else {
            Seq::empty()
        }
    }
}

/// No obligation occurs twice in `bins`, within one bin or across two.
pub open spec fn bins_disjoint(bins: Seq<Bin>) -> bool {
    forall|b1: int, k1: int, b2: int, k2: int|
        0 <= b1 < bins.len() && 0 <= k1 < bins[b1].obligations@.len() && 0 <= b2 < bins.len() && 0
            <= k2 < bins[b2].obligations@.len() && #[trigger] bins[b1].obligations@[k1]
            == #[trigger] bins[b2].obligations@[k2] ==> b1 == b2 && k1 == k2
}

/// Obligation `i` is in one of `bins`.
pub open spec fn in_some_bin(bins: Seq<Bin>, i: usize) -> bool {
    exists|b: int, k: int|
        0 <= b < bins.len() && 0 <= k < bins[b].obligations@.len() && #[trigger] bins[b].obligations@[k]
            == i
}

proof fn lemma_drained(nodes: Seq<HirId>, taken: Seq<bool>, nested: Seq<HirId>)
    requires
        taken.len() >= nodes.len(),
        nodes.len() <= usize::MAX,
    ensures
        forall|k: int|
            0 <= k < drained(nodes, taken, nested).len() ==> {
                let i = #[trigger] drained(nodes, taken, nested)[k];
                &&& i < nodes.len()
                &&& !taken[i as int]
                &&& nested.contains(nodes[i as int])
            },
        forall|k: int, l: int|
            0 <= k < l < drained(nodes, taken, nested).len() ==> #[trigger] drained(nodes, taken, nested)[k]
                < #[trigger] drained(nodes, taken, nested)[l],
        forall|i: int|
            0 <= i < nodes.len() && !taken[i] && nested.contains(#[trigger] nodes[i]) ==> drained(
                nodes,
                taken,
                nested,
            ).contains(i as usize),
    decreases nodes.len(),
{
    if nodes.len() > 0 {
        let init = nodes.drop_last();
        lemma_drained(init, taken, nested);
        let d0 = drained(init, taken, nested);
        let d = drained(nodes, taken, nested);
        let n = (nodes.len() - 1) as int;
        assert forall|k: int| 0 <= k < d0.len() implies d[k] == d0[k] by {}
        assert forall|i: int| 0 <= i < n implies nodes[i] == init[i] by {}
        assert forall|i: int| 0 <= i < nodes.len() && !taken[i] && nested.contains(#[trigger] nodes[i])
            implies d.contains(i as usize) by {
            if i < n {
                assert(init[i] == nodes[i]);
                let k = d0.index_of(i as usize);
                assert(d[k] == d0[k]);
            } else {
                assert(d[d.len() - 1] == n as usize);
            }
        }
    }
}

proof fn lemma_remaining(nodes: Seq<HirId>, taken: Seq<bool>, id: HirId)
    requires
        taken.len() >= nodes.len(),
        nodes.len() <= usize::MAX,
    ensures
        forall|k: int|
            0 <= k < remaining_of(nodes, taken, id).len() ==> {
                let i = #[trigger] remaining_of(nodes, taken, id)[k];
                &&& i < nodes.len()
                &&& !taken[i as int]
                &&& nodes[i as int] == id
            },
        forall|k: int, l: int|
            0 <= k < l < remaining_of(nodes, taken, id).len() ==> #[trigger] remaining_of(
                nodes,
                taken,
                id,
            )[k] < #[trigger] remaining_of(nodes, taken, id)[l],
        forall|i: int|
            0 <= i < nodes.len() && !taken[i] && #[trigger] nodes[i] == id ==> remaining_of(
                nodes,
                taken,
                id,
            ).contains(i as usize),
    decreases nodes.len(),
{
    if nodes.len() > 0 {
        let init = nodes.drop_last();
        lemma_remaining(init, taken, id);
        let d0 = remaining_of(init, taken, id);
        let d = remaining_of(nodes, taken, id);
        let n = (nodes.len() - 1) as int;
        assert forall|k: int| 0 <= k < d0.len() implies d[k] == d0[k] by {}
        assert forall|i: int| 0 <= i < nodes.len() && !taken[i] && #[trigger] nodes[i] == id implies d.contains(
            i as usize,
        ) by {
            if i < n {
                assert(init[i] == nodes[i]);
                let k = d0.index_of(i as usize);
                assert(d[k] == d0[k]);
            } else {
                assert(d[d.len() - 1] == n as usize);
            }
        }
    }
}

/// Sorts the obligations of a body into bins: each obligation starts with
/// the HIR node it came from, and nodes are drained into bins as the
/// expressions that contain them are visited.
pub struct BinCreator {
    nodes: Vec<HirId>,
    taken: Vec<bool>,
    bins: Vec<Bin>,
}

impl BinCreator {
    /// The node of each obligation.
    pub closed spec fn obligation_nodes(&self) -> Seq<HirId> {
        self.nodes@
    }

    /// Which obligations are already in a bin.
    pub closed spec fn binned(&self) -> Seq<bool> {
        self.taken@
    }

    /// The bins made so far.
    pub closed spec fn made(&self) -> Seq<Bin> {
        self.bins@
    }

    /// The flags match the obligations, no obligation is in two bins (or
    /// twice in one), and the obligations in bins are exactly those marked
    /// as binned.
    pub open spec fn well_formed(&self) -> bool {
        &&& self.binned().len() == self.obligation_nodes().len()
        &&& bins_disjoint(self.made())
        &&& forall|i: int|
            0 <= i < self.obligation_nodes().len() ==> (in_some_bin(self.made(), i as usize)
                <==> #[trigger] self.binned()[i])
        &&& forall|b: int, k: int|
            0 <= b < self.made().len() && 0 <= k < self.made()[b].obligations@.len()
                ==> #[trigger] self.made()[b].obligations@[k] < self.obligation_nodes().len()
    }

    /// Starts with obligation `i` coming from node `nodes[i]`, none binned.
    pub fn new(nodes: Vec<HirId>) -> (r: BinCreator)
        ensures
            r.well_formed(),
            r.obligation_nodes() == nodes@,
            forall|i: int| 0 <= i < nodes@.len() ==> !#[trigger] r.binned()[i],
            r.made().len() == 0,
    {
        let mut taken: Vec<bool> = Vec::new();
        let mut i: usize = 0;
        while i < nodes.len()
            invariant
                i <= nodes@.len(),
                taken@.len() == i,
                forall|j: int| 0 <= j < i ==> !#[trigger] taken@[j],
            decreases nodes@.len() - i,
        {
            taken.push(false);
            i = i + 1;
        }
        BinCreator { nodes, taken, bins: Vec::new() }
    }

    /// Moves the obligations not yet binned whose node is one of `nested`
    /// (the nodes nested in `target`) into a new bin for `target` of the
    /// given kind; no bin is made when there are none.
    pub fn drain_nested(&mut self, target: HirId, kind: BinKind, nested: &Vec<HirId>)
        requires
            old(self).well_formed(),
        ensures
            final(self).well_formed(),
            final(self).obligation_nodes() == old(self).obligation_nodes(),
            ({
                let d = drained(old(self).obligation_nodes(), old(self).binned(), nested@);
                &&& forall|i: int|
                    0 <= i < old(self).binned().len() ==> #[trigger] final(self).binned()[i] == (
                    old(self).binned()[i] || d.contains(i as usize))
                &&& d.len() == 0 ==> final(self).made() == old(self).made()
                &&& d.len() > 0 ==> {
                    &&& final(self).made().len() == old(self).made().len() + 1
                    &&& final(self).made().drop_last() == old(self).made()
                    &&& final(self).made().last().hir_id == target
                    &&& final(self).made().last().obligations@ == d
                    &&& final(self).made().last().kind == kind
                }
            }),
    {
        let ghost old_taken = self.taken@;
        let mut obligations: Vec<usize> = Vec::new();
        let mut i: usize = 0;
        while i < self.nodes.len()
            invariant
                self.taken@.len() == self.nodes@.len(),
                old_taken.len() == self.nodes@.len(),
                i <= self.nodes@.len(),
                self.nodes@ == old(self).nodes@,
                self.bins@ == old(self).bins@,
                old_taken == old(self).taken@,
                obligations@ == drained(self.nodes@.take(i as int), old_taken, nested@),
                forall|j: int| 0 <= j < obligations@.len() ==> #[trigger] obligations@[j] < i,
                forall|j: int|
                    0 <= j < self.nodes@.len() ==> #[trigger] self.taken@[j] == (old_taken[j] || (
                    j < i && obligations@.contains(j as usize))),
            decreases self.nodes@.len() - i,
        {
            let ghost before = obligations@;
            let node = self.nodes[i];
            assert(self.nodes@.take(i + 1).drop_last() =~= self.nodes@.take(i as int));
            if !self.taken[i] && contains_node(nested, node) {
                obligations.push(i);
                self.taken.set(i, true);
                assert forall|j: int| 0 <= j < self.nodes@.len() implies #[trigger] self.taken@[j]
                    == (old_taken[j] || (j < i + 1 && obligations@.contains(j as usize))) by {
                    if j != i && j < i + 1 && obligations@.contains(j as usize) {
                        let k = obligations@.index_of(j as usize);
                        assert(k < before.len());
                        assert(before.contains(j as usize));
                    }
                    if j < i && before.contains(j as usize) {
                        let k = before.index_of(j as usize);
                        assert(obligations@[k] == before[k]);
                        assert(obligations@.contains(j as usize));
                    }
                    if j == i {
                        assert(obligations@.last() == i);
                    }
                }
            } else {
                assert forall|j: int| 0 <= j < self.nodes@.len() implies #[trigger] self.taken@[j]
                    == (old_taken[j] || (j < i + 1 && obligations@.contains(j as usize))) by {
                    if j == i && obligations@.contains(j as usize) {
                        let k = obligations@.index_of(j as usize);
                        assert(obligations@[k] < i);
                    }
                }
            }
            i = i + 1;
        }
        proof {
            assert(self.nodes@.take(self.nodes@.len() as int) =~= self.nodes@);
            let d = drained(old(self).nodes@, old(self).taken@, nested@);
            assert(obligations@ == d);
        }
        proof {
            lemma_drained(old(self).nodes@, old(self).taken@, nested@);
        }
        let ghost d = obligations@;
        if obligations.len() > 0 {
            self.bins.push(Bin { hir_id: target, obligations, kind });
            proof {
                assert(self.bins@.drop_last() =~= old(self).bins@);
            }
        }
        proof {
            let n = self.nodes@.len();
            let m0 = old(self).bins@;
            let m1 = self.bins@;
            let t0 = old(self).taken@;
            let t1 = self.taken@;
            assert(d == drained(old(self).nodes@, t0, nested@));
            assert forall|b: int| 0 <= b < m0.len() implies m1[b] == m0[b] by {
                if d.len() > 0 {
                    assert(m1.drop_last()[b] == m0[b]);
                }
            }
            assert(d.len() > 0 ==> m1.len() == m0.len() + 1 && m1[m0.len() as int].obligations@ == d);
            assert(d.len() == 0 ==> m1 == m0);
            // Obligations in bins are exactly the binned ones.
            assert forall|i: int| 0 <= i < n implies (in_some_bin(m1, i as usize) <==> #[trigger] t1[i]) by {
                if in_some_bin(m1, i as usize) {
                    let (b, k) = choose|b: int, k: int|
                        0 <= b < m1.len() && 0 <= k < m1[b].obligations@.len()
                            && #[trigger] m1[b].obligations@[k] == i as usize;
                    if b < m0.len() {
                        assert(m0[b].obligations@[k] == i as usize);
                        assert(in_some_bin(m0, i as usize));
                        assert(t0[i]);
                    } else {
                        assert(d[k] == i as usize);
                        assert(d.contains(i as usize));
                    }
                }
                if t1[i] {
                    if t0[i] {
                        assert(in_some_bin(m0, i as usize));
                        let (b, k) = choose|b: int, k: int|
                            0 <= b < m0.len() && 0 <= k < m0[b].obligations@.len()
                                && #[trigger] m0[b].obligations@[k] == i as usize;
                        assert(m1[b].obligations@[k] == i as usize);
                    } else {
                        assert(d.contains(i as usize));
                        let k = d.index_of(i as usize);
                        assert(m1[m0.len() as int].obligations@[k] == i as usize);
                    }
                }
            }
            // Indices stay in range.
            assert forall|b: int, k: int|
                0 <= b < m1.len() && 0 <= k < m1[b].obligations@.len() implies #[trigger] m1[b].obligations@[k]
                < n by {
                if b < m0.len() {
                    assert(m0[b].obligations@[k] < n);
                } else {
                    assert(d[k] < n);
                }
            }
            // No obligation twice.
            assert forall|b1: int, k1: int, b2: int, k2: int|
                0 <= b1 < m1.len() && 0 <= k1 < m1[b1].obligations@.len() && 0 <= b2 < m1.len() && 0
                    <= k2 < m1[b2].obligations@.len() && #[trigger] m1[b1].obligations@[k1]
                    == #[trigger] m1[b2].obligations@[k2] implies b1 == b2 && k1 == k2 by {
                let x = m1[b1].obligations@[k1];
                if b1 < m0.len() && b2 < m0.len() {
                    assert(m0[b1].obligations@[k1] == m0[b2].obligations@[k2]);
                } else if b1 < m0.len() {
                    assert(m0[b1].obligations@[k1] == x);
                    assert(in_some_bin(m0, x));
                    assert(d[k2] == x);
                    assert(!t0[x as int]);
                } else if b2 < m0.len() {
                    assert(m0[b2].obligations@[k2] == x);
                    assert(in_some_bin(m0, x));
                    assert(d[k1] == x);
                    assert(!t0[x as int]);
                } else {
                    assert(d[k1] == d[k2]);
                    if k1 < k2 {
                        assert(d[k1] < d[k2]);
                    } else if k2 < k1 {
                        assert(d[k2] < d[k1]);
                    }
                }
            }
        }
    }
}

/// The obligations not yet binned whose node is `id`, in order.
pub open spec fn remaining_of(nodes: Seq<HirId>, taken: Seq<bool>, id: HirId) -> Seq<usize>
    decreases nodes.len(),
{
    if nodes.len() == 0 {
        Seq::empty()
    } else {
        let n = (nodes.len() - 1) as int;
        remaining_of(nodes.drop_last(), taken, id) + if !taken[n] && nodes[n] == id {
            seq![n as usize]
        } else {
            Seq::empty()
        }
    }
}

/// One of the bins of `r` from index `from` on is for node `id`.
pub open spec fn has_bin_from(r: Seq<Bin>, from: int, id: HirId) -> bool {
    exists|k: int| from <= k < r.len() && #[trigger] r[k].hir_id == id
}

proof fn lemma_remaining_nonempty(nodes: Seq<HirId>, taken: Seq<bool>, id: HirId, j: int)
    requires
        0 <= j < nodes.len(),
        !taken[j],
        nodes[j] == id,
    ensures
        remaining_of(nodes, taken, id).len() > 0,
    decreases nodes.len(),
{
    if j < nodes.len() - 1 {
        lemma_remaining_nonempty(nodes.drop_last(), taken, id, j);
    }
}

fn collect_remaining(nodes: &Vec<HirId>, taken: &Vec<bool>, id: HirId) -> (r: Vec<usize>)
    requires
        taken@.len() == nodes@.len(),
    ensures
        r@ == remaining_of(nodes@, taken@, id),
{
    let mut r: Vec<usize> = Vec::new();
    let mut i: usize = 0;
    while i < nodes.len()
        invariant
            taken@.len() == nodes@.len(),
            i <= nodes@.len(),
            r@ == remaining_of(nodes@.take(i as int), taken@, id),
        decreases nodes@.len() - i,
    {
        assert(nodes@.take(i + 1).drop_last() =~= nodes@.take(i as int));
        if !taken[i] && nodes[i] == id {
            r.push(i);
        }
        i = i + 1;
    }
    assert(nodes@.take(nodes@.len() as int) =~= nodes@);
    r
}

impl BinCreator {
    /// All bins: those made so far, then one `Misc` bin for each node that
    /// still has obligations not binned, with those obligations in order.
    pub fn into_bins(self) -> (r: Vec<Bin>)
        requires
            self.well_formed(),
        ensures
            ({
                let made = self.made();
                let nodes = self.obligation_nodes();
                let taken = self.binned();
                &&& r@.len() >= made.len()
                &&& r@.take(made.len() as int) == made
                &&& forall|k: int|
                    made.len() <= k < r@.len() ==> {
                        &&& (#[trigger] r@[k]).kind == BinKind::Misc
                        &&& r@[k].obligations@ == remaining_of(nodes, taken, r@[k].hir_id)
                        &&& r@[k].obligations@.len() > 0
                    }
                &&& forall|k: int, l: int|
                    made.len() <= k < l < r@.len() ==> #[trigger] r@[k].hir_id != #[trigger] r@[l].hir_id
                &&& forall|i: int|
                    0 <= i < nodes.len() && !taken[i] ==> has_bin_from(r@, made.len() as int, #[trigger] nodes[i])
                &&& bins_disjoint(r@)
                &&& forall|i: int| 0 <= i < nodes.len() ==> #[trigger] in_some_bin(r@, i as usize)
            }),
    {
        let ghost s_nodes = self.obligation_nodes();
        let ghost s_taken = self.binned();
        let BinCreator { nodes, taken, bins } = self;
        let ghost made = bins@;
        let mut out = bins;
        let mut seen: Vec<HirId> = Vec::new();
        let mut i: usize = 0;
        while i < nodes.len()
            invariant
                taken@.len() == nodes@.len(),
                i <= nodes@.len(),
                out@.len() == made.len() + seen@.len(),
                out@.take(made.len() as int) == made,
                forall|k: int|
                    0 <= k < seen@.len() ==> {
                        &&& (#[trigger] out@[made.len() + k]).hir_id == seen@[k]
                        &&& out@[made.len() + k].kind == BinKind::Misc
                        &&& out@[made.len() + k].obligations@ == remaining_of(nodes@, taken@, seen@[k])
                        &&& out@[made.len() + k].obligations@.len() > 0
                    },
                seen@.no_duplicates(),
                forall|j: int| 0 <= j < i && !taken@[j] ==> seen@.contains(#[trigger] nodes@[j]),
            decreases nodes@.len() - i,
        {
            let id = nodes[i];
            if !taken[i] && !contains_node(&seen, id) {
                let obligations = collect_remaining(&nodes, &taken, id);
                proof {
                    lemma_remaining_nonempty(nodes@, taken@, id, i as int);
                }
                let ghost out0 = out@;
                let ghost seen0 = seen@;
                out.push(Bin { hir_id: id, obligations, kind: BinKind::Misc });
                seen.push(id);
                proof {
                    assert(out@.take(made.len() as int) =~= out0.take(made.len() as int));
                    assert forall|k: int| 0 <= k < seen@.len() implies {
                        &&& (#[trigger] out@[made.len() + k]).hir_id == seen@[k]
                        &&& out@[made.len() + k].kind == BinKind::Misc
                        &&& out@[made.len() + k].obligations@ == remaining_of(nodes@, taken@, seen@[k])
                        &&& out@[made.len() + k].obligations@.len() > 0
                    } by {
                        if k < seen0.len() {
                            assert(out@[made.len() + k] == out0[made.len() + k]);
                        }
                    }
                    assert forall|a: int, b: int| 0 <= a < b < seen@.len() implies seen@[a] != seen@[b] by {
                        if b == seen0.len() {
                            assert(seen0.contains(seen0[a]));
                        }
                    }
                    assert forall|j: int| 0 <= j < i + 1 && !taken@[j] implies seen@.contains(#[trigger] nodes@[j]) by {
                        if j < i {
                            let k = seen0.index_of(nodes@[j]);
                            assert(seen@[k] == seen0[k]);
                        } else {
                            assert(seen@[seen@.len() - 1] == id);
                        }
                    }
                }
            }
            i = i + 1;
        }
        proof {
            assert forall|k: int, l: int|
                made.len() <= k < l < out@.len() implies #[trigger] out@[k].hir_id != #[trigger] out@[l].hir_id by {
                assert(out@[made.len() + (k - made.len())].hir_id == seen@[k - made.len()]);
                assert(out@[made.len() + (l - made.len())].hir_id == seen@[l - made.len()]);
            }
            assert forall|k: int| made.len() <= k < out@.len() implies {
                &&& (#[trigger] out@[k]).kind == BinKind::Misc
                &&& out@[k].obligations@ == remaining_of(nodes@, taken@, out@[k].hir_id)
                &&& out@[k].obligations@.len() > 0
            } by {
                assert(out@[made.len() + (k - made.len())].hir_id == seen@[k - made.len()]);
            }
            assert(out@.len() >= made.len());
            assert(out@.take(made.len() as int) == made);
            assert(s_nodes == nodes@ && s_taken == taken@);
            assert forall|x: int| 0 <= x < s_nodes.len() && !s_taken[x] implies has_bin_from(out@, made.len() as int, #[trigger] s_nodes[x]) by {
                let s = seen@.index_of(nodes@[x]);
                assert(out@[made.len() + s].hir_id == seen@[s]);
            }
            let r = out@;
            let ml = made.len() as int;
            assert forall|k: int| 0 <= k < ml implies r[k] == made[k] by {
                assert(r.take(ml)[k] == made[k]);
            }
            // Every obligation is in a bin.
            assert forall|i: int| 0 <= i < nodes@.len() implies #[trigger] in_some_bin(r, i as usize) by {
                if taken@[i] {
                    assert(in_some_bin(made, i as usize));
                    let (b, k) = choose|b: int, k: int|
                        0 <= b < made.len() && 0 <= k < made[b].obligations@.len()
                            && #[trigger] made[b].obligations@[k] == i as usize;
                    assert(r[b].obligations@[k] == i as usize);
                } else {
                    assert(has_bin_from(r, ml, s_nodes[i]));
                    let b = choose|b: int| ml <= b < r.len() && #[trigger] r[b].hir_id == s_nodes[i];
                    lemma_remaining(nodes@, taken@, r[b].hir_id);
                    assert(r[b].obligations@.contains(i as usize));
                    let k = r[b].obligations@.index_of(i as usize);
                    assert(r[b].obligations@[k] == i as usize);
                }
            }
            // No obligation twice.
            assert forall|b1: int, k1: int, b2: int, k2: int|
                0 <= b1 < r.len() && 0 <= k1 < r[b1].obligations@.len() && 0 <= b2 < r.len() && 0
                    <= k2 < r[b2].obligations@.len() && #[trigger] r[b1].obligations@[k1]
                    == #[trigger] r[b2].obligations@[k2] implies b1 == b2 && k1 == k2 by {
                let x = r[b1].obligations@[k1];
                if b1 < ml && b2 < ml {
                    assert(made[b1].obligations@[k1] == made[b2].obligations@[k2]);
                } else if b1 < ml {
                    assert(made[b1].obligations@[k1] == x);
                    assert(in_some_bin(made, x));
                    assert(x < nodes@.len());
                    assert(taken@[x as int]);
                    lemma_remaining(nodes@, taken@, r[b2].hir_id);
                    assert(!taken@[r[b2].obligations@[k2] as int]);
                } else if b2 < ml {
                    assert(made[b2].obligations@[k2] == x);
                    assert(in_some_bin(made, x));
                    assert(x < nodes@.len());
                    assert(taken@[x as int]);
                    lemma_remaining(nodes@, taken@, r[b1].hir_id);
                    assert(!taken@[r[b1].obligations@[k1] as int]);
                } else {
                    lemma_remaining(nodes@, taken@, r[b1].hir_id);
                    lemma_remaining(nodes@, taken@, r[b2].hir_id);
                    assert(nodes@[x as int] == r[b1].hir_id);
                    assert(nodes@[x as int] == r[b2].hir_id);
                    if b1 != b2 {
                        if b1 < b2 {
                            assert(r[b1].hir_id != r[b2].hir_id);
                        } else {
                            assert(r[b2].hir_id != r[b1].hir_id);
                        }
                    }
                    let o = r[b1].obligations@;
                    if k1 < k2 {
                        assert(o[k1] < o[k2]);
                    } else if k2 < k1 {
                        assert(o[k2] < o[k1]);
                    }
                }
            }
        }
        out
    }
}

fn contains_node(v: &Vec<HirId>, x: HirId) -> (r: bool)
    ensures
        r == v@.contains(x),
{
    let mut i: usize = 0;
    while i < v.len()
        invariant
            i <= v@.len(),
            forall|j: int| 0 <= j < i ==> v@[j] != x,
        decreases v@.len() - i,
    {
        if v[i] == x {
            assert(v@[i as int] == x);
            return true;
        }
        i = i + 1;
    }
    false
}

} // verus!
