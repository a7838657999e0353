//! Building the serialized proof tree while the solver's proof tree is
//! visited: the decisions of the visitor, one event at a time.
use std::collections::HashMap;

use vstd::prelude::*;

use super::topology::TreeTopology;
use super::{GoalIdx, ImplementorsIdx, ProofCycle, ProofNode};
use crate::types::{is_yes, spec_is_yes, EvaluationResult};

verus! {

broadcast use vstd::std_specs::hash::group_hash_axioms;

/// The projections after a goal with the given result and type equation
/// was visited: see `SerializedTreeVisitor::check_goal_projection`.
pub open spec fn projections_after(
    before: Map<u32, u32>,
    result: EvaluationResult,
    equate: Option<(u32, bool, u32, bool)>,
) -> Map<u32, u32> {
    match equate {
        Some((t1, t1_is_alias, t2, t2_is_alias)) => {
            let (a, b) = if t2_is_alias {
                (t2, t1)
            } else {
                (t1, t2)
            };
            if spec_is_yes(result) && !(t1_is_alias && t2_is_alias) && t1 != t2
                && !before.contains_key(a) {
                before.insert(a, b)
            } else {
                before
            }
        },
        None => before,
    }
}

/// The state of the visitor that records the proof tree.
pub struct SerializedTreeVisitor {
    pub root: Option<ProofNode>,
    pub previous: Option<ProofNode>,
    pub topology: TreeTopology,
    pub cycle: Option<ProofCycle>,
    pub projection_values: HashMap<u32, u32>,
    pub impls: HashMap<u32, u32>,
    pub maybe_ambiguous: bool,
}

impl SerializedTreeVisitor {
    /// Recorded alias-to-type projections, by interned type index.
    pub open spec fn projections(&self) -> Map<u32, u32> {
        self.projection_values@
    }

    /// Recorded implementor sets, by goal index.
    pub open spec fn implementors(&self) -> Map<u32, u32> {
        self.impls@
    }

    /// Whether ambiguous results are analyzed as failures.
    pub open spec fn analyzes_ambiguity(&self) -> bool {
        self.maybe_ambiguous
    }

    pub fn new(maybe_ambiguous: bool) -> (r: SerializedTreeVisitor)
        ensures
            r.root is None,
            r.previous is None,
            r.cycle is None,
            r.topology.child_sets().is_empty(),
            r.topology.parent_map().is_empty(),
            r.projections().is_empty(),
            r.implementors().is_empty(),
            r.analyzes_ambiguity() == maybe_ambiguous,
    {
        let r = SerializedTreeVisitor {
            root: None,
            previous: None,
            topology: TreeTopology::new(),
            cycle: None,
            projection_values: HashMap::new(),
            impls: HashMap::new(),
            maybe_ambiguous,
        };
        assert(r.topology.child_sets().is_empty());
        assert(r.projections().is_empty());
        assert(r.implementors().is_empty());
        r
    }

    /// A goal node is visited: the first one becomes the root, and each is
    /// the child of the candidate visited before it. Returns the candidate
    /// to go back to when the goal is done.
    pub fn enter_goal(&mut self, here: ProofNode) -> (here_parent: Option<ProofNode>)
        ensures
            here_parent == old(self).previous,
            final(self).previous == old(self).previous,
            final(self).root == (if old(self).root is None {
                Some(here)
            } else {
                old(self).root
            }),
            old(self).previous matches Some(prev) ==> final(self).topology.child_sets()
                == old(self).topology.child_sets().insert(
                prev@,
                old(self).topology.children_of(prev@).insert(here@),
            ) && final(self).topology.parent_map() == old(self).topology.parent_map().insert(
                here@,
                prev@,
            ),
            old(self).previous is None ==> final(self).topology.child_sets()
                == old(self).topology.child_sets() && final(self).topology.parent_map()
                == old(self).topology.parent_map(),
            final(self).cycle == old(self).cycle,
            final(self).projections() == old(self).projections(),
            final(self).implementors() == old(self).implementors(),
            final(self).analyzes_ambiguity() == old(self).analyzes_ambiguity(),
    {
        if self.root.is_none() {
            self.root = Some(here);
        }
        if let Some(prev) = self.previous {
            self.topology.add(prev.index(), here.index());
        }
        self.previous
    }

    /// A candidate of goal `here` is visited. A candidate already in the
    /// topology is skipped (`false`); otherwise it becomes a child of the
    /// goal and the node that the goal's subgoals hang from (`true`).
    pub fn enter_candidate(&mut self, here: ProofNode, candidate: ProofNode) -> (visit: bool)
        ensures
            visit == !old(self).topology.child_sets().contains_key(candidate@),
            !visit ==> final(self).topology.child_sets() == old(self).topology.child_sets()
                && final(self).topology.parent_map() == old(self).topology.parent_map()
                && final(self).previous == old(self).previous,
            visit ==> final(self).topology.child_sets() == old(self).topology.child_sets().insert(
                here@,
                old(self).topology.children_of(here@).insert(candidate@),
            ) && final(self).topology.parent_map() == old(self).topology.parent_map().insert(
                candidate@,
                here@,
            ) && final(self).previous == Some(candidate),
            final(self).root == old(self).root,
            final(self).cycle == old(self).cycle,
            final(self).projections() == old(self).projections(),
            final(self).implementors() == old(self).implementors(),
            final(self).analyzes_ambiguity() == old(self).analyzes_ambiguity(),
    {
        if self.topology.has_children(candidate.index()) {
            return false;
        }
        self.topology.add(here.index(), candidate.index());
        self.previous = Some(candidate);
        true
    }

    /// The goal is done: the visitor goes back to the node it hangs from.
    pub fn exit_goal(&mut self, here_parent: Option<ProofNode>)
        ensures
            final(self).previous == here_parent,
            final(self).root == old(self).root,
            final(self).topology.child_sets() == old(self).topology.child_sets(),
            final(self).topology.parent_map() == old(self).topology.parent_map(),
            final(self).cycle == old(self).cycle,
            final(self).projections() == old(self).projections(),
            final(self).implementors() == old(self).implementors(),
            final(self).analyzes_ambiguity() == old(self).analyzes_ambiguity(),
    {
        self.previous = here_parent;
    }

    /// Records the implementors of a trait goal.
    pub fn record_all_impls(&mut self, goal_idx: GoalIdx, impls_idx: ImplementorsIdx)
        ensures
            final(self).implementors() == old(self).implementors().insert(goal_idx.0, impls_idx.0),
            final(self).projections() == old(self).projections(),
            final(self).root == old(self).root,
            final(self).previous == old(self).previous,
            final(self).topology == old(self).topology,
            final(self).cycle == old(self).cycle,
            final(self).analyzes_ambiguity() == old(self).analyzes_ambiguity(),
    {
        self.impls.insert(goal_idx.0, impls_idx.0);
    }

    /// A goal that holds and equates two interned types `t1` and `t2`
    /// (`equate`, with whether each is an alias; `None` for any other
    /// predicate) is recorded as a projection from the alias (the second
    /// type when it is one) to the other type, unless both are aliases, the
    /// types are equal, or a projection from that type is recorded already.
    /// Goals that do not hold are ignored.
    pub fn check_goal_projection(
        &mut self,
        result: &EvaluationResult,
        equate: Option<(u32, bool, u32, bool)>,
    )
        ensures
            final(self).projections() == projections_after(old(self).projections(), *result, equate),
            final(self).implementors() == old(self).implementors(),
            final(self).root == old(self).root,
            final(self).previous == old(self).previous,
            final(self).topology == old(self).topology,
            final(self).cycle == old(self).cycle,
            final(self).analyzes_ambiguity() == old(self).analyzes_ambiguity(),
    {
        if !is_yes(result) {
            return;
        }
        let (t1, t1_is_alias, t2, t2_is_alias) = match equate {
            Some(e) => e,
            None => return,
        };
        if !(t1_is_alias && t2_is_alias) && t1 != t2 {
            let (a, b) = if t2_is_alias {
                (t2, t1)
            } else {
                (t1, t2)
            };
            if !self.projection_values.contains_key(&a) {
                self.projection_values.insert(a, b);
            }
        }
    }
}

/// The indices below `n` for which `keep` holds, in order.
pub open spec fn indices_where(keep: spec_fn(int) -> bool, n: nat) -> Seq<usize>
    decreases n,
{
    if n == 0 {
        Seq::empty()
    } else {
        indices_where(keep, (n - 1) as nat) + if keep(n - 1) {
            seq![(n - 1) as usize]
        } else {
            Seq::empty()
        }
    }
}

/// The order in which the nested goals of a candidate are visited, by
/// index: the goals that do not hold and are sources of the error
/// (`error_source`), then the goals that hold. Other failed goals are not
/// visited.
pub open spec fn visit_order(results: Seq<EvaluationResult>, error_source: Seq<bool>) -> Seq<usize> {
    indices_where(|i: int| !spec_is_yes(results[i]) && error_source[i], results.len())
        + indices_where(|i: int| spec_is_yes(results[i]), results.len())
}

fn collect_where(results: &Vec<EvaluationResult>, error_source: &Vec<bool>, holding: bool) -> (r:
    Vec<usize>)
    requires
        error_source@.len() == results@.len(),
    ensures
        holding ==> r@ == indices_where(|i: int| spec_is_yes(results@[i]), results@.len()),
        !holding ==> r@ == indices_where(
            |i: int| !spec_is_yes(results@[i]) && error_source@[i],
            results@.len(),
        ),
{
    let ghost keep = if holding {
        |i: int| spec_is_yes(results@[i])
    } else {
        |i: int| !spec_is_yes(results@[i]) && error_source@[i]
    };
    let mut r: Vec<usize> = Vec::new();
    let mut i: usize = 0;
    while i < results.len()
        invariant
            error_source@.len() == results@.len(),
            i <= results@.len(),
            keep == (if holding {
                |i: int| spec_is_yes(results@[i])
            } else {
                |i: int| !spec_is_yes(results@[i]) && error_source@[i]
            }),
            r@ == indices_where(keep, i as nat),
        decreases results@.len() - i,
    {
        let yes = is_yes(&results[i]);
        let take = if holding {
            yes
        } else {
            !yes && error_source[i]
        };
        assert(take == keep(i as int));
        if take {
            r.push(i);
        }
        i = i + 1;
    }
    r
}

/// The nested goals of a candidate to visit, in order; `results` are their
/// results and `error_source` says which of them the error-source filter
/// keeps.
pub fn nested_visit_order(results: &Vec<EvaluationResult>, error_source: &Vec<bool>) -> (r: Vec<
    usize,
>)
    requires
        error_source@.len() == results@.len(),
    ensures
        r@ == visit_order(results@, error_source@),
{
    let mut r = collect_where(results, error_source, false);
    let holds = collect_where(results, error_source, true);
    let mut k: usize = 0;
    let ghost first = r@;
    while k < holds.len()
        invariant
            k <= holds@.len(),
            r@ == first + holds@.take(k as int),
        decreases holds@.len() - k,
    {
        r.push(holds[k]);
        assert(holds@.take(k + 1) =~= holds@.take(k as int).push(holds@[k as int]));
        k = k + 1;
    }
    assert(holds@.take(holds@.len() as int) =~= holds@);
    r
}

} // verus!
