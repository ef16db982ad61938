//! The execution planner: groups a validated workflow's nodes into
//! topological levels. Level `k` holds every node whose dependencies all
//! lie in levels `0 .. k`; within a level, nodes keep declaration order.

use vstd::prelude::*;
use crate::graph::{assign_ok, levels_match, levels_or_cycle, lemma_plan_deterministic};
use crate::model::ValidatedWorkflow;

verus! {

/// A derived, read-only execution plan: `levels[k]` lists the nodes of
/// level `k` in declaration order, and `level_of[v]` is the level index of
/// node `v`.
pub struct ExecutionPlan {
    pub levels: Vec<Vec<usize>>,
    pub level_of: Vec<usize>,
}

impl ExecutionPlan {
    /// The plan is the topological leveling of the workflow's graph.
    pub open spec fn matches(self, vw: ValidatedWorkflow) -> bool {
        &&& assign_ok(vw.def.nodes@.len() as int, vw.edges@, self.level_of@)
        &&& levels_match(vw.def.nodes@.len() as int, self.level_of@, self.levels@)
    }
}

/// Computes the execution plan of a validated workflow. Levels strictly
/// increase along every connection, an entry node sits at level zero, and
/// a node's level is exactly one above its deepest dependency.
pub fn plan(vw: &ValidatedWorkflow) -> (r: ExecutionPlan)
    requires
        vw.wf(),
    ensures
        r.matches(*vw),
{
    let n = vw.def.nodes.len();
    match levels_or_cycle(n, &vw.edges) {
        Ok(p) => ExecutionPlan { levels: p.0, level_of: p.1 },
        Err(_) => {
            // a validated workflow is acyclic, so no cycle can come back
            proof {
                assert(false);
            }
            ExecutionPlan { levels: Vec::new(), level_of: Vec::new() }
        },
    }
}

/// Planning is deterministic: for one validated workflow there is exactly
/// one plan that satisfies the planner's contract, so repeated planning
/// yields identical level groupings and identical intra-level orderings.
pub proof fn lemma_plan_unique(vw: ValidatedWorkflow, p1: ExecutionPlan, p2: ExecutionPlan)
    requires
        vw.wf(),
        p1.matches(vw),
        p2.matches(vw),
    ensures
        p1.level_of@ == p2.level_of@,
        p1.levels@.len() == p2.levels@.len(),
        forall|k: int| 0 <= k < p1.levels@.len() ==> (#[trigger] p1.levels@[k])@ == p2.levels@[k]@,
{
    lemma_plan_deterministic(
        vw.def.nodes@.len() as int,
        vw.edges@,
        p1.level_of@,
        p1.levels@,
        p2.level_of@,
        p2.levels@,
    );
}

} // verus!
