//! The execution engine: a per-run state machine. A run walks the plan's
//! levels in order, dispatches each node with the concatenation of the
//! items its incoming connections carry, retries failed attempts up to the
//! node's limit, and applies the node's failure policy when attempts are
//! exhausted. Cancellation stops all further dispatch.

use vstd::prelude::*;
use crate::graph::Edge;
use crate::model::{
    Item, ItemView, items_at, OnErrorPolicy, RetryPolicy, ValidatedWorkflow,
};
use crate::plan::ExecutionPlan;
use crate::registry::{Capability, CancelToken, NodeRegistry, RunContext, registry_has};

verus! {

/// Where one node of a run stands.
#[derive(Clone, Copy, PartialEq, Eq, Structural, Debug)]
pub enum NodeState {
    Pending,
    Running,
    Succeeded,
    Failed,
    Skipped,
}

/// Where the whole run stands.
#[derive(Clone, Copy, PartialEq, Eq, Structural, Debug)]
pub enum RunStatus {
    New,
    Running,
    Success,
    Failed,
    Waiting,
    Canceled,
}

/// The node has reached a state it will never leave.
pub open spec fn terminal(s: NodeState) -> bool {
    s == NodeState::Succeeded || s == NodeState::Failed || s == NodeState::Skipped
}

/// How many attempts a node is allowed in total: at least one, even when
/// the declared limit is zero.
pub open spec fn retry_limit(p: RetryPolicy) -> nat {
    if p.max_attempts >= 1 {
        p.max_attempts as nat
    } else {
        1
    }
}

/// The status and attempt count of a node after the outcome of one
/// attempt is recorded: a success succeeds the node; a failure is retried
/// while attempts remain and the run is not canceled, else the node fails.
pub open spec fn after_attempt(policy: RetryPolicy, attempts: nat, ok: bool, canceled: bool) -> (
    NodeState,
    nat,
) {
    if ok {
        (NodeState::Succeeded, attempts + 1)
    } else if !canceled && attempts + 1 < retry_limit(policy) {
        (NodeState::Pending, attempts + 1)
    } else {
        (NodeState::Failed, attempts + 1)
    }
}

/// The status and attempt count of a node that began pending with no
/// attempts and had `k` failing attempts recorded, none canceled.
pub open spec fn after_failures(policy: RetryPolicy, k: nat) -> (NodeState, nat)
    decreases k,
{
    if k == 0 {
        (NodeState::Pending, 0)
    } else {
        let prev = after_failures(policy, (k - 1) as nat);
        after_attempt(policy, prev.1, false, false)
    }
}

proof fn lemma_failures_stay_pending(policy: RetryPolicy, k: nat)
    requires
        k < retry_limit(policy),
    ensures
        after_failures(policy, k) == (NodeState::Pending, k),
    decreases k,
{
    if k > 0 {
        lemma_failures_stay_pending(policy, (k - 1) as nat);
    }
}

/// The retry law: a node whose capability fails `maxAttempts - 1` times
/// and then succeeds ends `Succeeded` with exactly `maxAttempts` recorded
/// attempts. Each step is the transition that `complete` performs.
pub proof fn lemma_retry_policy(policy: RetryPolicy)
    requires
        policy.max_attempts >= 1,
    ensures
        after_attempt(
            policy,
            after_failures(policy, (policy.max_attempts - 1) as nat).1,
            true,
            false,
        ) == (NodeState::Succeeded, policy.max_attempts as nat),
        after_failures(policy, (policy.max_attempts - 1) as nat).0 == NodeState::Pending,
{
    lemma_failures_stay_pending(policy, (policy.max_attempts - 1) as nat);
}

/// The mutable state of one run: per-node status, attempt count, recorded
/// input, output per slot, error, and duration, plus the trigger items and
/// the cancellation flag.
pub struct RunState {
    pub statuses: Vec<NodeState>,
    pub attempts: Vec<u32>,
    pub inputs: Vec<Vec<Item>>,
    pub outputs: Vec<Vec<Vec<Item>>>,
    pub errors: Vec<Option<String>>,
    pub durations: Vec<u64>,
    pub trigger: Vec<Item>,
    pub canceled: bool,
}

/// All per-node vectors cover exactly the workflow's nodes.
pub open spec fn state_wf(vw: ValidatedWorkflow, s: RunState) -> bool {
    let n = vw.def.nodes@.len();
    &&& s.statuses@.len() == n
    &&& s.attempts@.len() == n
    &&& s.inputs@.len() == n
    &&& s.outputs@.len() == n
    &&& s.errors@.len() == n
    &&& s.durations@.len() == n
}

/// Node `v` has at least one incoming connection.
pub open spec fn has_incoming(vw: ValidatedWorkflow, v: int) -> bool {
    exists|c: int| 0 <= c < vw.edges@.len() && (#[trigger] vw.edges@[c]).to as int == v
}

/// The edge's source can never feed anything onward: it was skipped, or it
/// failed under the `Stop` policy.
pub open spec fn dead_source(vw: ValidatedWorkflow, statuses: Seq<NodeState>, e: Edge) -> bool {
    ||| statuses[e.from as int] == NodeState::Skipped
    ||| (statuses[e.from as int] == NodeState::Failed && vw.def.nodes@[e.from as int].on_error
        == OnErrorPolicy::Stop)
}

/// Every one of `v`'s incoming connections is dead, so `v` can only be
/// skipped. An entry node is never dead.
#[verifier::opaque]
pub open spec fn node_dead(vw: ValidatedWorkflow, statuses: Seq<NodeState>, v: int) -> bool {
    &&& has_incoming(vw, v)
    &&& forall|c: int|
        0 <= c < vw.edges@.len() && (#[trigger] vw.edges@[c]).to as int == v ==> dead_source(
            vw,
            statuses,
            vw.edges@[c],
        )
}

/// Node `v` failed under the `Stop` policy, which forces the run to fail.
pub open spec fn stop_failed(vw: ValidatedWorkflow, statuses: Seq<NodeState>, v: int) -> bool {
    statuses[v] == NodeState::Failed && vw.def.nodes@[v].on_error == OnErrorPolicy::Stop
}

/// Some node failed under the `Stop` policy.
pub open spec fn some_stop_failed(vw: ValidatedWorkflow, statuses: Seq<NodeState>) -> bool {
    exists|v: int| 0 <= v < statuses.len() && stop_failed(vw, statuses, v)
}

/// No node is mid-attempt.
pub open spec fn no_running(statuses: Seq<NodeState>) -> bool {
    forall|v: int| 0 <= v < statuses.len() ==> statuses[v] != NodeState::Running
}

/// Every node has reached a terminal state.
pub open spec fn all_terminal(statuses: Seq<NodeState>) -> bool {
    forall|v: int| 0 <= v < statuses.len() ==> terminal(#[trigger] statuses[v])
}

/// The items one connection carries into its target, given its source's
/// outcome: a succeeded source contributes the items of the connected
/// output slot; a failed source contributes nothing under
/// `ContinueWithEmpty` or `Stop` and its own recorded input under
/// `ContinueWithInput`; any other source contributes nothing.
pub open spec fn contribution(vw: ValidatedWorkflow, s: RunState, e: Edge) -> Seq<ItemView> {
    let src = e.from as int;
    if s.statuses@[src] == NodeState::Succeeded {
        if (e.from_output as int) < s.outputs@[src]@.len() {
            items_at(s.outputs@[src]@[e.from_output as int]@)
        } else {
            Seq::empty()
        }
    } else if s.statuses@[src] == NodeState::Failed {
        match vw.def.nodes@[src].on_error {
            OnErrorPolicy::Stop => Seq::empty(),
            OnErrorPolicy::ContinueWithEmpty => Seq::empty(),
            OnErrorPolicy::ContinueWithInput => items_at(s.inputs@[src]@),
        }
    } else {
        Seq::empty()
    }
}

/// The concatenation of the contributions of the first `c` connections
/// that end at `v`, in connection declaration order.
pub open spec fn gathered_prefix(vw: ValidatedWorkflow, s: RunState, v: int, c: int) -> Seq<
    ItemView,
>
    decreases c,
{
    if c <= 0 {
        Seq::empty()
    } else {
        gathered_prefix(vw, s, v, c - 1) + if vw.edges@[c - 1].to as int == v {
            contribution(vw, s, vw.edges@[c - 1])
        } else {
            Seq::empty()
        }
    }
}

/// The input a node receives: entry nodes receive the trigger items; any
/// other node receives the concatenation, in connection declaration order,
/// of the items its incoming connections carry.
pub open spec fn gathered_input(vw: ValidatedWorkflow, s: RunState, v: int) -> Seq<ItemView> {
    if has_incoming(vw, v) {
        gathered_prefix(vw, s, v, vw.edges@.len() as int)
    } else {
        items_at(s.trigger@)
    }
}

/// The sum of the item counts of the contributions of the first `c`
/// connections that end at `v`.
pub open spec fn contribution_count(vw: ValidatedWorkflow, s: RunState, v: int, c: int) -> int
    decreases c,
{
    if c <= 0 {
        0
    } else {
        contribution_count(vw, s, v, c - 1) + if vw.edges@[c - 1].to as int == v {
            contribution(vw, s, vw.edges@[c - 1]).len() as int
        } else {
            0
        }
    }
}

/// A node's input item count equals the sum of the item counts its
/// resolved incoming connections carry: gathering is concatenation and
/// loses nothing.
pub proof fn lemma_input_count(vw: ValidatedWorkflow, s: RunState, v: int, c: int)
    requires
        c >= 0,
    ensures
        gathered_prefix(vw, s, v, c).len() == contribution_count(vw, s, v, c),
    decreases c,
{
    if c > 0 {
        lemma_input_count(vw, s, v, c - 1);
    }
}

/// Under `ContinueWithEmpty`, a failed node contributes zero items to each
/// node downstream of it, yet does not kill the connection: its target can
/// still run and is never skipped on this edge's account.
pub proof fn lemma_continue_with_empty(
    vw: ValidatedWorkflow,
    s: RunState,
    statuses: Seq<NodeState>,
    c: int,
)
    requires
        statuses == s.statuses@,
        0 <= c < vw.edges@.len(),
        statuses[vw.edges@[c].from as int] == NodeState::Failed,
        vw.def.nodes@[vw.edges@[c].from as int].on_error == OnErrorPolicy::ContinueWithEmpty,
    ensures
        contribution(vw, s, vw.edges@[c]) == Seq::<ItemView>::empty(),
        !dead_source(vw, statuses, vw.edges@[c]),
        !node_dead(vw, statuses, vw.edges@[c].to as int),
{
    reveal(node_dead);
}

/// Appends clones of `src`'s items to `dst`, preserving their values.
fn append_items(dst: &mut Vec<Item>, src: &Vec<Item>)
    ensures
        items_at(final(dst)@) == items_at(old(dst)@) + items_at(src@),
{
    let mut i: usize = 0;
    while i < src.len()
        invariant
            0 <= i <= src@.len(),
            items_at(dst@) == items_at(old(dst)@) + items_at(src@).take(i as int),
        decreases src@.len() - i,
    {
        let ghost before = dst@;
        dst.push(src[i].clone());
        proof {
            assert(items_at(dst@) =~= items_at(before).push(src@[i as int]@));
            assert(items_at(src@).take(i + 1) =~= items_at(src@).take(i as int).push(
                src@[i as int]@,
            ));
            assert(items_at(dst@) =~= items_at(old(dst)@) + items_at(src@).take(i + 1));
        }
        i += 1;
    }
    proof {
        assert(items_at(src@).take(src@.len() as int) =~= items_at(src@));
    }
}

/// A fresh vector holding clones of the given items, with the same values.
fn clone_items(src: &Vec<Item>) -> (r: Vec<Item>)
    ensures
        items_at(r@) == items_at(src@),
{
    let mut r: Vec<Item> = Vec::new();
    proof {
        assert(items_at(r@) + items_at(src@) =~= items_at(src@));
        assert(items_at(r@) =~= Seq::<ItemView>::empty());
    }
    let ghost empty = r@;
    append_items(&mut r, src);
    proof {
        assert(items_at(empty) + items_at(src@) =~= items_at(src@));
    }
    r
}

/// What the engine asks its driver to do next.
pub enum NextStep {
    /// Invoke the node's capability on this input, then report the outcome
    /// through `complete`.
    Dispatch { node: usize, input: Vec<Item> },
    /// The run is over, with this final status.
    Done { status: RunStatus },
}

impl RunState {
    /// A fresh run over the workflow: every node pending with no attempts,
    /// the trigger items ready to seed the entry nodes, not canceled.
    pub fn begin(vw: &ValidatedWorkflow, trigger: Vec<Item>) -> (s: RunState)
        requires
            vw.wf(),
        ensures
            state_wf(*vw, s),
            forall|v: int|
                0 <= v < vw.def.nodes@.len() ==> s.statuses@[v] == NodeState::Pending,
            forall|v: int| 0 <= v < vw.def.nodes@.len() ==> s.attempts@[v] == 0,
            forall|v: int| 0 <= v < vw.def.nodes@.len() ==> s.errors@[v] is None,
            forall|v: int| 0 <= v < vw.def.nodes@.len() ==> (#[trigger] s.inputs@[v])@.len() == 0,
            forall|v: int| 0 <= v < vw.def.nodes@.len() ==> (#[trigger] s.outputs@[v])@.len() == 0,
            forall|v: int| 0 <= v < vw.def.nodes@.len() ==> s.durations@[v] == 0,
            s.trigger == trigger,
            !s.canceled,
    {
        let n = vw.def.nodes.len();
        let mut statuses: Vec<NodeState> = Vec::new();
        let mut attempts: Vec<u32> = Vec::new();
        let mut inputs: Vec<Vec<Item>> = Vec::new();
        let mut outputs: Vec<Vec<Vec<Item>>> = Vec::new();
        let mut errors: Vec<Option<String>> = Vec::new();
        let mut durations: Vec<u64> = Vec::new();
        let mut v: usize = 0;
        while v < n
            invariant
                0 <= v <= n,
                statuses@.len() == v,
                attempts@.len() == v,
                inputs@.len() == v,
                outputs@.len() == v,
                errors@.len() == v,
                durations@.len() == v,
                forall|u: int| 0 <= u < v ==> statuses@[u] == NodeState::Pending,
                forall|u: int| 0 <= u < v ==> attempts@[u] == 0,
                forall|u: int| 0 <= u < v ==> errors@[u] is None,
                forall|u: int| 0 <= u < v ==> (#[trigger] inputs@[u])@.len() == 0,
                forall|u: int| 0 <= u < v ==> (#[trigger] outputs@[u])@.len() == 0,
                forall|u: int| 0 <= u < v ==> durations@[u] == 0,
            decreases n - v,
        {
            statuses.push(NodeState::Pending);
            attempts.push(0);
            inputs.push(Vec::new());
            outputs.push(Vec::new());
            errors.push(None);
            durations.push(0);
            v += 1;
        }
        RunState { statuses, attempts, inputs, outputs, errors, durations, trigger, canceled: false }
    }

    /// Requests cancellation: the current attempt may finish, but nothing
    /// further is dispatched.
    pub fn cancel(&mut self)
        ensures
            final(self).canceled,
            final(self).statuses == old(self).statuses,
            final(self).attempts == old(self).attempts,
            final(self).inputs == old(self).inputs,
            final(self).outputs == old(self).outputs,
            final(self).errors == old(self).errors,
            final(self).durations == old(self).durations,
            final(self).trigger == old(self).trigger,
    {
        self.canceled = true;
    }

    /// Whether every incoming connection of `v` is dead.
    fn is_dead(&self, vw: &ValidatedWorkflow, v: usize) -> (r: bool)
        requires
            vw.wf(),
            state_wf(*vw, *self),
            (v as int) < vw.def.nodes@.len(),
        ensures
            r == node_dead(*vw, self.statuses@, v as int),
    {
        proof {
            reveal(node_dead);
        }
        let mut any_incoming = false;
        let mut all_dead = true;
        let mut c: usize = 0;
        while c < vw.edges.len()
            invariant
                0 <= c <= vw.edges@.len(),
                vw.wf(),
                state_wf(*vw, *self),
                (v as int) < vw.def.nodes@.len(),
                any_incoming == exists|d: int|
                    0 <= d < c && (#[trigger] vw.edges@[d]).to as int == v as int,
                all_dead == forall|d: int|
                    0 <= d < c && (#[trigger] vw.edges@[d]).to as int == v as int ==> dead_source(
                        *vw,
                        self.statuses@,
                        vw.edges@[d],
                    ),
            decreases vw.edges@.len() - c,
        {
            let e = &vw.edges[c];
            if e.to == v {
                proof {
                    assert(0 <= c < c + 1 && vw.edges@[c as int].to as int == v as int);
                }
                any_incoming = true;
                let src = e.from;
                let src_dead = match self.statuses[src] {
                    NodeState::Skipped => true,
                    NodeState::Failed => matches!(
                        vw.def.nodes[src].on_error,
                        OnErrorPolicy::Stop
                    ),
                    _ => false,
                };
                if !src_dead {
                    all_dead = false;
                }
            }
            c += 1;
        }
        proof {
            reveal(node_dead);
        }
        any_incoming && all_dead
    }

    /// Builds the input for node `v` from the current state: the trigger
    /// items for an entry node, otherwise the concatenation of the items
    /// its incoming connections carry, in declaration order.
    pub fn gather_input(&self, vw: &ValidatedWorkflow, v: usize) -> (r: Vec<Item>)
        requires
            vw.wf(),
            state_wf(*vw, *self),
            (v as int) < vw.def.nodes@.len(),
        ensures
            items_at(r@) == gathered_input(*vw, *self, v as int),
    {
        let mut out: Vec<Item> = Vec::new();
        proof {
            assert(items_at(out@) =~= Seq::<ItemView>::empty());
        }
        let mut has_in = false;
        let mut c: usize = 0;
        while c < vw.edges.len()
            invariant
                0 <= c <= vw.edges@.len(),
                vw.wf(),
                state_wf(*vw, *self),
                (v as int) < vw.def.nodes@.len(),
                has_in == exists|d: int|
                    0 <= d < c && (#[trigger] vw.edges@[d]).to as int == v as int,
                items_at(out@) == gathered_prefix(*vw, *self, v as int, c as int),
            decreases vw.edges@.len() - c,
        {
            let e = vw.edges[c];
            let ghost before = out@;
            if e.to == v {
                proof {
                    assert(0 <= c < c + 1 && vw.edges@[c as int].to as int == v as int);
                }
                has_in = true;
                match self.statuses[e.from] {
                    NodeState::Succeeded => {
                        if e.from_output < self.outputs[e.from].len() {
                            append_items(&mut out, &self.outputs[e.from][e.from_output]);
                        }
                    },
                    NodeState::Failed => {
                        match vw.def.nodes[e.from].on_error {
                            OnErrorPolicy::ContinueWithInput => {
                                append_items(&mut out, &self.inputs[e.from]);
                            },
                            OnErrorPolicy::ContinueWithEmpty => {},
                            OnErrorPolicy::Stop => {},
                        }
                    },
                    _ => {},
                }
            }
            proof {
                assert(items_at(out@) =~= gathered_prefix(*vw, *self, v as int, c + 1));
            }
            c += 1;
        }
        if !has_in {
            proof {
                assert(!has_incoming(*vw, v as int));
            }
            return clone_items(&self.trigger);
        }
        out
    }
}

/// No connection loops a node back to itself: the graph is acyclic.
pub proof fn lemma_no_self_edge(vw: ValidatedWorkflow, c: int)
    requires
        vw.wf(),
        0 <= c < vw.edges@.len(),
    ensures
        vw.edges@[c].from != vw.edges@[c].to,
{
    if vw.edges@[c].from == vw.edges@[c].to {
        let rank = choose|rank: Map<int, int>| crate::graph::rank_ok(vw.edges@, rank);
        assert(rank[vw.edges@[c].from as int] < rank[vw.edges@[c].to as int]);
    }
}

/// A dead node stays dead while only pending nodes change state: a dead
/// connection's source was skipped or stop-failed, never pending.
pub proof fn lemma_dead_stable(
    vw: ValidatedWorkflow,
    s1: Seq<NodeState>,
    s2: Seq<NodeState>,
    v: int,
)
    requires
        vw.wf(),
        s1.len() == s2.len(),
        s1.len() == vw.def.nodes@.len(),
        node_dead(vw, s1, v),
        forall|u: int| 0 <= u < s1.len() && s1[u] != s2[u] ==> s1[u] == NodeState::Pending,
    ensures
        node_dead(vw, s2, v),
{
    reveal(node_dead);
    assert forall|c: int|
        0 <= c < vw.edges@.len() && (#[trigger] vw.edges@[c]).to as int == v implies dead_source(
        vw,
        s2,
        vw.edges@[c],
    ) by {
        assert(dead_source(vw, s1, vw.edges@[c]));
        assert(s1[vw.edges@[c].from as int] != NodeState::Pending);
    }
}

/// Whether a node is dead depends only on the states of its sources.
pub proof fn lemma_dead_same_sources(
    vw: ValidatedWorkflow,
    s1: Seq<NodeState>,
    s2: Seq<NodeState>,
    v: int,
)
    requires
        vw.wf(),
        forall|c: int|
            0 <= c < vw.edges@.len() && (#[trigger] vw.edges@[c]).to as int == v ==> s1[vw.edges@[c].from as int]
                == s2[vw.edges@[c].from as int],
    ensures
        node_dead(vw, s1, v) == node_dead(vw, s2, v),
{
    reveal(node_dead);
}

/// Two states whose connections all carry the same items gather the same
/// input prefix.
proof fn lemma_gather_congruence(vw: ValidatedWorkflow, s1: RunState, s2: RunState, v: int, c: int)
    requires
        c >= 0,
        forall|d: int|
            0 <= d < c ==> contribution(vw, s1, #[trigger] vw.edges@[d]) == contribution(
                vw,
                s2,
                vw.edges@[d],
            ),
    ensures
        gathered_prefix(vw, s1, v, c) == gathered_prefix(vw, s2, v, c),
    decreases c,
{
    if c > 0 {
        lemma_gather_congruence(vw, s1, s2, v, c - 1);
    }
}

impl RunState {
    /// Whether some node failed under the `Stop` policy.
    fn any_stop_failed(&self, vw: &ValidatedWorkflow) -> (r: bool)
        requires
            vw.wf(),
            state_wf(*vw, *self),
        ensures
            r == some_stop_failed(*vw, self.statuses@),
    {
        let n = vw.def.nodes.len();
        let mut v: usize = 0;
        while v < n
            invariant
                0 <= v <= n,
                vw.wf(),
                state_wf(*vw, *self),
                n == vw.def.nodes@.len(),
                forall|u: int| 0 <= u < v ==> !stop_failed(*vw, self.statuses@, u),
            decreases n - v,
        {
            let is_failed = matches!(self.statuses[v], NodeState::Failed);
            let is_stop = matches!(vw.def.nodes[v].on_error, OnErrorPolicy::Stop);
            if is_failed && is_stop {
                proof {
                    assert(stop_failed(*vw, self.statuses@, v as int));
                }
                return true;
            }
            v += 1;
        }
        false
    }

    /// Marks a pending, non-dead node running, gathers its input from the
    /// current state, and records a copy of that input on the node.
    fn dispatch_at(
        &mut self,
        vw: &ValidatedWorkflow,
        plan: &ExecutionPlan,
        w: usize,
        Ghost(k): Ghost<int>,
        Ghost(idx): Ghost<int>,
    ) -> (input: Vec<Item>)
        requires
            vw.wf(),
            plan.matches(*vw),
            state_wf(*vw, *old(self)),
            0 <= k < plan.levels@.len(),
            0 <= idx < plan.levels@[k]@.len(),
            (plan.levels@[k]@[idx] as int) == w as int,
            old(self).statuses@[w as int] == NodeState::Pending,
            !node_dead(*vw, old(self).statuses@, w as int),
            forall|k2: int, i2: int|
                0 <= k2 < k && 0 <= i2 < plan.levels@[k2]@.len() ==> terminal(
                    old(self).statuses@[(#[trigger] plan.levels@[k2]@[i2]) as int],
                ),
        ensures
            state_wf(*vw, *final(self)),
            final(self).attempts == old(self).attempts,
            final(self).outputs == old(self).outputs,
            final(self).errors == old(self).errors,
            final(self).durations == old(self).durations,
            final(self).trigger == old(self).trigger,
            final(self).canceled == old(self).canceled,
            final(self).statuses@ == old(self).statuses@.update(w as int, NodeState::Running),
            forall|v: int|
                0 <= v < vw.def.nodes@.len() && v != w as int ==> final(self).inputs@[v] == old(
                    self,
                ).inputs@[v],
            items_at(final(self).inputs@[w as int]@) == items_at(input@),
            items_at(input@) == gathered_input(*vw, *final(self), w as int),
            !node_dead(*vw, final(self).statuses@, w as int),
            forall|c: int|
                0 <= c < vw.edges@.len() && (#[trigger] vw.edges@[c]).to as int == w as int
                    ==> terminal(final(self).statuses@[vw.edges@[c].from as int]),
            forall|v: int|
                0 <= v < vw.def.nodes@.len() && ((#[trigger] plan.level_of@[v]) as int) < k
                    ==> terminal(final(self).statuses@[v]),
    {
        let ghost pre = self.statuses@;
        proof {
            assert((plan.levels@[k]@[idx]) < vw.def.nodes@.len());
        }
        self.statuses.set(w, NodeState::Running);
        let ghost mid = *self;
        let input = self.gather_input(vw, w);
        let stored = clone_items(&input);
        self.inputs.set(w, stored);
        proof {
            // storing the node's own input does not change what any
            // connection carries: no node feeds itself
            assert forall|d: int|
                0 <= d < vw.edges@.len() implies contribution(
                *vw,
                mid,
                #[trigger] vw.edges@[d],
            ) == contribution(*vw, *self, vw.edges@[d]) by {
                if vw.edges@[d].from as int == w as int {
                    assert(self.statuses@[w as int] == NodeState::Running);
                }
            }
            lemma_gather_congruence(*vw, mid, *self, w as int, vw.edges@.len() as int);
            assert(gathered_input(*vw, mid, w as int) == gathered_input(*vw, *self, w as int));
            // the node was judged not dead before it was marked running;
            // a node is never its own source, so that still holds
            assert forall|c2: int|
                0 <= c2 < vw.edges@.len() && (#[trigger] vw.edges@[c2]).to as int == w as int
                    implies self.statuses@[vw.edges@[c2].from as int] == pre[vw.edges@[c2].from as int]
                by {
                lemma_no_self_edge(*vw, c2);
            }
            lemma_dead_same_sources(*vw, pre, self.statuses@, w as int);
            // every source of the node is terminal: it sits in an earlier,
            // fully scanned level
            assert forall|c: int|
                0 <= c < vw.edges@.len() && (#[trigger] vw.edges@[c]).to as int == w as int
                    implies terminal(self.statuses@[vw.edges@[c].from as int]) by {
                let src = vw.edges@[c].from as int;
                assert((plan.level_of@[src] as int) < plan.level_of@[w as int] as int);
                assert(plan.level_of@[plan.levels@[k]@[idx] as int] as int == k);
                let ksrc = plan.level_of@[src] as int;
                assert(crate::graph::contains_node(plan.levels@[ksrc]@, src));
                let i2 = choose|i2: int|
                    0 <= i2 < plan.levels@[ksrc]@.len() && (#[trigger] plan.levels@[ksrc]@[i2])
                        as int == src;
                assert(terminal(pre[plan.levels@[ksrc]@[i2] as int]));
                assert(src != w as int);
            }
        }
        input
    }

    /// Picks the engine's next move. After a cancellation the run only
    /// finalizes: no node is ever dispatched again. Otherwise the scan
    /// walks the plan's levels in order and, at the first pending node,
    /// either skips it (when every incoming connection is dead) or
    /// dispatches it with its gathered input. When no node is pending the
    /// run finalizes: `Failed` exactly when some node failed under `Stop`,
    /// `Success` otherwise.
    #[verifier::rlimit(100)]
    #[verifier::spinoff_prover]
    pub fn next(&mut self, vw: &ValidatedWorkflow, plan: &ExecutionPlan) -> (r: NextStep)
        requires
            vw.wf(),
            plan.matches(*vw),
            state_wf(*vw, *old(self)),
            no_running(old(self).statuses@),
        ensures
            state_wf(*vw, *final(self)),
            final(self).attempts == old(self).attempts,
            final(self).outputs == old(self).outputs,
            final(self).errors == old(self).errors,
            final(self).durations == old(self).durations,
            final(self).trigger == old(self).trigger,
            final(self).canceled == old(self).canceled,
            forall|v: int|
                0 <= v < vw.def.nodes@.len() && final(self).statuses@[v] != old(self).statuses@[v] ==> old(self).statuses@[v] == NodeState::Pending && (
                (final(self).statuses@[v] == NodeState::Skipped && node_dead(
                    *vw,
                    final(self).statuses@,
                    v,
                )) || final(self).statuses@[v] == NodeState::Running),
            match r {
                NextStep::Dispatch { node, input } => {
                    &&& !old(self).canceled
                    &&& (node as int) < vw.def.nodes@.len()
                    &&& old(self).statuses@[node as int] == NodeState::Pending
                    &&& final(self).statuses@[node as int] == NodeState::Running
                    &&& forall|v: int|
                        0 <= v < vw.def.nodes@.len() && v != node as int && final(self).statuses@[v] != old(self).statuses@[v] ==> final(self).statuses@[v]
                            == NodeState::Skipped
                    &&& !node_dead(*vw, final(self).statuses@, node as int)
                    &&& forall|c: int|
                        0 <= c < vw.edges@.len() && (#[trigger] vw.edges@[c]).to as int
                            == node as int ==> terminal(
                            final(self).statuses@[vw.edges@[c].from as int],
                        )
                    &&& forall|v: int|
                        0 <= v < vw.def.nodes@.len() && ((#[trigger] plan.level_of@[v]) as int)
                            < plan.level_of@[node as int] as int ==> terminal(
                            final(self).statuses@[v],
                        )
                    &&& items_at(input@) == gathered_input(*vw, *final(self), node as int)
                    &&& items_at(final(self).inputs@[node as int]@) == items_at(input@)
                    &&& forall|v: int|
                        0 <= v < vw.def.nodes@.len() && v != node as int ==> final(self).inputs@[v] == old(self).inputs@[v]
                },
                NextStep::Done { status } => {
                    &&& final(self).inputs == old(self).inputs
                    &&& (status == RunStatus::Canceled <==> old(self).canceled)
                    &&& (old(self).canceled ==> *final(self) == *old(self))
                    &&& (!old(self).canceled ==> all_terminal(final(self).statuses@))
                    &&& (!old(self).canceled ==> (status == RunStatus::Failed
                        <==> some_stop_failed(*vw, final(self).statuses@)))
                    &&& (!old(self).canceled ==> (status == RunStatus::Success
                        <==> !some_stop_failed(*vw, final(self).statuses@)))
                },
            },
    {
        let n = vw.def.nodes.len();
        if self.canceled {
            return NextStep::Done { status: RunStatus::Canceled };
        }
        let mut k: usize = 0;
        while k < plan.levels.len()
            invariant
                0 <= k <= plan.levels@.len(),
                vw.wf(),
                plan.matches(*vw),
                n == vw.def.nodes@.len(),
                state_wf(*vw, *self),
                state_wf(*vw, *old(self)),
                no_running(self.statuses@),
                !self.canceled,
                self.attempts == old(self).attempts,
                self.outputs == old(self).outputs,
                self.errors == old(self).errors,
                self.durations == old(self).durations,
                self.trigger == old(self).trigger,
                self.canceled == old(self).canceled,
                self.inputs == old(self).inputs,
                forall|v: int|
                    0 <= v < n && self.statuses@[v] != old(self).statuses@[v] ==> old(self).statuses@[v] == NodeState::Pending && self.statuses@[v] == NodeState::Skipped
                        && node_dead(*vw, self.statuses@, v),
                forall|k2: int, i2: int|
                    0 <= k2 < k && 0 <= i2 < plan.levels@[k2]@.len() ==> terminal(
                        self.statuses@[(#[trigger] plan.levels@[k2]@[i2]) as int],
                    ),
            decreases plan.levels@.len() - k,
        {
            let level_len = plan.levels[k].len();
            let mut idx: usize = 0;
            while idx < level_len
                invariant
                    0 <= idx <= level_len,
                    0 <= k < plan.levels@.len(),
                    level_len == plan.levels@[k as int]@.len(),
                    vw.wf(),
                    plan.matches(*vw),
                    n == vw.def.nodes@.len(),
                    state_wf(*vw, *self),
                    state_wf(*vw, *old(self)),
                    no_running(self.statuses@),
                    !self.canceled,
                    self.attempts == old(self).attempts,
                    self.outputs == old(self).outputs,
                    self.errors == old(self).errors,
                    self.durations == old(self).durations,
                    self.trigger == old(self).trigger,
                    self.canceled == old(self).canceled,
                    self.inputs == old(self).inputs,
                    forall|v: int|
                        0 <= v < n && self.statuses@[v] != old(self).statuses@[v] ==> old(self).statuses@[v] == NodeState::Pending && self.statuses@[v]
                            == NodeState::Skipped && node_dead(*vw, self.statuses@, v),
                    forall|k2: int, i2: int|
                        0 <= k2 < k && 0 <= i2 < plan.levels@[k2]@.len() ==> terminal(
                            self.statuses@[(#[trigger] plan.levels@[k2]@[i2]) as int],
                        ),
                    forall|i2: int|
                        0 <= i2 < idx ==> terminal(
                            self.statuses@[(#[trigger] plan.levels@[k as int]@[i2]) as int],
                        ),
                decreases level_len - idx,
            {
                let w = plan.levels[k][idx];
                proof {
                    assert(0 <= k < plan.levels@.len() && 0 <= idx < plan.levels@[k as int]@.len());
                    assert((plan.levels@[k as int]@[idx as int]) < n);
                }
                let ghost pre = self.statuses@;
                let st = self.statuses[w];
                match st {
                    NodeState::Pending => {
                        if self.is_dead(vw, w) {
                            self.statuses.set(w, NodeState::Skipped);
                            proof {
                                assert forall|v: int|
                                    0 <= v < n && self.statuses@[v] != old(self).statuses@[v]
                                        implies old(self).statuses@[v] == NodeState::Pending
                                        && self.statuses@[v] == NodeState::Skipped && node_dead(
                                    *vw,
                                    self.statuses@,
                                    v,
                                ) by {
                                    assert(node_dead(*vw, pre, v));
                                    lemma_dead_stable(*vw, pre, self.statuses@, v);
                                }
                            }
                        } else {
                            let input = self.dispatch_at(
                                vw,
                                plan,
                                w,
                                Ghost(k as int),
                                Ghost(idx as int),
                            );
                            proof {
                                assert(plan.level_of@[w as int] as int == k as int);
                                assert forall|v: int|
                                    0 <= v < n && self.statuses@[v] != old(self).statuses@[v] && v
                                        != w as int implies (old(self).statuses@[v]
                                        == NodeState::Pending && self.statuses@[v]
                                        == NodeState::Skipped && node_dead(
                                    *vw,
                                    self.statuses@,
                                    v,
                                )) by {
                                    assert(self.statuses@[v] == pre[v]);
                                    assert(node_dead(*vw, pre, v));
                                    lemma_dead_stable(*vw, pre, self.statuses@, v);
                                }
                            }
                            return NextStep::Dispatch { node: w, input };
                        }
                    },
                    _ => {
                        proof {
                            assert(terminal(self.statuses@[w as int]));
                        }
                    },
                }
                idx += 1;
            }
            k += 1;
        }
        proof {
            assert forall|v: int| 0 <= v < n implies terminal(#[trigger] self.statuses@[v]) by {
                let kv = plan.level_of@[v] as int;
                assert((plan.level_of@[v] as int) < plan.levels@.len());
                assert(crate::graph::contains_node(plan.levels@[kv]@, v));
                let i2 = choose|i2: int|
                    0 <= i2 < plan.levels@[kv]@.len() && (#[trigger] plan.levels@[kv]@[i2]) as int
                        == v;
                assert(terminal(self.statuses@[plan.levels@[kv]@[i2] as int]));
            }
        }
        let failed = self.any_stop_failed(vw);
        if failed {
            NextStep::Done { status: RunStatus::Failed }
        } else {
            NextStep::Done { status: RunStatus::Success }
        }
    }

    /// Records the outcome of one attempt of a running node. A success
    /// stores the returned output slots and the node succeeds. A failure
    /// is retried while attempts remain and the run is not canceled;
    /// otherwise the node fails and its `onError` policy governs what its
    /// connections carry from now on.
    pub fn complete(
        &mut self,
        vw: &ValidatedWorkflow,
        node: usize,
        outcome: Result<Vec<Vec<Item>>, String>,
        duration_ms: u64,
    )
        requires
            vw.wf(),
            state_wf(*vw, *old(self)),
            (node as int) < vw.def.nodes@.len(),
            old(self).statuses@[node as int] == NodeState::Running,
            (old(self).attempts@[node as int] as nat) < retry_limit(
                vw.def.nodes@[node as int].retry,
            ),
        ensures
            state_wf(*vw, *final(self)),
            final(self).inputs == old(self).inputs,
            final(self).trigger == old(self).trigger,
            final(self).canceled == old(self).canceled,
            final(self).attempts@ == old(self).attempts@.update(
                node as int,
                (old(self).attempts@[node as int] + 1) as u32,
            ),
            forall|v: int|
                0 <= v < vw.def.nodes@.len() && v != node as int ==> final(self).statuses@[v]
                    == old(self).statuses@[v] && final(self).outputs@[v] == old(self).outputs@[v]
                    && final(self).errors@[v] == old(self).errors@[v] && final(self).durations@[v] == old(self).durations@[v],
            final(self).durations@[node as int] == duration_ms,
            (
                final(self).statuses@[node as int],
                final(self).attempts@[node as int] as nat,
            ) == after_attempt(
                vw.def.nodes@[node as int].retry,
                old(self).attempts@[node as int] as nat,
                outcome is Ok,
                old(self).canceled,
            ),
            match outcome {
                Ok(outs) => {
                    &&& final(self).statuses@[node as int] == NodeState::Succeeded
                    &&& final(self).outputs@[node as int] == outs
                    &&& final(self).errors@[node as int] is None
                },
                Err(msg) => {
                    &&& final(self).errors@[node as int] == Option::Some(msg)
                    &&& final(self).outputs@[node as int] == old(self).outputs@[node as int]
                    &&& (if !old(self).canceled && ((old(self).attempts@[node as int] + 1) as nat)
                        < retry_limit(vw.def.nodes@[node as int].retry) {
                        final(self).statuses@[node as int] == NodeState::Pending
                    } else {
                        final(self).statuses@[node as int] == NodeState::Failed
                    })
                },
            },
    {
        let prev = self.attempts[node];
        self.attempts.set(node, prev + 1);
        self.durations.set(node, duration_ms);
        match outcome {
            Ok(outs) => {
                self.statuses.set(node, NodeState::Succeeded);
                self.outputs.set(node, outs);
                self.errors.set(node, None);
            },
            Err(msg) => {
                self.errors.set(node, Some(msg));
                let limit = if vw.def.nodes[node].retry.max_attempts >= 1 {
                    vw.def.nodes[node].retry.max_attempts
                } else {
                    1
                };
                if !self.canceled && prev + 1 < limit {
                    self.statuses.set(node, NodeState::Pending);
                } else {
                    self.statuses.set(node, NodeState::Failed);
                }
            },
        }
    }
}

/// The delay before the next attempt, after `attempt` completed attempts:
/// the base delay doubled once per completed attempt, capped at the
/// policy's maximum.
pub open spec fn backoff_spec(policy: RetryPolicy, attempt: nat) -> u64
    decreases attempt,
{
    if attempt == 0 {
        if policy.base_delay_ms > policy.max_delay_ms {
            policy.max_delay_ms
        } else {
            policy.base_delay_ms
        }
    } else {
        let prev = backoff_spec(policy, (attempt - 1) as nat);
        let doubled: u64 = if prev as int * 2 > u64::MAX as int {
            u64::MAX
        } else {
            (prev as int * 2) as u64
        };
        if doubled > policy.max_delay_ms {
            policy.max_delay_ms
        } else {
            doubled
        }
    }
}

/// Computes the backoff delay before the next attempt: exponential in the
/// number of completed attempts, capped at the policy's maximum delay.
pub fn backoff_delay(policy: &RetryPolicy, attempt: u32) -> (r: u64)
    ensures
        r == backoff_spec(*policy, attempt as nat),
        r <= policy.max_delay_ms,
{
    let mut d: u64 = if policy.base_delay_ms > policy.max_delay_ms {
        policy.max_delay_ms
    } else {
        policy.base_delay_ms
    };
    let mut i: u32 = 0;
    while i < attempt
        invariant
            0 <= i <= attempt,
            d == backoff_spec(*policy, i as nat),
            d <= policy.max_delay_ms,
        decreases attempt - i,
    {
        let doubled: u64 = if d <= u64::MAX / 2 {
            d * 2
        } else {
            u64::MAX
        };
        d = if doubled > policy.max_delay_ms {
            policy.max_delay_ms
        } else {
            doubled
        };
        i += 1;
    }
    d
}

/// One node's record in a finished or in-flight execution.
pub struct NodeRunResult {
    pub status: NodeState,
    pub outputs: Vec<Vec<Item>>,
    pub error: Option<String>,
    pub attempts: u32,
    pub duration_ms: u64,
}

/// One run of a workflow, from trigger to terminal status.
pub struct Execution {
    pub id: String,
    pub workflow_id: String,
    pub status: RunStatus,
    pub started_at: u64,
    pub finished_at: Option<u64>,
    pub results: Vec<NodeRunResult>,
}

/// The per-node statuses recorded in a result list.
pub open spec fn result_statuses(rs: Seq<NodeRunResult>) -> Seq<NodeState> {
    rs.map_values(|nr: NodeRunResult| nr.status)
}

/// A final state the engine can actually leave behind: skipped nodes are
/// exactly blocked ones, and no node that ran was blocked.
pub open spec fn run_consistent(vw: ValidatedWorkflow, statuses: Seq<NodeState>) -> bool {
    &&& statuses.len() == vw.def.nodes@.len()
    &&& forall|v: int|
        0 <= v < statuses.len() && statuses[v] == NodeState::Skipped ==> node_dead(
            vw,
            statuses,
            v,
        )
    &&& forall|v: int|
        0 <= v < statuses.len() && (statuses[v] == NodeState::Succeeded || statuses[v]
            == NodeState::Failed || statuses[v] == NodeState::Running) ==> !node_dead(
            vw,
            statuses,
            v,
        )
}

/// What the run driver keeps true between engine steps.
pub open spec fn driver_inv(vw: ValidatedWorkflow, s: RunState) -> bool {
    &&& state_wf(vw, s)
    &&& run_consistent(vw, s.statuses@)
    &&& forall|v: int|
        0 <= v < s.statuses@.len() && s.statuses@[v] == NodeState::Pending ==> (
        s.attempts@[v] as nat) < retry_limit(vw.def.nodes@[v].retry)
    &&& forall|v: int|
        0 <= v < s.statuses@.len() ==> (s.attempts@[v] as nat) <= retry_limit(
            vw.def.nodes@[v].retry,
        )
    &&& forall|c: int|
        0 <= c < vw.edges@.len() && ((s.statuses@[(#[trigger] vw.edges@[c]).to as int]
            == NodeState::Succeeded || s.statuses@[vw.edges@[c].to as int] == NodeState::Failed
            || s.statuses@[vw.edges@[c].to as int] == NodeState::Running)) ==> terminal(
            s.statuses@[vw.edges@[c].from as int],
        )
    &&& forall|v: int|
        0 <= v < s.statuses@.len() && s.statuses@[v] != NodeState::Succeeded ==> (
        #[trigger] s.outputs@[v])@.len() == 0
}

/// The total attempts still allowed across the first `v` nodes: the run
/// driver's termination measure.
pub open spec fn attempts_left(vw: ValidatedWorkflow, attempts: Seq<u32>, v: int) -> int
    decreases v,
{
    if v <= 0 {
        0
    } else {
        attempts_left(vw, attempts, v - 1) + (retry_limit(vw.def.nodes@[v - 1].retry)
            - attempts[v - 1])
    }
}

proof fn lemma_attempts_left_pos(vw: ValidatedWorkflow, attempts: Seq<u32>, v: int)
    requires
        0 <= v <= attempts.len(),
        attempts.len() == vw.def.nodes@.len(),
        forall|u: int|
            0 <= u < attempts.len() ==> (attempts[u] as nat) <= retry_limit(
                vw.def.nodes@[u].retry,
            ),
    ensures
        attempts_left(vw, attempts, v) >= 0,
    decreases v,
{
    if v > 0 {
        lemma_attempts_left_pos(vw, attempts, v - 1);
        assert((attempts[v - 1] as nat) <= retry_limit(vw.def.nodes@[v - 1].retry));
    }
}

proof fn lemma_attempts_left_bump(
    vw: ValidatedWorkflow,
    a1: Seq<u32>,
    a2: Seq<u32>,
    node: int,
    v: int,
)
    requires
        a1.len() == a2.len(),
        0 <= node < a1.len(),
        a2[node] == a1[node] + 1,
        forall|u: int| 0 <= u < a1.len() && u != node ==> a1[u] == a2[u],
        0 <= v <= a1.len(),
    ensures
        attempts_left(vw, a2, v) == attempts_left(vw, a1, v) - (if node < v {
            1int
        } else {
            0int
        }),
    decreases v,
{
    if v > 0 {
        lemma_attempts_left_bump(vw, a1, a2, node, v - 1);
    }
}

/// Why a run could not start.
pub enum EngineError {
    /// Some node's declared type has no registered capability; fatal to
    /// the run, which aborts before anything is scheduled.
    UnknownNodeType { node_type: String },
}

/// Relies on std::time::SystemTime::now: the system clock's reading, as
/// milliseconds since the Unix epoch.
#[verifier::external_body]
fn now_ms() -> u64 {
    match std::time::SystemTime::now().duration_since(std::time::UNIX_EPOCH) {
        Ok(d) => d.as_millis() as u64,
        Err(_) => 0,
    }
}

/// Turns a finished run state into the execution record.
fn build_execution(
    vw: &ValidatedWorkflow,
    state: RunState,
    status: RunStatus,
    execution_id: &String,
    started_at: u64,
    finished_at: u64,
) -> (r: Execution)
    requires
        vw.wf(),
        state_wf(*vw, state),
    ensures
        r.id@ == execution_id@,
        r.workflow_id@ == vw.def.id@,
        r.status == status,
        r.started_at == started_at,
        r.finished_at == Option::Some(finished_at),
        r.results@.len() == vw.def.nodes@.len(),
        result_statuses(r.results@) =~= state.statuses@,
        forall|v: int|
            0 <= v < vw.def.nodes@.len() ==> (#[trigger] r.results@[v]).attempts
                == state.attempts@[v] && r.results@[v].error == state.errors@[v]
                && r.results@[v].outputs == state.outputs@[v] && r.results@[v].duration_ms
                == state.durations@[v] && r.results@[v].status == state.statuses@[v],
{
    let n = vw.def.nodes.len();
    let mut results: Vec<NodeRunResult> = Vec::new();
    let mut outputs_rest = state.outputs;
    let mut errors_rest = state.errors;
    let ghost outputs_all = outputs_rest@;
    let ghost errors_all = errors_rest@;
    let mut v: usize = 0;
    while v < n
        invariant
            0 <= v <= n,
            n == vw.def.nodes@.len(),
            state_wf(*vw, state),
            results@.len() == v,
            outputs_rest@ =~= outputs_all.skip(v as int),
            errors_rest@ =~= errors_all.skip(v as int),
            outputs_all == state.outputs@,
            errors_all == state.errors@,
            forall|u: int|
                0 <= u < v ==> (#[trigger] results@[u]).attempts == state.attempts@[u]
                    && results@[u].error == state.errors@[u] && results@[u].outputs
                    == state.outputs@[u] && results@[u].duration_ms == state.durations@[u]
                    && results@[u].status == state.statuses@[u],
        decreases n - v,
    {
        let outs = outputs_rest.remove(0);
        let err = errors_rest.remove(0);
        proof {
            assert(outputs_all.skip(v as int)[0] == state.outputs@[v as int]);
            assert(errors_all.skip(v as int)[0] == state.errors@[v as int]);
            assert(outputs_rest@ =~= outputs_all.skip(v + 1));
            assert(errors_rest@ =~= errors_all.skip(v + 1));
        }
        results.push(
            NodeRunResult {
                status: state.statuses[v],
                outputs: outs,
                error: err,
                attempts: state.attempts[v],
                duration_ms: state.durations[v],
            },
        );
        v += 1;
    }
    Execution {
        id: execution_id.clone(),
        workflow_id: vw.def.id.clone(),
        status,
        started_at,
        finished_at: Some(finished_at),
        results,
    }
}

/// Drives one run to completion: resolves every node's capability up
/// front (a registry miss aborts before anything is scheduled), then
/// walks the plan, dispatching each node the engine picks and reporting
/// the outcome back, polling the cancellation token between dispatches.
/// The record it returns is consistent: skipped nodes are exactly those
/// whose every incoming connection died, the run fails exactly when a
/// node failed under `Stop`, and cancellation yields `Canceled`.
#[verifier::rlimit(80)]
pub fn run_workflow<C: Capability, T: CancelToken>(
    vw: &ValidatedWorkflow,
    plan: &ExecutionPlan,
    registry: &NodeRegistry<C>,
    token: &T,
    execution_id: &String,
    trigger: Vec<Item>,
) -> (r: Result<Execution, EngineError>)
    requires
        vw.wf(),
        plan.matches(*vw),
    ensures
        match r {
            Ok(exec) => {
                &&& exec.id@ == execution_id@
                &&& exec.workflow_id@ == vw.def.id@
                &&& exec.results@.len() == vw.def.nodes@.len()
                &&& (exec.status == RunStatus::Success || exec.status == RunStatus::Failed
                    || exec.status == RunStatus::Canceled)
                &&& run_consistent(*vw, result_statuses(exec.results@))
                &&& (exec.status != RunStatus::Canceled ==> all_terminal(
                    result_statuses(exec.results@),
                ))
                &&& (exec.status != RunStatus::Canceled ==> (exec.status == RunStatus::Failed
                    <==> some_stop_failed(*vw, result_statuses(exec.results@))))
                &&& forall|v: int|
                    0 <= v < vw.def.nodes@.len() ==> ((#[trigger] exec.results@[v]).attempts
                        as nat) <= retry_limit(vw.def.nodes@[v].retry)
                &&& forall|v: int|
                    0 <= v < vw.def.nodes@.len() && (#[trigger] exec.results@[v]).status
                        != NodeState::Succeeded ==> exec.results@[v].outputs@.len() == 0
                &&& forall|v: int|
                    0 <= v < vw.def.nodes@.len() ==> registry_has(
                        registry.entries@,
                        (#[trigger] vw.def.nodes@[v]).node_type@,
                    )
            },
            Err(e) => match e {
                EngineError::UnknownNodeType { node_type } => exists|v: int|
                    0 <= v < vw.def.nodes@.len() && (#[trigger] vw.def.nodes@[v]).node_type@
                        == node_type@ && !registry_has(registry.entries@, node_type@),
            },
        },
{
    let n = vw.def.nodes.len();
    let mut caps: Vec<&C> = Vec::new();
    let mut v: usize = 0;
    while v < n
        invariant
            0 <= v <= n,
            n == vw.def.nodes@.len(),
            caps@.len() == v,
            forall|u: int|
                0 <= u < v ==> registry_has(
                    registry.entries@,
                    (#[trigger] vw.def.nodes@[u]).node_type@,
                ),
        decreases n - v,
    {
        match registry.resolve(&vw.def.nodes[v].node_type) {
            Option::Some(c) => {
                caps.push(c);
            },
            Option::None => {
                return Err(
                    EngineError::UnknownNodeType { node_type: vw.def.nodes[v].node_type.clone() },
                );
            },
        }
        v += 1;
    }
    let started_at = now_ms();
    let mut state = RunState::begin(vw, trigger);
    proof {
        reveal(node_dead);
        assert(driver_inv(*vw, state));
        assert(no_running(state.statuses@));
    }
    loop
        invariant
            vw.wf(),
            plan.matches(*vw),
            n == vw.def.nodes@.len(),
            caps@.len() == n,
            driver_inv(*vw, state),
            no_running(state.statuses@),
            forall|u: int|
                0 <= u < n ==> registry_has(
                    registry.entries@,
                    (#[trigger] vw.def.nodes@[u]).node_type@,
                ),
        decreases attempts_left(*vw, state.attempts@, n as int),
    {
        proof {
            lemma_attempts_left_pos(*vw, state.attempts@, n as int);
        }
        if token.is_canceled() {
            state.cancel();
        }
        let ghost before = state;
        let step = state.next(vw, plan);
        proof {
            // skipped nodes stay exactly the blocked ones, and nothing
            // that ran became blocked: the scan changed only pending nodes
            assert forall|v2: int|
                0 <= v2 < n && state.statuses@[v2] == NodeState::Skipped implies node_dead(
                *vw,
                state.statuses@,
                v2,
            ) by {
                if before.statuses@[v2] == state.statuses@[v2] {
                    assert(node_dead(*vw, before.statuses@, v2));
                    lemma_dead_stable(*vw, before.statuses@, state.statuses@, v2);
                }
            }
            assert forall|v2: int|
                0 <= v2 < n && (state.statuses@[v2] == NodeState::Succeeded
                    || state.statuses@[v2] == NodeState::Failed || state.statuses@[v2]
                    == NodeState::Running) && before.statuses@[v2] == state.statuses@[v2] implies
                !node_dead(*vw, state.statuses@, v2) by {
                assert(!node_dead(*vw, before.statuses@, v2));
                assert forall|c: int|
                    0 <= c < vw.edges@.len() && (#[trigger] vw.edges@[c]).to as int == v2 implies
                    state.statuses@[vw.edges@[c].from as int] == before.statuses@[vw.edges@[c].from as int]
                    by {
                    assert(terminal(before.statuses@[vw.edges@[c].from as int]));
                }
                lemma_dead_same_sources(*vw, before.statuses@, state.statuses@, v2);
            }
        }
        match step {
            NextStep::Done { status } => {
                let finished_at = now_ms();
                proof {
                    assert(run_consistent(*vw, state.statuses@));
                }
                let exec = build_execution(vw, state, status, execution_id, started_at, finished_at);
                return Ok(exec);
            },
            NextStep::Dispatch { node, input } => {
                let context = RunContext {
                    execution_id: execution_id.clone(),
                    workflow_id: vw.def.id.clone(),
                    node_id: vw.def.nodes[node].id.clone(),
                    canceled: false,
                };
                let t0 = now_ms();
                let cap = caps[node];
                let outcome = cap.execute(&input, &vw.def.nodes[node].parameters, &context);
                let t1 = now_ms();
                let duration = if t1 >= t0 {
                    t1 - t0
                } else {
                    0
                };
                let ghost mid = state;
                let ghost a1 = state.attempts@;
                state.complete(vw, node, outcome, duration);
                proof {
                    lemma_attempts_left_bump(*vw, a1, state.attempts@, node as int, n as int);
                    lemma_attempts_left_pos(*vw, state.attempts@, n as int);
                    // the one resolved node: its sources are terminal and
                    // unchanged, so it is no more blocked than when it ran
                    assert forall|c: int|
                        0 <= c < vw.edges@.len() && (#[trigger] vw.edges@[c]).to as int
                            == node as int implies state.statuses@[vw.edges@[c].from as int]
                        == mid.statuses@[vw.edges@[c].from as int] by {
                        assert(terminal(mid.statuses@[vw.edges@[c].from as int]));
                    }
                    lemma_dead_same_sources(*vw, mid.statuses@, state.statuses@, node as int);
                    // every other node's sources are unchanged: the resolved
                    // node was running, and no running node feeds a resolved
                    // or running one
                    assert forall|v2: int|
                        0 <= v2 < n && v2 != node as int && (state.statuses@[v2]
                            == NodeState::Skipped || state.statuses@[v2] == NodeState::Succeeded
                            || state.statuses@[v2] == NodeState::Failed || state.statuses@[v2]
                            == NodeState::Running) implies node_dead(*vw, state.statuses@, v2)
                        == node_dead(*vw, mid.statuses@, v2) by {
                        assert forall|c: int|
                            0 <= c < vw.edges@.len() && (#[trigger] vw.edges@[c]).to as int == v2
                                implies state.statuses@[vw.edges@[c].from as int]
                            == mid.statuses@[vw.edges@[c].from as int] by {
                            if vw.edges@[c].from as int == node as int {
                                if state.statuses@[v2] == NodeState::Skipped {
                                    assert(node_dead(*vw, mid.statuses@, v2));
                                    assert(dead_source(*vw, mid.statuses@, vw.edges@[c])) by {
                                        reveal(node_dead);
                                    }
                                    assert(mid.statuses@[node as int] == NodeState::Running);
                                    assert(false);
                                } else {
                                    assert(terminal(mid.statuses@[vw.edges@[c].from as int]));
                                    assert(false);
                                }
                            }
                        }
                        lemma_dead_same_sources(*vw, mid.statuses@, state.statuses@, v2);
                    }
                    assert(driver_inv(*vw, state));
                    assert(no_running(state.statuses@));
                }
            },
        }
    }
}

/// A walk from some entry node along connections to `v`.
pub open spec fn is_entry_path(vw: ValidatedWorkflow, path: Seq<usize>, v: int) -> bool {
    &&& path.len() >= 1
    &&& (path[path.len() - 1] as int) == v
    &&& !has_incoming(vw, path[0] as int)
    &&& forall|t: int|
        0 <= t < path.len() - 1 ==> crate::graph::has_edge(
            vw.edges@,
            (#[trigger] path[t]) as int,
            path[t + 1] as int,
        )
}

/// Every walk from an entry node to `v` passes through `x`: `v` is
/// reachable only through `x`.
pub open spec fn only_through(vw: ValidatedWorkflow, x: int, v: int) -> bool {
    forall|path: Seq<usize>|
        is_entry_path(vw, path, v) ==> crate::graph::contains_node(path, x)
}

/// When a node fails under the `Stop` policy, every node reachable only
/// through it ends the run skipped; and since some node stop-failed, the
/// engine's final-status rule makes the whole run `Failed`.
pub proof fn lemma_stop_skips_dependents(
    vw: ValidatedWorkflow,
    lvl: Seq<usize>,
    statuses: Seq<NodeState>,
    x: usize,
    v: usize,
)
    requires
        vw.wf(),
        crate::graph::assign_ok(vw.def.nodes@.len() as int, vw.edges@, lvl),
        run_consistent(vw, statuses),
        all_terminal(statuses),
        (x as int) < statuses.len(),
        stop_failed(vw, statuses, x as int),
        (v as int) < statuses.len(),
        v != x,
        only_through(vw, x as int, v as int),
    ensures
        statuses[v as int] == NodeState::Skipped,
        some_stop_failed(vw, statuses),
    decreases lvl[v as int],
{
    assert(some_stop_failed(vw, statuses)) by {
        assert(stop_failed(vw, statuses, x as int));
    }
    if statuses[v as int] != NodeState::Skipped {
        assert(statuses[v as int] == NodeState::Succeeded || statuses[v as int]
            == NodeState::Failed);
        assert(!node_dead(vw, statuses, v as int));
        if !has_incoming(vw, v as int) {
            let path = Seq::<usize>::empty().push(v);
            assert(path[0] as int == v as int);
            assert(is_entry_path(vw, path, v as int));
            assert(crate::graph::contains_node(path, x as int));
            let t = choose|t: int|
                0 <= t < path.len() && (#[trigger] path[t]) as int == x as int;
            assert(false);
        } else {
            reveal(node_dead);
            let c = choose|c: int|
                0 <= c < vw.edges@.len() && (#[trigger] vw.edges@[c]).to as int == v as int
                    && !dead_source(vw, statuses, vw.edges@[c]);
            let src = vw.edges@[c].from;
            assert(statuses[src as int] != NodeState::Skipped);
            assert(!(statuses[src as int] == NodeState::Failed && vw.def.nodes@[src as int].on_error
                == OnErrorPolicy::Stop));
            assert(src != x);
            assert(only_through(vw, x as int, src as int)) by {
                if !only_through(vw, x as int, src as int) {
                    let p = choose|p: Seq<usize>|
                        is_entry_path(vw, p, src as int) && !crate::graph::contains_node(
                            p,
                            x as int,
                        );
                    let p2 = p.push(v);
                    assert(crate::graph::has_edge(vw.edges@, src as int, v as int)) by {
                        assert(vw.edges@[c].from as int == src as int && vw.edges@[c].to as int
                            == v as int);
                    }
                    assert forall|t: int|
                        0 <= t < p2.len() - 1 implies crate::graph::has_edge(
                        vw.edges@,
                        (#[trigger] p2[t]) as int,
                        p2[t + 1] as int,
                    ) by {
                        if t < p.len() - 1 {
                            assert(p2[t] == p[t] && p2[t + 1] == p[t + 1]);
                        } else {
                            assert(p2[t] == p[p.len() - 1] && p2[t + 1] as int == v);
                        }
                    }
                    assert(is_entry_path(vw, p2, v as int));
                    assert(crate::graph::contains_node(p2, x as int));
                    let t = choose|t: int|
                        0 <= t < p2.len() && (#[trigger] p2[t]) as int == x as int;
                    if t < p.len() {
                        assert(p[t] == p2[t]);
                        assert(crate::graph::contains_node(p, x as int));
                        assert(false);
                    } else {
                        assert(p2[t] as int == v as int);
                        assert(false);
                    }
                }
            }
            assert((lvl[src as int] as int) < lvl[v as int] as int);
            lemma_stop_skips_dependents(vw, lvl, statuses, x, src);
            assert(false);
        }
    }
}

} // verus!
