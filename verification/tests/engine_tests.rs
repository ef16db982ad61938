use std::cell::Cell;

use flowrun::engine::{run_workflow, NodeState, RunStatus};
use flowrun::model::{
    load, Connection, Item, NodeSpec, OnErrorPolicy, RetryPolicy, WorkflowDefinition,
};
use flowrun::plan::plan;
use flowrun::registry::{Capability, CancelToken, NeverCancel, NodeRegistry, RunContext};

fn item(val: &str) -> Item {
    Item {
        fields: vec![(String::from("k"), String::from(val))],
        binary_ref: None,
    }
}

fn item_val(i: &Item) -> String {
    i.fields[0].1.clone()
}

fn node(id: &str, node_type: &str, on_error: OnErrorPolicy, max_attempts: u32) -> NodeSpec {
    NodeSpec {
        id: String::from(id),
        node_type: String::from(node_type),
        parameters: Vec::new(),
        on_error,
        retry: RetryPolicy {
            max_attempts,
            base_delay_ms: 10,
            max_delay_ms: 1000,
        },
    }
}

fn conn(from: &str, to: &str) -> Connection {
    Connection {
        from_node: String::from(from),
        from_output: 0,
        to_node: String::from(to),
        to_input: 0,
    }
}

enum TestCap {
    /// Emits the given values as one output slot, ignoring input.
    Emit(Vec<String>),
    /// Returns its input unchanged as one output slot.
    Echo,
    /// Fails every attempt.
    FailAlways,
    /// Fails the first `fails` attempts, then echoes; counts calls.
    FailThenEcho { fails: u32, calls: Cell<u32> },
    /// Echoes and counts how often it ran.
    CountingEcho { calls: Cell<u32> },
}

impl Capability for TestCap {
    fn execute(
        &self,
        input: &Vec<Item>,
        _parameters: &Vec<(String, String)>,
        _context: &RunContext,
    ) -> Result<Vec<Vec<Item>>, String> {
        match self {
            TestCap::Emit(vals) => {
                let items: Vec<Item> = vals.iter().map(|v| item(v)).collect();
                Ok(vec![items])
            }
            TestCap::Echo => Ok(vec![input.clone()]),
            TestCap::FailAlways => Err(String::from("boom")),
            TestCap::FailThenEcho { fails, calls } => {
                calls.set(calls.get() + 1);
                if calls.get() <= *fails {
                    Err(String::from("flaky"))
                } else {
                    Ok(vec![input.clone()])
                }
            }
            TestCap::CountingEcho { calls } => {
                calls.set(calls.get() + 1);
                Ok(vec![input.clone()])
            }
        }
    }
}

struct AlwaysCancel;

impl CancelToken for AlwaysCancel {
    fn is_canceled(&self) -> bool {
        true
    }
}

#[test]
fn chain_stop_failure_fails_run() {
    // Trigger -> A -> B, A emits three items, B fails its single attempt
    // under Stop: the run fails, A succeeded with three output items, B
    // failed with no output, and the node after B is skipped.
    let def = WorkflowDefinition {
        id: String::from("wf-chain"),
        nodes: vec![
            node("trigger", "emit", OnErrorPolicy::Stop, 1),
            node("a", "emit3", OnErrorPolicy::Stop, 1),
            node("b", "fail", OnErrorPolicy::Stop, 1),
            node("c", "echo", OnErrorPolicy::Stop, 1),
        ],
        connections: vec![conn("trigger", "a"), conn("a", "b"), conn("b", "c")],
    };
    let vw = load(def).ok().expect("definition should validate");
    let p = plan(&vw);
    let mut reg: NodeRegistry<TestCap> = NodeRegistry::new();
    reg.register(String::from("emit"), TestCap::Emit(vec![String::from("t")]));
    reg.register(
        String::from("emit3"),
        TestCap::Emit(vec![
            String::from("one"),
            String::from("two"),
            String::from("three"),
        ]),
    );
    reg.register(String::from("fail"), TestCap::FailAlways);
    reg.register(String::from("echo"), TestCap::Echo);
    let exec = run_workflow(
        &vw,
        &p,
        &reg,
        &NeverCancel,
        &String::from("exec-1"),
        Vec::new(),
    )
    .ok()
    .expect("all node types are registered");
    assert_eq!(exec.status, RunStatus::Failed);
    assert_eq!(exec.results[1].status, NodeState::Succeeded);
    assert_eq!(exec.results[1].outputs[0].len(), 3);
    assert_eq!(exec.results[2].status, NodeState::Failed);
    assert_eq!(exec.results[2].attempts, 1);
    assert!(exec.results[2].outputs.is_empty());
    assert_eq!(exec.results[3].status, NodeState::Skipped);
    assert_eq!(exec.results[3].attempts, 0);
}

#[test]
fn diamond_merges_in_connection_order() {
    // Trigger -> A -> {B, C} -> D: D's input is B's output then C's
    // output, in connection declaration order, regardless of levels.
    let def = WorkflowDefinition {
        id: String::from("wf-diamond"),
        nodes: vec![
            node("trigger", "emit", OnErrorPolicy::Stop, 1),
            node("a", "echo", OnErrorPolicy::Stop, 1),
            node("b", "emitb", OnErrorPolicy::Stop, 1),
            node("c", "emitc", OnErrorPolicy::Stop, 1),
            node("d", "echo", OnErrorPolicy::Stop, 1),
        ],
        connections: vec![
            conn("trigger", "a"),
            conn("a", "b"),
            conn("a", "c"),
            conn("b", "d"),
            conn("c", "d"),
        ],
    };
    let vw = load(def).ok().expect("definition should validate");
    let p = plan(&vw);
    let mut reg: NodeRegistry<TestCap> = NodeRegistry::new();
    reg.register(String::from("emit"), TestCap::Emit(vec![String::from("t")]));
    reg.register(String::from("echo"), TestCap::Echo);
    reg.register(
        String::from("emitb"),
        TestCap::Emit(vec![String::from("b1"), String::from("b2")]),
    );
    reg.register(String::from("emitc"), TestCap::Emit(vec![String::from("c1")]));
    let exec = run_workflow(
        &vw,
        &p,
        &reg,
        &NeverCancel,
        &String::from("exec-2"),
        Vec::new(),
    )
    .ok()
    .expect("all node types are registered");
    assert_eq!(exec.status, RunStatus::Success);
    // D echoed its input: the concatenation invariant is visible in its output
    let d_out = &exec.results[4].outputs[0];
    let vals: Vec<String> = d_out.iter().map(item_val).collect();
    assert_eq!(vals, vec!["b1", "b2", "c1"]);
}

#[test]
fn continue_with_empty_feeds_nothing_downstream() {
    // B fails under ContinueWithEmpty; D still runs and receives only C's
    // items.
    let def = WorkflowDefinition {
        id: String::from("wf-empty"),
        nodes: vec![
            node("trigger", "emit", OnErrorPolicy::Stop, 1),
            node("b", "fail", OnErrorPolicy::ContinueWithEmpty, 1),
            node("c", "emitc", OnErrorPolicy::Stop, 1),
            node("d", "echo", OnErrorPolicy::Stop, 1),
        ],
        connections: vec![
            conn("trigger", "b"),
            conn("trigger", "c"),
            conn("b", "d"),
            conn("c", "d"),
        ],
    };
    let vw = load(def).ok().expect("definition should validate");
    let p = plan(&vw);
    let mut reg: NodeRegistry<TestCap> = NodeRegistry::new();
    reg.register(String::from("emit"), TestCap::Emit(vec![String::from("t")]));
    reg.register(String::from("fail"), TestCap::FailAlways);
    reg.register(String::from("emitc"), TestCap::Emit(vec![String::from("c1")]));
    reg.register(String::from("echo"), TestCap::Echo);
    let exec = run_workflow(
        &vw,
        &p,
        &reg,
        &NeverCancel,
        &String::from("exec-3"),
        Vec::new(),
    )
    .ok()
    .expect("all node types are registered");
    assert_eq!(exec.results[1].status, NodeState::Failed);
    assert_eq!(exec.results[3].status, NodeState::Succeeded);
    let d_vals: Vec<String> = exec.results[3].outputs[0].iter().map(item_val).collect();
    assert_eq!(d_vals, vec!["c1"]);
    assert_eq!(exec.status, RunStatus::Success);
}

#[test]
fn continue_with_input_passes_input_through() {
    // B fails under ContinueWithInput: its own input flows onward.
    let def = WorkflowDefinition {
        id: String::from("wf-passthrough"),
        nodes: vec![
            node("trigger", "emit2", OnErrorPolicy::Stop, 1),
            node("b", "fail", OnErrorPolicy::ContinueWithInput, 1),
            node("d", "echo", OnErrorPolicy::Stop, 1),
        ],
        connections: vec![conn("trigger", "b"), conn("b", "d")],
    };
    let vw = load(def).ok().expect("definition should validate");
    let p = plan(&vw);
    let mut reg: NodeRegistry<TestCap> = NodeRegistry::new();
    reg.register(
        String::from("emit2"),
        TestCap::Emit(vec![String::from("x"), String::from("y")]),
    );
    reg.register(String::from("fail"), TestCap::FailAlways);
    reg.register(String::from("echo"), TestCap::Echo);
    let exec = run_workflow(
        &vw,
        &p,
        &reg,
        &NeverCancel,
        &String::from("exec-4"),
        Vec::new(),
    )
    .ok()
    .expect("all node types are registered");
    let d_vals: Vec<String> = exec.results[2].outputs[0].iter().map(item_val).collect();
    assert_eq!(d_vals, vec!["x", "y"]);
}

#[test]
fn retry_succeeds_on_last_attempt() {
    // The capability fails maxAttempts - 1 times and then succeeds: the
    // node ends succeeded with attempts equal to maxAttempts.
    let def = WorkflowDefinition {
        id: String::from("wf-retry"),
        nodes: vec![
            node("trigger", "emit", OnErrorPolicy::Stop, 1),
            node("flaky", "flaky", OnErrorPolicy::Stop, 3),
        ],
        connections: vec![conn("trigger", "flaky")],
    };
    let vw = load(def).ok().expect("definition should validate");
    let p = plan(&vw);
    let mut reg: NodeRegistry<TestCap> = NodeRegistry::new();
    reg.register(String::from("emit"), TestCap::Emit(vec![String::from("t")]));
    reg.register(
        String::from("flaky"),
        TestCap::FailThenEcho {
            fails: 2,
            calls: Cell::new(0),
        },
    );
    let exec = run_workflow(
        &vw,
        &p,
        &reg,
        &NeverCancel,
        &String::from("exec-5"),
        Vec::new(),
    )
    .ok()
    .expect("all node types are registered");
    assert_eq!(exec.status, RunStatus::Success);
    assert_eq!(exec.results[1].status, NodeState::Succeeded);
    assert_eq!(exec.results[1].attempts, 3);
}

#[test]
fn retry_exhaustion_fails_node() {
    let def = WorkflowDefinition {
        id: String::from("wf-exhaust"),
        nodes: vec![
            node("trigger", "emit", OnErrorPolicy::Stop, 1),
            node("flaky", "fail", OnErrorPolicy::Stop, 2),
        ],
        connections: vec![conn("trigger", "flaky")],
    };
    let vw = load(def).ok().expect("definition should validate");
    let p = plan(&vw);
    let mut reg: NodeRegistry<TestCap> = NodeRegistry::new();
    reg.register(String::from("emit"), TestCap::Emit(vec![String::from("t")]));
    reg.register(String::from("fail"), TestCap::FailAlways);
    let exec = run_workflow(
        &vw,
        &p,
        &reg,
        &NeverCancel,
        &String::from("exec-6"),
        Vec::new(),
    )
    .ok()
    .expect("all node types are registered");
    assert_eq!(exec.status, RunStatus::Failed);
    assert_eq!(exec.results[1].status, NodeState::Failed);
    assert_eq!(exec.results[1].attempts, 2);
    assert_eq!(exec.results[1].error, Some(String::from("boom")));
}

#[test]
fn cancellation_prevents_any_dispatch() {
    // A token canceled before the run starts: the run finalizes as
    // canceled and no capability is ever invoked.
    let def = WorkflowDefinition {
        id: String::from("wf-cancel"),
        nodes: vec![node("trigger", "count", OnErrorPolicy::Stop, 1)],
        connections: Vec::new(),
    };
    let vw = load(def).ok().expect("definition should validate");
    let p = plan(&vw);
    let mut reg: NodeRegistry<TestCap> = NodeRegistry::new();
    reg.register(
        String::from("count"),
        TestCap::CountingEcho {
            calls: Cell::new(0),
        },
    );
    let exec = run_workflow(
        &vw,
        &p,
        &reg,
        &AlwaysCancel,
        &String::from("exec-7"),
        Vec::new(),
    )
    .ok()
    .expect("all node types are registered");
    assert_eq!(exec.status, RunStatus::Canceled);
    assert_eq!(exec.results[0].status, NodeState::Pending);
    match &reg.entries[0].1 {
        TestCap::CountingEcho { calls } => assert_eq!(calls.get(), 0),
        _ => unreachable!(),
    }
}

#[test]
fn unknown_node_type_aborts_before_scheduling() {
    let def = WorkflowDefinition {
        id: String::from("wf-unknown"),
        nodes: vec![node("trigger", "nosuch", OnErrorPolicy::Stop, 1)],
        connections: Vec::new(),
    };
    let vw = load(def).ok().expect("definition should validate");
    let p = plan(&vw);
    let reg: NodeRegistry<TestCap> = NodeRegistry::new();
    let r = run_workflow(
        &vw,
        &p,
        &reg,
        &NeverCancel,
        &String::from("exec-8"),
        Vec::new(),
    );
    assert!(r.is_err());
}

#[test]
fn trigger_payload_seeds_entry_nodes() {
    let def = WorkflowDefinition {
        id: String::from("wf-seed"),
        nodes: vec![node("trigger", "echo", OnErrorPolicy::Stop, 1)],
        connections: Vec::new(),
    };
    let vw = load(def).ok().expect("definition should validate");
    let p = plan(&vw);
    let mut reg: NodeRegistry<TestCap> = NodeRegistry::new();
    reg.register(String::from("echo"), TestCap::Echo);
    let exec = run_workflow(
        &vw,
        &p,
        &reg,
        &NeverCancel,
        &String::from("exec-9"),
        vec![item("hello"), item("world")],
    )
    .ok()
    .expect("all node types are registered");
    let vals: Vec<String> = exec.results[0].outputs[0].iter().map(item_val).collect();
    assert_eq!(vals, vec!["hello", "world"]);
}

#[test]
fn backoff_doubles_and_caps() {
    let policy = RetryPolicy {
        max_attempts: 5,
        base_delay_ms: 100,
        max_delay_ms: 1000,
    };
    assert_eq!(flowrun::engine::backoff_delay(&policy, 0), 100);
    assert_eq!(flowrun::engine::backoff_delay(&policy, 1), 200);
    assert_eq!(flowrun::engine::backoff_delay(&policy, 2), 400);
    assert_eq!(flowrun::engine::backoff_delay(&policy, 3), 800);
    assert_eq!(flowrun::engine::backoff_delay(&policy, 4), 1000);
    assert_eq!(flowrun::engine::backoff_delay(&policy, 10), 1000);
}
