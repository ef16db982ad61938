use flowrun::engine::{Execution, RunStatus};
use flowrun::model::{
    load, NodeSpec, OnErrorPolicy, RetryPolicy, WorkflowDefinition,
};
use flowrun::store::{ExecutionPatch, ExecutionStore, StoreError};
use flowrun::trigger::{on_trigger, payload_to_items, RegisteredWorkflow, TriggerError};

fn exec(id: &str, workflow_id: &str) -> Execution {
    Execution {
        id: String::from(id),
        workflow_id: String::from(workflow_id),
        status: RunStatus::New,
        started_at: 5,
        finished_at: None,
        results: Vec::new(),
    }
}

#[test]
fn create_and_get_round_trip() {
    let mut store = ExecutionStore::new();
    store.create(exec("e1", "wf")).ok().expect("fresh id");
    let got = store.get(&String::from("e1")).ok().expect("stored");
    assert_eq!(got.workflow_id, "wf");
    assert_eq!(got.started_at, 5);
}

#[test]
fn duplicate_ids_are_refused() {
    let mut store = ExecutionStore::new();
    store.create(exec("e1", "wf")).ok().expect("fresh id");
    match store.create(exec("e1", "other")) {
        Err(StoreError::DuplicateId) => {}
        _ => panic!("expected a duplicate id error"),
    }
}

#[test]
fn get_missing_is_not_found() {
    let store = ExecutionStore::new();
    match store.get(&String::from("ghost")) {
        Err(StoreError::NotFound) => {}
        _ => panic!("expected a not-found error"),
    }
}

#[test]
fn update_patches_only_given_fields() {
    let mut store = ExecutionStore::new();
    store.create(exec("e1", "wf")).ok().expect("fresh id");
    store
        .update(
            &String::from("e1"),
            ExecutionPatch {
                status: Some(RunStatus::Success),
                finished_at: Some(99),
            },
        )
        .ok()
        .expect("stored");
    let got = store.get(&String::from("e1")).ok().expect("stored");
    assert_eq!(got.status, RunStatus::Success);
    assert_eq!(got.finished_at, Some(99));
    assert_eq!(got.started_at, 5);
}

#[test]
fn update_missing_is_not_found() {
    let mut store = ExecutionStore::new();
    match store.update(
        &String::from("ghost"),
        ExecutionPatch {
            status: None,
            finished_at: None,
        },
    ) {
        Err(StoreError::NotFound) => {}
        _ => panic!("expected a not-found error"),
    }
}

#[test]
fn list_filters_and_pages() {
    let mut store = ExecutionStore::new();
    store.create(exec("e1", "wf")).ok().expect("fresh id");
    store.create(exec("e2", "other")).ok().expect("fresh id");
    store.create(exec("e3", "wf")).ok().expect("fresh id");
    store.create(exec("e4", "wf")).ok().expect("fresh id");
    let all = store.list(&String::from("wf"), 0, 10);
    assert_eq!(all, vec![0, 2, 3]);
    let page = store.list(&String::from("wf"), 1, 1);
    assert_eq!(page, vec![2]);
}

fn registered(id: &str, enabled: bool) -> RegisteredWorkflow {
    let def = WorkflowDefinition {
        id: String::from(id),
        nodes: vec![NodeSpec {
            id: String::from("t"),
            node_type: String::from("noop"),
            parameters: Vec::new(),
            on_error: OnErrorPolicy::Stop,
            retry: RetryPolicy {
                max_attempts: 1,
                base_delay_ms: 0,
                max_delay_ms: 0,
            },
        }],
        connections: Vec::new(),
    };
    let workflow = load(def).ok().expect("definition should validate");
    let plan = flowrun::plan::plan(&workflow);
    RegisteredWorkflow {
        workflow,
        plan,
        enabled,
    }
}

#[test]
fn trigger_creates_one_new_execution() {
    let workflows = vec![registered("wf", true)];
    let e = on_trigger(&workflows, &String::from("wf"), 42)
        .ok()
        .expect("enabled workflow");
    assert_eq!(e.workflow_id, "wf");
    assert_eq!(e.status, RunStatus::New);
    assert_eq!(e.started_at, 42);
    assert_eq!(e.id.len(), 41);
    assert!(e.id.starts_with("exec-"));
}

#[test]
fn trigger_unknown_workflow_is_refused() {
    let workflows = vec![registered("wf", true)];
    match on_trigger(&workflows, &String::from("ghost"), 0) {
        Err(TriggerError::UnknownWorkflow) => {}
        _ => panic!("expected an unknown workflow error"),
    }
}

#[test]
fn trigger_disabled_workflow_is_refused() {
    let workflows = vec![registered("wf", false)];
    match on_trigger(&workflows, &String::from("wf"), 0) {
        Err(TriggerError::WorkflowDisabled) => {}
        _ => panic!("expected a disabled workflow error"),
    }
}

#[test]
fn execution_ids_differ_between_triggers() {
    let workflows = vec![registered("wf", true)];
    let e1 = on_trigger(&workflows, &String::from("wf"), 0).ok().expect("enabled");
    let e2 = on_trigger(&workflows, &String::from("wf"), 0).ok().expect("enabled");
    assert_ne!(e1.id, e2.id);
}

#[test]
fn payload_becomes_one_item() {
    let items = payload_to_items(String::from("{\"x\":1}"));
    assert_eq!(items.len(), 1);
    assert_eq!(items[0].fields.len(), 1);
    assert_eq!(items[0].fields[0].1, "{\"x\":1}");
}
