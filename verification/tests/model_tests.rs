use flowrun::model::{
    load, Connection, NodeSpec, OnErrorPolicy, RetryPolicy, ValidationError, WorkflowDefinition,
};
use flowrun::plan::plan;

fn node(id: &str) -> NodeSpec {
    NodeSpec {
        id: String::from(id),
        node_type: String::from("noop"),
        parameters: Vec::new(),
        on_error: OnErrorPolicy::Stop,
        retry: RetryPolicy {
            max_attempts: 1,
            base_delay_ms: 0,
            max_delay_ms: 0,
        },
    }
}

fn conn(from: &str, to: &str) -> Connection {
    Connection {
        from_node: String::from(from),
        from_output: 0,
        to_node: String::from(to),
        to_input: 0,
    }
}

#[test]
fn duplicate_node_ids_are_rejected() {
    let def = WorkflowDefinition {
        id: String::from("wf"),
        nodes: vec![node("a"), node("a")],
        connections: Vec::new(),
    };
    match load(def) {
        Err(ValidationError::DuplicateNodeId { node_id }) => assert_eq!(node_id, "a"),
        _ => panic!("expected a duplicate id error"),
    }
}

#[test]
fn unknown_endpoints_are_rejected() {
    let def = WorkflowDefinition {
        id: String::from("wf"),
        nodes: vec![node("a")],
        connections: vec![conn("a", "ghost")],
    };
    match load(def) {
        Err(ValidationError::UnknownEndpoint { node_id }) => assert_eq!(node_id, "ghost"),
        _ => panic!("expected an unknown endpoint error"),
    }
}

#[test]
fn empty_definition_has_no_entry_node() {
    let def = WorkflowDefinition {
        id: String::from("wf"),
        nodes: Vec::new(),
        connections: Vec::new(),
    };
    match load(def) {
        Err(ValidationError::NoEntryNode) => {}
        _ => panic!("expected a missing entry node error"),
    }
}

#[test]
fn cycles_are_detected_with_a_path() {
    let def = WorkflowDefinition {
        id: String::from("wf"),
        nodes: vec![node("root"), node("a"), node("b"), node("c")],
        connections: vec![
            conn("root", "a"),
            conn("a", "b"),
            conn("b", "c"),
            conn("c", "a"),
        ],
    };
    match load(def) {
        Err(ValidationError::CycleDetected { path }) => {
            assert!(path.len() >= 2);
            assert_eq!(path.first(), path.last());
        }
        _ => panic!("expected a cycle error"),
    }
}

#[test]
fn acyclic_definitions_validate() {
    let def = WorkflowDefinition {
        id: String::from("wf"),
        nodes: vec![node("a"), node("b"), node("c")],
        connections: vec![conn("a", "b"), conn("b", "c"), conn("a", "c")],
    };
    let vw = load(def).ok().expect("acyclic definitions always pass");
    assert_eq!(vw.node_count(), 3);
}

#[test]
fn planning_is_deterministic_and_leveled() {
    let def = WorkflowDefinition {
        id: String::from("wf"),
        nodes: vec![node("a"), node("b"), node("c"), node("d")],
        connections: vec![conn("a", "b"), conn("a", "c"), conn("b", "d"), conn("c", "d")],
    };
    let vw = load(def).ok().expect("definition should validate");
    let p1 = plan(&vw);
    let p2 = plan(&vw);
    assert_eq!(p1.levels, p2.levels);
    assert_eq!(p1.level_of, p2.level_of);
    // a diamond plans into three levels: a | b, c | d, with declaration
    // order inside the middle level
    assert_eq!(p1.levels, vec![vec![0], vec![1, 2], vec![3]]);
    assert_eq!(p1.level_of, vec![0, 1, 1, 2]);
}

#[test]
fn validated_workflows_have_no_unreachable_nodes() {
    // every in-degree-zero node is an entry, so in an acyclic graph every
    // node is reachable from some entry and the warning list is empty
    let def = WorkflowDefinition {
        id: String::from("wf"),
        nodes: vec![node("a"), node("b"), node("c"), node("lone")],
        connections: vec![conn("a", "b"), conn("b", "c")],
    };
    let vw = load(def).ok().expect("definition should validate");
    assert_eq!(vw.unreachable_nodes(), Vec::<usize>::new());
}
