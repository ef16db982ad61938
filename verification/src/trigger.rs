//! Trigger ingestion: maps an external event carrying a workflow id and an
//! opaque payload to a new execution record. Acceptance is decoupled from
//! the eventual run outcome: a trigger call hands back an execution id at
//! once, and failures are observed later by querying the store.

use vstd::prelude::*;
use crate::engine::{Execution, RunStatus};
use crate::model::{Item, ValidatedWorkflow};
use crate::plan::ExecutionPlan;

verus! {

/// Why a trigger was refused.
pub enum TriggerError {
    /// No registered workflow carries the id.
    UnknownWorkflow,
    /// The workflow exists but is switched off.
    WorkflowDisabled,
}

/// A workflow as the trigger boundary knows it: validated, planned, and
/// switched on or off.
pub struct RegisteredWorkflow {
    pub workflow: ValidatedWorkflow,
    pub plan: ExecutionPlan,
    pub enabled: bool,
}

/// Some registered workflow carries the id.
pub open spec fn repo_has(ws: Seq<RegisteredWorkflow>, id: Seq<char>) -> bool {
    exists|i: int| 0 <= i < ws.len() && (#[trigger] ws[i]).workflow.def.id@ == id
}

/// The first registered workflow carrying the id is enabled: the trigger
/// must be accepted.
pub open spec fn accepts(ws: Seq<RegisteredWorkflow>, id: Seq<char>) -> bool {
    exists|i: int|
        {
            &&& 0 <= i < ws.len()
            &&& (#[trigger] ws[i]).workflow.def.id@ == id
            &&& ws[i].enabled
            &&& forall|j: int| 0 <= j < i ==> (#[trigger] ws[j]).workflow.def.id@ != id
        }
}

/// The first registered workflow carrying the id is disabled: the trigger
/// must be refused as disabled.
pub open spec fn refuses_disabled(ws: Seq<RegisteredWorkflow>, id: Seq<char>) -> bool {
    exists|i: int|
        {
            &&& 0 <= i < ws.len()
            &&& (#[trigger] ws[i]).workflow.def.id@ == id
            &&& !ws[i].enabled
            &&& forall|j: int| 0 <= j < i ==> (#[trigger] ws[j]).workflow.def.id@ != id
        }
}

/// Relies on uuid::Uuid::new_v4 and its Display form: a random
/// version-4 identifier, rendered hyphenated as exactly 36 characters.
#[verifier::external_body]
pub(crate) fn new_execution_id() -> (r: String)
    ensures
        r@.len() == 41,
{
    format!("exec-{}", uuid::Uuid::new_v4())
}

/// Wraps an opaque trigger payload as the initial item sequence: one item
/// whose single field holds the payload.
pub fn payload_to_items(payload: String) -> (r: Vec<Item>)
    ensures
        r@.len() == 1,
        r@[0].fields@.len() == 1,
        r@[0].fields@[0].1 == payload,
        r@[0].binary_ref is None,
{
    let mut fields: Vec<(String, String)> = Vec::new();
    fields.push((String::new(), payload));
    let item = Item { fields, binary_ref: None };
    let mut r: Vec<Item> = Vec::new();
    r.push(item);
    r
}

/// Accepts a trigger for the workflow with the given id: exactly one new
/// execution record is created per accepted trigger, in state `New`, and
/// handed back at once; the run itself proceeds separately. A trigger is
/// accepted exactly when the first workflow carrying the id is enabled,
/// refused as unknown exactly when no workflow carries the id, and
/// refused as disabled exactly when the first workflow carrying the id is
/// switched off.
pub fn on_trigger(
    workflows: &Vec<RegisteredWorkflow>,
    workflow_id: &String,
    started_at: u64,
) -> (r: Result<Execution, TriggerError>)
    ensures
        match r {
            Ok(e) => {
                &&& accepts(workflows@, workflow_id@)
                &&& e.workflow_id@ == workflow_id@
                &&& e.status == RunStatus::New
                &&& e.started_at == started_at
                &&& e.finished_at is None
                &&& e.results@.len() == 0
                &&& e.id@.len() == 41
            },
            Err(e) => match e {
                TriggerError::UnknownWorkflow => !repo_has(workflows@, workflow_id@),
                TriggerError::WorkflowDisabled => refuses_disabled(workflows@, workflow_id@),
            },
        },
{
    let mut i: usize = 0;
    while i < workflows.len()
        invariant
            0 <= i <= workflows@.len(),
            forall|j: int| 0 <= j < i ==> (#[trigger] workflows@[j]).workflow.def.id@ != workflow_id@,
        decreases workflows@.len() - i,
    {
        if workflows[i].workflow.def.id.eq(workflow_id) {
            if !workflows[i].enabled {
                proof {
                    assert(refuses_disabled(workflows@, workflow_id@));
                }
                return Err(TriggerError::WorkflowDisabled);
            }
            let id = new_execution_id();
            proof {
                assert(accepts(workflows@, workflow_id@));
            }
            return Ok(
                Execution {
                    id,
                    workflow_id: workflow_id.clone(),
                    status: RunStatus::New,
                    started_at,
                    finished_at: None,
                    results: Vec::new(),
                },
            );
        }
        i += 1;
    }
    Err(TriggerError::UnknownWorkflow)
}

} // verus!
