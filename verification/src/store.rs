//! The execution store: a queryable record of past and in-flight
//! executions, keyed by execution id.

use vstd::prelude::*;
use crate::engine::{Execution, RunStatus};

verus! {

/// Why a store operation was refused.
pub enum StoreError {
    /// No stored execution carries the id.
    NotFound,
    /// An execution with the id is already stored.
    DuplicateId,
}

/// A partial update of a stored execution: only the given fields change.
pub struct ExecutionPatch {
    pub status: Option<RunStatus>,
    pub finished_at: Option<u64>,
}

/// Some stored execution carries the id.
pub open spec fn store_has(s: Seq<Execution>, id: Seq<char>) -> bool {
    exists|i: int| 0 <= i < s.len() && (#[trigger] s[i]).id@ == id
}

/// Keeps one record per execution id, in insertion order.
pub struct ExecutionStore {
    pub executions: Vec<Execution>,
}

impl ExecutionStore {
    /// An empty store.
    pub fn new() -> (r: ExecutionStore)
        ensures
            r.executions@.len() == 0,
    {
        ExecutionStore { executions: Vec::new() }
    }

    /// The position of the execution with the given id, if any.
    fn find(&self, id: &String) -> (r: Option<usize>)
        ensures
            match r {
                Option::Some(i) => i < self.executions@.len() && self.executions@[i as int].id@
                    == id@,
                Option::None => !store_has(self.executions@, id@),
            },
    {
        let mut i: usize = 0;
        while i < self.executions.len()
            invariant
                0 <= i <= self.executions@.len(),
                forall|j: int| 0 <= j < i ==> (#[trigger] self.executions@[j]).id@ != id@,
            decreases self.executions@.len() - i,
        {
            if self.executions[i].id.eq(id) {
                return Some(i);
            }
            i += 1;
        }
        None
    }

    /// Stores a new execution. Refused when its id is already taken, so
    /// ids stay unique.
    pub fn create(&mut self, execution: Execution) -> (r: Result<(), StoreError>)
        ensures
            match r {
                Ok(()) => !store_has(old(self).executions@, execution.id@) && final(self).executions@ == old(self).executions@.push(execution),
                Err(e) => e is DuplicateId && store_has(old(self).executions@, execution.id@)
                    && final(self).executions@ == old(self).executions@,
            },
    {
        match self.find(&execution.id) {
            Option::Some(_) => Err(StoreError::DuplicateId),
            Option::None => {
                self.executions.push(execution);
                Ok(())
            },
        }
    }

    /// The stored execution with the given id.
    pub fn get(&self, id: &String) -> (r: Result<&Execution, StoreError>)
        ensures
            match r {
                Ok(e) => exists|i: int|
                    0 <= i < self.executions@.len() && (#[trigger] self.executions@[i]).id@ == id@
                        && *e == self.executions@[i],
                Err(e) => e is NotFound && !store_has(self.executions@, id@),
            },
    {
        match self.find(id) {
            Option::Some(i) => {
                proof {
                    assert(self.executions@[i as int].id@ == id@);
                }
                Ok(&self.executions[i])
            },
            Option::None => Err(StoreError::NotFound),
        }
    }

    /// Patches the stored execution with the given id: its status and
    /// finish time change exactly where the patch gives a value; every
    /// other execution is untouched.
    pub fn update(&mut self, id: &String, patch: ExecutionPatch) -> (r: Result<(), StoreError>)
        ensures
            match r {
                Ok(()) => {
                    &&& final(self).executions@.len() == old(self).executions@.len()
                    &&& exists|i: int|
                        {
                            &&& 0 <= i < old(self).executions@.len()
                            &&& (#[trigger] old(self).executions@[i]).id@ == id@
                            &&& final(self).executions@[i].id == old(self).executions@[i].id
                            &&& final(self).executions@[i].workflow_id == old(self).executions@[i].workflow_id
                            &&& final(self).executions@[i].results == old(self).executions@[i].results
                            &&& final(self).executions@[i].started_at == old(self).executions@[i].started_at
                            &&& final(self).executions@[i].status == (match patch.status {
                                Option::Some(st) => st,
                                Option::None => old(self).executions@[i].status,
                            })
                            &&& final(self).executions@[i].finished_at == (
                            match patch.finished_at {
                                Option::Some(t) => Option::Some(t),
                                Option::None => old(self).executions@[i].finished_at,
                            })
                            &&& forall|j: int|
                                0 <= j < old(self).executions@.len() && j != i ==> final(self).executions@[j] == old(self).executions@[j]
                        }
                },
                Err(e) => e is NotFound && !store_has(old(self).executions@, id@) && final(self).executions@ == old(self).executions@,
            },
    {
        match self.find(id) {
            Option::Some(i) => {
                let ghost before = self.executions@;
                let mut e = self.executions.remove(i);
                match patch.status {
                    Option::Some(st) => {
                        e.status = st;
                    },
                    Option::None => {},
                }
                match patch.finished_at {
                    Option::Some(t) => {
                        e.finished_at = Some(t);
                    },
                    Option::None => {},
                }
                self.executions.insert(i, e);
                proof {
                    assert(self.executions@ =~= before.update(i as int, e));
                }
                Ok(())
            },
            Option::None => Err(StoreError::NotFound),
        }
    }

    /// The positions, in insertion order, of this workflow's executions,
    /// paged: exactly positions `offset` through `offset + limit - 1` of
    /// the full match list.
    pub fn list(&self, workflow_id: &String, offset: usize, limit: usize) -> (r: Vec<usize>)
        ensures
            ({
                let full = match_indices(
                    self.executions@,
                    workflow_id@,
                    self.executions@.len() as int,
                );
                &&& r@.len() == (if full.len() <= offset {
                    0int
                } else if full.len() - offset >= limit {
                    limit as int
                } else {
                    full.len() - offset
                })
                &&& forall|j: int| 0 <= j < r@.len() ==> (#[trigger] r@[j]) as int == full[offset + j]
            }),
            forall|j: int|
                0 <= j < r@.len() ==> (#[trigger] r@[j]) < self.executions@.len()
                    && self.executions@[r@[j] as int].workflow_id@ == workflow_id@,
            forall|j1: int, j2: int| 0 <= j1 < j2 < r@.len() ==> r@[j1] < r@[j2],
    {
        let mut r: Vec<usize> = Vec::new();
        let mut seen: usize = 0;
        let mut i: usize = 0;
        while i < self.executions.len()
            invariant
                0 <= i <= self.executions@.len(),
                seen == match_indices(self.executions@, workflow_id@, i as int).len(),
                seen <= i,
                r@.len() == (if seen <= offset {
                    0int
                } else if seen - offset >= limit {
                    limit as int
                } else {
                    seen - offset
                }),
                forall|j: int|
                    0 <= j < r@.len() ==> (#[trigger] r@[j]) as int == match_indices(
                        self.executions@,
                        workflow_id@,
                        i as int,
                    )[offset + j],
                forall|j: int|
                    0 <= j < r@.len() ==> (#[trigger] r@[j]) < i
                        && self.executions@[r@[j] as int].workflow_id@ == workflow_id@,
                forall|j1: int, j2: int| 0 <= j1 < j2 < r@.len() ==> r@[j1] < r@[j2],
            decreases self.executions@.len() - i,
        {
            let ghost before = match_indices(self.executions@, workflow_id@, i as int);
            let is_match = self.executions[i].workflow_id.eq(workflow_id);
            if is_match {
                proof {
                    assert(match_indices(self.executions@, workflow_id@, i + 1) =~= before.push(
                        i as int,
                    ));
                }
                if seen >= offset && r.len() < limit {
                    r.push(i);
                }
                seen += 1;
            } else {
                proof {
                    assert(match_indices(self.executions@, workflow_id@, i + 1) =~= before);
                }
            }
            i += 1;
        }
        r
    }
}

/// The indices, ascending, of the executions among the first `c` whose
/// workflow id matches.
pub open spec fn match_indices(s: Seq<Execution>, wid: Seq<char>, c: int) -> Seq<int>
    decreases c,
{
    if c <= 0 {
        Seq::empty()
    } else {
        match_indices(s, wid, c - 1) + if s[c - 1].workflow_id@ == wid {
            seq![c - 1]
        } else {
            Seq::empty()
        }
    }
}

} // verus!
