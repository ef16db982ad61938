//! The workflow model: items, node specifications, connections, and the
//! validation that turns a raw definition into a validated workflow whose
//! connection graph is resolved to node indices and known to be acyclic.

use vstd::prelude::*;
use crate::graph::{
    Edge, acyclic, contains_node, count_false, edges_wf, filled, has_edge, is_cycle_path,
    levels_or_cycle, no_incoming,
};

verus! {

/// One unit of data flowing along a connection: named fields plus an
/// optional reference to a binary attachment. Field values are opaque to
/// the engine.
pub struct Item {
    pub fields: Vec<(String, String)>,
    pub binary_ref: Option<String>,
}

/// The mathematical value of an `Item`: its fields and attachment
/// reference as sequences of characters.
#[verifier::ext_equal]
pub struct ItemView {
    pub fields: Seq<(Seq<char>, Seq<char>)>,
    pub binary_ref: Option<Seq<char>>,
}

impl View for Item {
    type V = ItemView;

    open spec fn view(&self) -> ItemView {
        ItemView {
            fields: self.fields@.map_values(|p: (String, String)| (p.0@, p.1@)),
            binary_ref: match self.binary_ref {
                Option::Some(s) => Option::Some(s@),
                Option::None => Option::None,
            },
        }
    }
}

/// The values of a sequence of items.
pub open spec fn items_at(s: Seq<Item>) -> Seq<ItemView> {
    s.map_values(|i: Item| i@)
}

impl Item {
    /// An item with the given fields and no attachment.
    pub fn from_fields(fields: Vec<(String, String)>) -> (r: Item)
        ensures
            r.fields == fields,
            r.binary_ref is None,
    {
        Item { fields, binary_ref: None }
    }
}

impl Clone for Item {
    fn clone(&self) -> (res: Self)
        ensures
            res@ == self@,
    {
        let mut fields: Vec<(String, String)> = Vec::new();
        let mut i: usize = 0;
        while i < self.fields.len()
            invariant
                0 <= i <= self.fields@.len(),
                fields@.len() == i,
                forall|j: int|
                    0 <= j < i ==> (#[trigger] fields@[j]).0@ == self.fields@[j].0@
                        && fields@[j].1@ == self.fields@[j].1@,
            decreases self.fields@.len() - i,
        {
            let name = self.fields[i].0.clone();
            let value = self.fields[i].1.clone();
            fields.push((name, value));
            i += 1;
        }
        let binary_ref = match &self.binary_ref {
            Option::Some(s) => Option::Some(s.clone()),
            Option::None => Option::None,
        };
        let res = Item { fields, binary_ref };
        proof {
            assert(res@.fields =~= self@.fields);
            assert(res@ =~= self@);
        }
        res
    }
}

/// What the engine does with a node once its retry attempts are exhausted.
#[derive(Clone, Copy, PartialEq, Eq, Structural)]
pub enum OnErrorPolicy {
    /// The run fails; nodes depending solely on this one are skipped.
    Stop,
    /// The node counts as failed but feeds an empty item sequence onward.
    ContinueWithEmpty,
    /// The node counts as failed but feeds its own input onward unchanged.
    ContinueWithInput,
}

/// Retry configuration: how many attempts a node is allowed in total, and
/// the exponential backoff between them (base delay doubled per attempt,
/// capped).
#[derive(Clone, Copy, PartialEq, Eq, Structural)]
pub struct RetryPolicy {
    pub max_attempts: u32,
    pub base_delay_ms: u64,
    pub max_delay_ms: u64,
}

/// One node of a workflow: a unique id, the type resolved through the node
/// registry, parameters opaque to the engine, and its failure policy.
pub struct NodeSpec {
    pub id: String,
    pub node_type: String,
    pub parameters: Vec<(String, String)>,
    pub on_error: OnErrorPolicy,
    pub retry: RetryPolicy,
}

/// A directed connection from one node's output slot to another node's
/// input slot.
pub struct Connection {
    pub from_node: String,
    pub from_output: usize,
    pub to_node: String,
    pub to_input: usize,
}

/// An immutable workflow description: nodes in declaration order and the
/// connections between them.
pub struct WorkflowDefinition {
    pub id: String,
    pub nodes: Vec<NodeSpec>,
    pub connections: Vec<Connection>,
}

/// Why a definition was rejected.
pub enum ValidationError {
    /// Two nodes carry the same id.
    DuplicateNodeId { node_id: String },
    /// A connection names a node id that the definition does not declare.
    UnknownEndpoint { node_id: String },
    /// No node is free of incoming connections, so no trigger could ever
    /// seed the workflow.
    NoEntryNode,
    /// The connection graph has a directed cycle; `path` walks it, as node
    /// ids, returning to its starting node.
    CycleDetected { path: Vec<String> },
}

/// All node ids are distinct.
pub open spec fn ids_unique(nodes: Seq<NodeSpec>) -> bool {
    forall|i: int, j: int| 0 <= i < j < nodes.len() ==> nodes[i].id@ != nodes[j].id@
}

/// Some node carries the id.
pub open spec fn has_node(nodes: Seq<NodeSpec>, id: Seq<char>) -> bool {
    exists|i: int| 0 <= i < nodes.len() && (#[trigger] nodes[i].id)@ == id
}

/// Every connection endpoint names a declared node.
pub open spec fn endpoints_exist(nodes: Seq<NodeSpec>, conns: Seq<Connection>) -> bool {
    forall|c: int|
        0 <= c < conns.len() ==> has_node(nodes, (#[trigger] conns[c]).from_node@) && has_node(
            nodes,
            conns[c].to_node@,
        )
}

/// `edges` resolves each connection's endpoints to node indices, in
/// declaration order, keeping the slot numbers.
pub open spec fn edges_resolve(
    nodes: Seq<NodeSpec>,
    conns: Seq<Connection>,
    edges: Seq<Edge>,
) -> bool {
    &&& edges.len() == conns.len()
    &&& forall|c: int|
        0 <= c < conns.len() ==> {
            &&& (#[trigger] edges[c]).from < nodes.len()
            &&& edges[c].to < nodes.len()
            &&& nodes[edges[c].from as int].id@ == conns[c].from_node@
            &&& nodes[edges[c].to as int].id@ == conns[c].to_node@
            &&& edges[c].from_output == conns[c].from_output
            &&& edges[c].to_input == conns[c].to_input
        }
}

/// Some connection ends at the node with index `v`.
pub open spec fn is_target(nodes: Seq<NodeSpec>, conns: Seq<Connection>, v: int) -> bool {
    exists|c: int| 0 <= c < conns.len() && (#[trigger] conns[c]).to_node@ == nodes[v].id@
}

/// Some declared node receives no connection: an entry node.
pub open spec fn some_entry(nodes: Seq<NodeSpec>, conns: Seq<Connection>) -> bool {
    exists|v: int| 0 <= v < nodes.len() && !is_target(nodes, conns, v)
}

/// The definition's connection graph has a directed cycle.
pub open spec fn definition_cyclic(nodes: Seq<NodeSpec>, conns: Seq<Connection>) -> bool {
    exists|edges: Seq<Edge>| edges_resolve(nodes, conns, edges) && !acyclic(edges)
}

/// With unique ids, a connection list resolves to node indices in exactly
/// one way.
pub proof fn lemma_resolution_unique(
    nodes: Seq<NodeSpec>,
    conns: Seq<Connection>,
    e1: Seq<Edge>,
    e2: Seq<Edge>,
)
    requires
        ids_unique(nodes),
        edges_resolve(nodes, conns, e1),
        edges_resolve(nodes, conns, e2),
    ensures
        e1 =~= e2,
{
    assert forall|c: int| 0 <= c < conns.len() implies #[trigger] e1[c] == e2[c] by {
        if e1[c].from != e2[c].from {
            assert(nodes[e1[c].from as int].id@ == nodes[e2[c].from as int].id@);
            assert(false);
        }
        if e1[c].to != e2[c].to {
            assert(nodes[e1[c].to as int].id@ == nodes[e2[c].to as int].id@);
            assert(false);
        }
    }
}

/// A validated workflow: the definition together with its connections
/// resolved to node indices, whose graph is acyclic and has an entry node.
pub struct ValidatedWorkflow {
    pub def: WorkflowDefinition,
    pub edges: Vec<Edge>,
}

impl ValidatedWorkflow {
    /// What validation established.
    pub open spec fn wf(self) -> bool {
        &&& ids_unique(self.def.nodes@)
        &&& edges_resolve(self.def.nodes@, self.def.connections@, self.edges@)
        &&& edges_wf(self.def.nodes@.len() as int, self.edges@)
        &&& acyclic(self.edges@)
        &&& self.def.nodes@.len() >= 1
        &&& some_entry(self.def.nodes@, self.def.connections@)
    }

    /// How many nodes the workflow declares.
    pub fn node_count(&self) -> (r: usize)
        ensures
            r == self.def.nodes@.len(),
    {
        self.def.nodes.len()
    }
}

/// Whether two strings hold the same characters.
fn str_eq(a: &String, b: &String) -> (r: bool)
    ensures
        r == (a@ == b@),
{
    a.eq(b)
}

/// The index of the node with the given id, if the definition declares one.
fn find_node(nodes: &Vec<NodeSpec>, id: &String) -> (r: Option<usize>)
    ensures
        match r {
            Option::Some(i) => i < nodes@.len() && nodes@[i as int].id@ == id@,
            Option::None => !has_node(nodes@, id@),
        },
{
    let mut i: usize = 0;
    while i < nodes.len()
        invariant
            0 <= i <= nodes@.len(),
            forall|j: int| 0 <= j < i ==> (#[trigger] nodes@[j].id)@ != id@,
        decreases nodes@.len() - i,
    {
        if str_eq(&nodes[i].id, id) {
            return Some(i);
        }
        i += 1;
    }
    None
}

/// Validates a workflow definition: node ids must be unique, every
/// connection endpoint must name a declared node, some node must be free
/// of incoming connections, and the connection graph must be acyclic.
/// Returns the definition with its connections resolved to node indices,
/// or says exactly what is wrong.
pub fn load(def: WorkflowDefinition) -> (r: Result<ValidatedWorkflow, ValidationError>)
    ensures
        match r {
            Ok(vw) => {
                &&& vw.wf()
                &&& vw.def == def
                &&& ids_unique(def.nodes@)
                &&& endpoints_exist(def.nodes@, def.connections@)
                &&& some_entry(def.nodes@, def.connections@)
                &&& !definition_cyclic(def.nodes@, def.connections@)
            },
            Err(e) => match e {
                ValidationError::DuplicateNodeId { .. } => !ids_unique(def.nodes@),
                ValidationError::UnknownEndpoint { .. } => ids_unique(def.nodes@)
                    && !endpoints_exist(def.nodes@, def.connections@),
                ValidationError::NoEntryNode => ids_unique(def.nodes@) && endpoints_exist(
                    def.nodes@,
                    def.connections@,
                ) && !some_entry(def.nodes@, def.connections@),
                ValidationError::CycleDetected { path } => ids_unique(def.nodes@)
                    && endpoints_exist(def.nodes@, def.connections@) && some_entry(
                    def.nodes@,
                    def.connections@,
                ) && definition_cyclic(def.nodes@, def.connections@),
            },
        },
{
    let n = def.nodes.len();
    // (a) id uniqueness
    let mut i: usize = 0;
    while i < n
        invariant
            0 <= i <= n,
            n == def.nodes@.len(),
            forall|a: int, b: int|
                0 <= a < i && a < b < n ==> def.nodes@[a].id@ != def.nodes@[b].id@,
        decreases n - i,
    {
        let mut j: usize = i + 1;
        while j < n
            invariant
                0 <= i < j <= n,
                n == def.nodes@.len(),
                forall|a: int, b: int|
                    0 <= a < i && a < b < n ==> def.nodes@[a].id@ != def.nodes@[b].id@,
                forall|b: int| i < b < j ==> def.nodes@[i as int].id@ != def.nodes@[b].id@,
            decreases n - j,
        {
            if str_eq(&def.nodes[i].id, &def.nodes[j].id) {
                return Err(ValidationError::DuplicateNodeId { node_id: def.nodes[i].id.clone() });
            }
            j += 1;
        }
        i += 1;
    }
    assert(ids_unique(def.nodes@));
    // (b) connection endpoints must exist; resolve them to indices
    let mut edges: Vec<Edge> = Vec::new();
    let mut c: usize = 0;
    while c < def.connections.len()
        invariant
            0 <= c <= def.connections@.len(),
            n == def.nodes@.len(),
            edges@.len() == c,
            ids_unique(def.nodes@),
            forall|d: int|
                0 <= d < c ==> {
                    &&& (#[trigger] edges@[d]).from < n
                    &&& edges@[d].to < n
                    &&& def.nodes@[edges@[d].from as int].id@ == def.connections@[d].from_node@
                    &&& def.nodes@[edges@[d].to as int].id@ == def.connections@[d].to_node@
                    &&& edges@[d].from_output == def.connections@[d].from_output
                    &&& edges@[d].to_input == def.connections@[d].to_input
                },
        decreases def.connections@.len() - c,
    {
        let conn = &def.connections[c];
        let from = match find_node(&def.nodes, &conn.from_node) {
            Option::Some(v) => v,
            Option::None => {
                return Err(
                    ValidationError::UnknownEndpoint { node_id: conn.from_node.clone() },
                );
            },
        };
        let to = match find_node(&def.nodes, &conn.to_node) {
            Option::Some(v) => v,
            Option::None => {
                return Err(ValidationError::UnknownEndpoint { node_id: conn.to_node.clone() });
            },
        };
        edges.push(
            Edge {
                from,
                from_output: conn.from_output,
                to,
                to_input: conn.to_input,
            },
        );
        c += 1;
    }
    assert(edges_resolve(def.nodes@, def.connections@, edges@));
    assert(endpoints_exist(def.nodes@, def.connections@)) by {
        assert forall|d: int|
            0 <= d < def.connections@.len() implies has_node(
            def.nodes@,
            (#[trigger] def.connections@[d]).from_node@,
        ) && has_node(def.nodes@, def.connections@[d].to_node@) by {
            assert(def.nodes@[edges@[d].from as int].id@ == def.connections@[d].from_node@);
            assert(def.nodes@[edges@[d].to as int].id@ == def.connections@[d].to_node@);
        }
    }
    // an entry node: some node that no connection targets
    let mut incoming: Vec<bool> = Vec::new();
    let mut v: usize = 0;
    while v < n
        invariant
            0 <= v <= n,
            incoming@.len() == v,
            n == def.nodes@.len(),
            edges_resolve(def.nodes@, def.connections@, edges@),
            forall|u: int|
                0 <= u < v ==> (incoming@[u] <==> exists|d: int|
                    0 <= d < edges@.len() && (#[trigger] edges@[d]).to as int == u),
        decreases n - v,
    {
        let mut hit = false;
        let mut d: usize = 0;
        while d < edges.len()
            invariant
                0 <= d <= edges@.len(),
                hit == exists|e: int| 0 <= e < d && (#[trigger] edges@[e]).to as int == v as int,
            decreases edges@.len() - d,
        {
            if edges[d].to == v {
                hit = true;
                proof {
                    assert(0 <= d < d + 1 && edges@[d as int].to as int == v as int);
                }
            }
            d += 1;
        }
        incoming.push(hit);
        v += 1;
    }
    let mut has_entry_node = false;
    let mut u: usize = 0;
    while u < n
        invariant_except_break
            !has_entry_node,
        invariant
            0 <= u <= n,
            incoming@.len() == n,
            n == def.nodes@.len(),
            ids_unique(def.nodes@),
            edges_resolve(def.nodes@, def.connections@, edges@),
            forall|w: int| 0 <= w < u ==> incoming@[w],
            forall|w: int|
                0 <= w < n ==> (incoming@[w] <==> exists|d: int|
                    0 <= d < edges@.len() && (#[trigger] edges@[d]).to as int == w),
        ensures
            has_entry_node ==> some_entry(def.nodes@, def.connections@),
            !has_entry_node ==> forall|w: int| 0 <= w < n ==> incoming@[w],
        decreases n - u,
    {
        if !incoming[u] {
            proof {
                assert forall|d: int|
                    0 <= d < def.connections@.len() implies (#[trigger] def.connections@[d]).to_node@
                    != def.nodes@[u as int].id@ by {
                    if def.connections@[d].to_node@ == def.nodes@[u as int].id@ {
                        assert(def.nodes@[edges@[d].to as int].id@ == def.nodes@[u as int].id@);
                        if edges@[d].to as int != u as int {
                            assert(false);
                        }
                        assert(incoming@[u as int]);
                    }
                }
                assert(!is_target(def.nodes@, def.connections@, u as int));
                assert(some_entry(def.nodes@, def.connections@));
            }
            has_entry_node = true;
            break ;
        }
        u += 1;
    }
    if !has_entry_node {
        proof {
            if some_entry(def.nodes@, def.connections@) {
                let w = choose|w: int|
                    0 <= w < def.nodes@.len() && !is_target(def.nodes@, def.connections@, w);
                assert(incoming@[w]);
                let d = choose|d: int|
                    0 <= d < edges@.len() && (#[trigger] edges@[d]).to as int == w;
                assert(def.nodes@[edges@[d].to as int].id@ == def.connections@[d].to_node@);
                assert(0 <= d < def.connections@.len() && def.connections@[d].to_node@
                    == def.nodes@[w].id@);
                assert(is_target(def.nodes@, def.connections@, w));
            }
        }
        return Err(ValidationError::NoEntryNode);
    }
    // (c) cycle detection over the resolved graph
    match levels_or_cycle(n, &edges) {
        Ok(_) => {
            proof {
                if definition_cyclic(def.nodes@, def.connections@) {
                    let other = choose|other: Seq<Edge>|
                        edges_resolve(def.nodes@, def.connections@, other) && !acyclic(other);
                    lemma_resolution_unique(def.nodes@, def.connections@, edges@, other);
                    assert(acyclic(other));
                }
            }
            Ok(ValidatedWorkflow { def, edges })
        },
        Err(path) => {
            let mut ids: Vec<String> = Vec::new();
            let mut t: usize = 0;
            while t < path.len()
                invariant
                    0 <= t <= path@.len(),
                    n == def.nodes@.len(),
                    is_cycle_path(edges@, path@),
                    edges_wf(n as int, edges@),
                    ids@.len() == t,
                decreases path@.len() - t,
            {
                proof {
                    let tt: int = if t as int == path@.len() - 1 {
                        0
                    } else {
                        t as int
                    };
                    assert(path@[t as int] == path@[tt]);
                    assert(has_edge(edges@, path@[tt] as int, path@[tt + 1] as int));
                    let a = path@[tt] as int;
                    let b = path@[tt + 1] as int;
                    let w = choose|w: int|
                        0 <= w < edges@.len() && (#[trigger] edges@[w]).from == a && edges@[w].to
                            == b;
                    assert(edges@[w].from < n);
                    assert(path@[t as int] < n);
                }
                ids.push(def.nodes[path[t]].id.clone());
                t += 1;
            }
            Err(ValidationError::CycleDetected { path: ids })
        },
    }
}


/// A walk that starts at an entry node (one with no incoming connection)
/// and follows connections to `v`.
pub open spec fn entry_walk(edges: Seq<Edge>, path: Seq<usize>, v: int) -> bool {
    &&& path.len() >= 1
    &&& (path[path.len() - 1] as int) == v
    &&& no_incoming(edges, path[0] as int)
    &&& forall|t: int|
        0 <= t < path.len() - 1 ==> has_edge(edges, (#[trigger] path[t]) as int, path[t + 1] as int)
}

/// Some walk from an entry node reaches `v`.
pub open spec fn entry_reaches(edges: Seq<Edge>, v: int) -> bool {
    exists|path: Seq<usize>| entry_walk(edges, path, v)
}

/// Any walk from an entry node stays inside a set that holds every entry
/// node and is closed under following connections.
proof fn lemma_walk_stays_reached(
    n: int,
    edges: Seq<Edge>,
    reached: Seq<bool>,
    path: Seq<usize>,
    t: int,
)
    requires
        edges_wf(n, edges),
        reached.len() == n,
        forall|u: int| 0 <= u < n && no_incoming(edges, u) ==> reached[u],
        forall|c: int|
            0 <= c < edges.len() && reached[(#[trigger] edges[c]).from as int] ==> reached[edges[c].to as int],
        0 <= t < path.len(),
        (path[path.len() - 1] as int) < n,
        no_incoming(edges, path[0] as int),
        forall|s: int|
            0 <= s < path.len() - 1 ==> has_edge(
                edges,
                (#[trigger] path[s]) as int,
                path[s + 1] as int,
            ),
    ensures
        reached[path[t] as int],
    decreases t,
{
    if t == 0 {
        if path.len() == 1 {
            assert((path[0] as int) < n);
        } else {
            assert(has_edge(edges, path[0] as int, path[1] as int));
            let c = choose|c: int|
                0 <= c < edges.len() && (#[trigger] edges[c]).from as int == path[0] as int
                    && edges[c].to as int == path[1] as int;
            assert((path[0] as int) < n);
        }
    } else {
        lemma_walk_stays_reached(n, edges, reached, path, t - 1);
        assert(has_edge(edges, path[t - 1] as int, path[t] as int));
        let pt = path[t] as int;
        let ps = path[t - 1] as int;
        let c = choose|c: int|
            0 <= c < edges.len() && (#[trigger] edges[c]).from as int == ps && edges[c].to as int
                == pt;
        assert(reached[edges[c].from as int]);
    }
}

impl ValidatedWorkflow {
    /// Flags dead nodes, as the validation policy asks: the indices, in
    /// ascending order, of exactly those nodes that no walk from an entry
    /// node reaches. Such nodes are warnings, never errors: `load`
    /// accepts a definition that declares them.
    pub fn unreachable_nodes(&self) -> (r: Vec<usize>)
        requires
            self.wf(),
        ensures
            forall|v: int|
                0 <= v < self.def.nodes@.len() ==> (contains_node(r@, v) <==> !entry_reaches(
                    self.edges@,
                    v,
                )),
            forall|j: int| 0 <= j < r@.len() ==> (#[trigger] r@[j]) < self.def.nodes@.len(),
            forall|j1: int, j2: int| 0 <= j1 < j2 < r@.len() ==> r@[j1] < r@[j2],
    {
        let n = self.def.nodes.len();
        let mut reached: Vec<bool> = filled(n, false);
        let mut queue: Vec<usize> = Vec::new();
        // seed: every entry node is reachable by the one-node walk
        let mut v: usize = 0;
        while v < n
            invariant
                0 <= v <= n,
                n == self.def.nodes@.len(),
                self.wf(),
                reached@.len() == n,
                forall|u: int| 0 <= u < v && no_incoming(self.edges@, u) ==> reached@[u],
                forall|u: int|
                    0 <= u < n && reached@[u] ==> entry_reaches(self.edges@, u) && contains_node(
                        queue@,
                        u,
                    ),
                forall|q: int|
                    0 <= q < queue@.len() ==> ((#[trigger] queue@[q]) as int) < n
                        && reached@[queue@[q] as int],
            decreases n - v,
        {
            let mut incoming = false;
            let mut c: usize = 0;
            while c < self.edges.len()
                invariant
                    0 <= c <= self.edges@.len(),
                    incoming == exists|d: int|
                        0 <= d < c && (#[trigger] self.edges@[d]).to as int == v as int,
                decreases self.edges@.len() - c,
            {
                if self.edges[c].to == v {
                    proof {
                        assert(0 <= c < c + 1 && self.edges@[c as int].to as int == v as int);
                    }
                    incoming = true;
                }
                c += 1;
            }
            if !incoming {
                let ghost q0 = queue@;
                reached.set(v, true);
                queue.push(v);
                proof {
                    let walk = Seq::<usize>::empty().push(v);
                    assert(walk[0] == v);
                    assert(no_incoming(self.edges@, v as int));
                    assert(entry_walk(self.edges@, walk, v as int));
                    assert(entry_reaches(self.edges@, v as int));
                    assert(queue@[queue@.len() - 1] as int == v as int);
                    assert forall|u: int|
                        0 <= u < n && reached@[u] implies entry_reaches(self.edges@, u)
                        && contains_node(queue@, u) by {
                        if u != v as int {
                            let w = choose|w: int|
                                0 <= w < q0.len() && (#[trigger] q0[w]) as int == u;
                            assert(queue@[w] as int == u);
                        }
                    }
                }
            }
            v += 1;
        }
        // close the reached set under following connections
        loop
            invariant
                n == self.def.nodes@.len(),
                self.wf(),
                reached@.len() == n,
                forall|u: int| 0 <= u < n && no_incoming(self.edges@, u) ==> reached@[u],
                forall|u: int| 0 <= u < n && reached@[u] ==> entry_reaches(self.edges@, u),
                forall|q: int|
                    0 <= q < queue@.len() ==> ((#[trigger] queue@[q]) as int) < n
                        && reached@[queue@[q] as int],
                forall|c: int|
                    0 <= c < self.edges@.len() && reached@[(#[trigger] self.edges@[c]).from as int]
                        ==> reached@[self.edges@[c].to as int] || contains_node(
                        queue@,
                        self.edges@[c].from as int,
                    ),
            ensures
                queue@.len() == 0,
                reached@.len() == n,
                forall|u: int| 0 <= u < n && no_incoming(self.edges@, u) ==> reached@[u],
                forall|u: int| 0 <= u < n && reached@[u] ==> entry_reaches(self.edges@, u),
                forall|c: int|
                    0 <= c < self.edges@.len() && reached@[(#[trigger] self.edges@[c]).from as int]
                        ==> reached@[self.edges@[c].to as int],
            decreases count_false(reached@), queue@.len(),
        {
            let ghost reached0 = reached@;
            let ghost qfull = queue@;
            let u = match queue.pop() {
                Option::Some(u) => u,
                Option::None => {
                    break ;
                },
            };
            proof {
                assert(qfull[qfull.len() - 1] == u);
                assert((u as int) < n);
                assert(reached@[u as int]);
                // popping the node leaves its closure obligations to the
                // scan below; every other queued node is still queued
                assert forall|d: int|
                    0 <= d < self.edges@.len() && reached@[(#[trigger] self.edges@[d]).from as int]
                        implies reached@[self.edges@[d].to as int] || contains_node(
                    queue@,
                    self.edges@[d].from as int,
                ) || (self.edges@[d].from as int == u as int) by {
                    let f = self.edges@[d].from as int;
                    if !reached@[self.edges@[d].to as int] && f != u as int {
                        assert(contains_node(qfull, f));
                        let w = choose|w: int|
                            0 <= w < qfull.len() && (#[trigger] qfull[w]) as int == f;
                        assert(w < qfull.len() - 1);
                        assert(queue@[w] as int == f);
                        assert(contains_node(queue@, f));
                    }
                }
            }
            let mut c: usize = 0;
            while c < self.edges.len()
                invariant
                    0 <= c <= self.edges@.len(),
                    n == self.def.nodes@.len(),
                    self.wf(),
                    reached@.len() == n,
                    reached0.len() == n,
                    reached@[u as int],
                    forall|w: int| 0 <= w < n && reached0[w] ==> reached@[w],
                    forall|u2: int| 0 <= u2 < n && no_incoming(self.edges@, u2) ==> reached@[u2],
                    forall|u2: int|
                        0 <= u2 < n && reached@[u2] ==> entry_reaches(self.edges@, u2),
                    forall|q: int|
                        0 <= q < queue@.len() ==> ((#[trigger] queue@[q]) as int) < n
                            && reached@[queue@[q] as int],
                    forall|d: int|
                        0 <= d < self.edges@.len() && reached@[(#[trigger] self.edges@[d]).from as int]
                            ==> reached@[self.edges@[d].to as int] || contains_node(
                            queue@,
                            self.edges@[d].from as int,
                        ) || (self.edges@[d].from as int == u as int && d >= c),
                    count_false(reached@) < count_false(reached0) || (reached@ == reached0
                        && queue@.len() == qfull.len() - 1),
                decreases self.edges@.len() - c,
            {
                let e = self.edges[c];
                if e.from == u && !reached[e.to] {
                    let ghost rmid = reached@;
                    let ghost qmid = queue@;
                    proof {
                        crate::graph::lemma_count_false_update(reached@, e.to as int);
                    }
                    reached.set(e.to, true);
                    queue.push(e.to);
                    proof {
                        // the walk that reaches the source extends along
                        // this connection to its target
                        let walk = choose|walk: Seq<usize>|
                            entry_walk(self.edges@, walk, e.from as int);
                        let walk2 = walk.push(e.to);
                        assert(has_edge(self.edges@, e.from as int, e.to as int)) by {
                            assert(self.edges@[c as int].from == e.from && self.edges@[c as int].to
                                == e.to);
                        }
                        assert forall|t: int|
                            0 <= t < walk2.len() - 1 implies has_edge(
                            self.edges@,
                            (#[trigger] walk2[t]) as int,
                            walk2[t + 1] as int,
                        ) by {
                            if t < walk.len() - 1 {
                                assert(walk2[t] == walk[t] && walk2[t + 1] == walk[t + 1]);
                            } else {
                                assert(walk2[t] == walk[walk.len() - 1] && walk2[t + 1] == e.to);
                            }
                        }
                        assert(entry_walk(self.edges@, walk2, e.to as int));
                        assert(entry_reaches(self.edges@, e.to as int));
                        assert(queue@[queue@.len() - 1] == e.to);
                        assert forall|q: int|
                            0 <= q < queue@.len() implies ((#[trigger] queue@[q]) as int) < n
                            && reached@[queue@[q] as int] by {
                            if q < qmid.len() {
                                assert(queue@[q] == qmid[q]);
                            }
                        }
                        assert forall|d: int|
                            0 <= d < self.edges@.len() && reached@[(
                        #[trigger] self.edges@[d]).from as int] implies
                            reached@[self.edges@[d].to as int] || contains_node(
                            queue@,
                            self.edges@[d].from as int,
                        ) || (self.edges@[d].from as int == u as int && d >= c + 1) by {
                            let f = self.edges@[d].from as int;
                            if rmid[f] {
                                if contains_node(qmid, f) {
                                    let w = choose|w: int|
                                        0 <= w < qmid.len() && (#[trigger] qmid[w]) as int == f;
                                    assert(queue@[w] as int == f);
                                    assert(contains_node(queue@, f));
                                } else if f == u as int && d == c {
                                    assert(reached@[self.edges@[d].to as int]);
                                }
                            } else {
                                assert(f == e.to as int);
                                assert(queue@[queue@.len() - 1] as int == f);
                                assert(contains_node(queue@, f));
                            }
                        }
                    }
                } else {
                    proof {
                        assert forall|d: int|
                            0 <= d < self.edges@.len() && reached@[(
                        #[trigger] self.edges@[d]).from as int] implies
                            reached@[self.edges@[d].to as int] || contains_node(
                            queue@,
                            self.edges@[d].from as int,
                        ) || (self.edges@[d].from as int == u as int && d >= c + 1) by {
                            if self.edges@[d].from as int == u as int && d == c {
                                assert(reached@[self.edges@[d].to as int]);
                            }
                        }
                    }
                }
                c += 1;
            }
        }
        // collect the nodes left unreached, in ascending order
        let mut r: Vec<usize> = Vec::new();
        let mut w: usize = 0;
        while w < n
            invariant
                0 <= w <= n,
                n == self.def.nodes@.len(),
                reached@.len() == n,
                forall|u: int|
                    0 <= u < w ==> (contains_node(r@, u) <==> !reached@[u]),
                forall|j: int| 0 <= j < r@.len() ==> (#[trigger] r@[j]) < w,
                forall|j1: int, j2: int| 0 <= j1 < j2 < r@.len() ==> r@[j1] < r@[j2],
            decreases n - w,
        {
            let ghost r0 = r@;
            if !reached[w] {
                r.push(w);
            }
            proof {
                assert forall|u: int|
                    0 <= u < w + 1 implies (contains_node(r@, u) <==> !reached@[u]) by {
                    if u == w as int {
                        if !reached@[u] {
                            assert(r@[r@.len() - 1] as int == u);
                            assert(contains_node(r@, u));
                        } else {
                            if contains_node(r@, u) {
                                let j = choose|j: int|
                                    0 <= j < r@.len() && (#[trigger] r@[j]) as int == u;
                                assert(r@[j] < w);
                                assert(false);
                            }
                        }
                    } else {
                        if contains_node(r0, u) {
                            let j = choose|j: int|
                                0 <= j < r0.len() && (#[trigger] r0[j]) as int == u;
                            assert(r@[j] as int == u);
                            assert(contains_node(r@, u));
                        }
                        if contains_node(r@, u) {
                            let j = choose|j: int|
                                0 <= j < r@.len() && (#[trigger] r@[j]) as int == u;
                            if j < r0.len() {
                                assert(r0[j] as int == u);
                                assert(contains_node(r0, u));
                            } else {
                                assert(r@[j] as int == w as int);
                                assert(false);
                            }
                        }
                    }
                }
            }
            w += 1;
        }
        proof {
            assert forall|v2: int|
                0 <= v2 < n implies (contains_node(r@, v2) <==> !entry_reaches(
                self.edges@,
                v2,
            )) by {
                if reached@[v2] {
                    assert(entry_reaches(self.edges@, v2));
                } else {
                    if entry_reaches(self.edges@, v2) {
                        let walk = choose|walk: Seq<usize>| entry_walk(self.edges@, walk, v2);
                        lemma_walk_stays_reached(
                            n as int,
                            self.edges@,
                            reached@,
                            walk,
                            walk.len() - 1,
                        );
                        assert(false);
                    }
                }
            }
        }
        r
    }
}

} // verus!
