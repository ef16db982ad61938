//! Directed graphs over node indices: acyclicity, level assignments, and
//! cycle extraction. A graph is a set of edges between nodes `0 .. n`.

use vstd::prelude::*;

verus! {

/// One resolved connection: node indices into the definition's node list,
/// together with the output slot it leaves from and the input slot it enters.
#[derive(Clone, Copy, PartialEq, Eq, Structural)]
pub struct Edge {
    pub from: usize,
    pub from_output: usize,
    pub to: usize,
    pub to_input: usize,
}

/// Every edge endpoint lies below `n`.
pub open spec fn edges_wf(n: int, edges: Seq<Edge>) -> bool {
    forall|i: int|
        0 <= i < edges.len() ==> (#[trigger] edges[i]).from < n && edges[i].to < n
}

/// There is an edge from `a` to `b`.
pub open spec fn has_edge(edges: Seq<Edge>, a: int, b: int) -> bool {
    exists|i: int|
        0 <= i < edges.len() && (#[trigger] edges[i]).from == a && edges[i].to == b
}

/// `v` has no incoming edge: it is an entry node.
pub open spec fn no_incoming(edges: Seq<Edge>, v: int) -> bool {
    forall|i: int| 0 <= i < edges.len() ==> (#[trigger] edges[i]).to != v
}

/// `rank` strictly increases along every edge.
pub open spec fn rank_ok(edges: Seq<Edge>, rank: Map<int, int>) -> bool {
    forall|i: int|
        0 <= i < edges.len() ==> rank[(#[trigger] edges[i]).from as int] < rank[edges[i].to as int]
}

/// The graph has no directed cycle: some rank strictly increases along
/// every edge. Such a rank exists exactly when no cycle does.
pub open spec fn acyclic(edges: Seq<Edge>) -> bool {
    exists|rank: Map<int, int>| rank_ok(edges, rank)
}

/// `path` walks along edges and returns to its starting node.
pub open spec fn is_cycle_path(edges: Seq<Edge>, path: Seq<usize>) -> bool {
    &&& path.len() >= 2
    &&& path[0] == path[path.len() - 1]
    &&& forall|i: int|
        0 <= i < path.len() - 1 ==> has_edge(edges, (#[trigger] path[i]) as int, path[i + 1] as int)
}

/// Along a walk that follows edges, any strictly increasing rank grows from
/// the first node to every later one.
proof fn lemma_rank_grows_along_path(
    edges: Seq<Edge>,
    path: Seq<usize>,
    rank: Map<int, int>,
    j: int,
)
    requires
        rank_ok(edges, rank),
        forall|i: int|
            0 <= i < path.len() - 1 ==> has_edge(
                edges,
                (#[trigger] path[i]) as int,
                path[i + 1] as int,
            ),
        1 <= j < path.len(),
    ensures
        rank[path[0] as int] < rank[path[j] as int],
    decreases j,
{
    if j > 1 {
        lemma_rank_grows_along_path(edges, path, rank, j - 1);
    }
    assert(has_edge(edges, path[j - 1] as int, path[j] as int));
    let pj = path[j] as int;
    let pk = path[j - 1] as int;
    let i = choose|i: int|
        0 <= i < edges.len() && (#[trigger] edges[i]).from == pk && edges[i].to == pj;
    assert(rank[edges[i].from as int] < rank[edges[i].to as int]);
}

/// A graph that contains a cycle admits no strictly increasing rank.
pub proof fn lemma_cycle_refutes_acyclic(edges: Seq<Edge>, path: Seq<usize>)
    requires
        is_cycle_path(edges, path),
    ensures
        !acyclic(edges),
{
    if acyclic(edges) {
        let rank = choose|rank: Map<int, int>| rank_ok(edges, rank);
        lemma_rank_grows_along_path(edges, path, rank, path.len() - 1);
    }
}

/// `lvl` maps each node to a topological level: levels strictly increase
/// along edges, an entry node sits at level zero, and a node at level
/// `k + 1` has some incoming edge from level `k` (levels are as small as
/// the dependencies allow).
pub open spec fn assign_ok(n: int, edges: Seq<Edge>, lvl: Seq<usize>) -> bool {
    &&& lvl.len() == n
    &&& forall|i: int|
        0 <= i < edges.len() ==> (lvl[(#[trigger] edges[i]).from as int] as int) < lvl[edges[i].to
            as int] as int
    &&& forall|v: int| 0 <= v < n && (#[trigger] lvl[v]) as int == 0 ==> no_incoming(edges, v)
    &&& forall|v: int|
        0 <= v < n && (#[trigger] lvl[v]) as int > 0 ==> exists|i: int|
            0 <= i < edges.len() && (#[trigger] edges[i]).to as int == v && lvl[edges[i].from
                as int] as int == lvl[v] as int - 1
}

/// `levels` lists, for each level index, the nodes assigned that level by
/// `lvl`, in ascending node order, and every level is populated.
pub open spec fn levels_match(n: int, lvl: Seq<usize>, levels: Seq<Vec<usize>>) -> bool {
    &&& forall|k: int, i: int|
        0 <= k < levels.len() && 0 <= i < levels[k]@.len() ==> (#[trigger] levels[k]@[i]) < n
            && lvl[levels[k]@[i] as int] as int == k
    &&& forall|v: int| 0 <= v < n ==> ((#[trigger] lvl[v]) as int) < levels.len()
    &&& forall|v: int| 0 <= v < n ==> contains_node(levels[(#[trigger] lvl[v]) as int]@, v)
    &&& forall|k: int, i: int, j: int|
        0 <= k < levels.len() && 0 <= i < j < levels[k]@.len() ==> #[trigger] levels[k]@[i]
            < #[trigger] levels[k]@[j]
    &&& forall|k: int| 0 <= k < levels.len() ==> (#[trigger] levels[k]@).len() > 0
}

/// A level assignment that strictly increases along edges is a rank, so the
/// graph is acyclic.
pub proof fn lemma_assignment_implies_acyclic(n: int, edges: Seq<Edge>, lvl: Seq<usize>)
    requires
        edges_wf(n, edges),
        lvl.len() == n,
        forall|i: int|
            0 <= i < edges.len() ==> (lvl[(#[trigger] edges[i]).from as int] as int) < lvl[edges[i].to
                as int] as int,
    ensures
        acyclic(edges),
{
    let rank = Map::<int, int>::new(
        |v: int| true,
        |v: int| if 0 <= v < n { lvl[v] as int } else { 0 },
    );
    assert forall|i: int| 0 <= i < edges.len() implies rank[(#[trigger] edges[i]).from as int]
        < rank[edges[i].to as int] by {
        assert(edges[i].from < n && edges[i].to < n);
    }
    assert(rank_ok(edges, rank));
}

/// `s` holds the node index `v`.
pub open spec fn contains_node(s: Seq<usize>, v: int) -> bool {
    exists|i: int| 0 <= i < s.len() && (#[trigger] s[i]) as int == v
}

/// All source nodes of edges into `v` are marked done.
pub open spec fn preds_done(done: Seq<bool>, edges: Seq<Edge>, v: int) -> bool {
    forall|i: int|
        0 <= i < edges.len() && (#[trigger] edges[i]).to == v ==> done[edges[i].from as int]
}

/// Whether every source of an edge into `v` is already marked done.
fn check_preds_done(done: &Vec<bool>, edges: &Vec<Edge>, v: usize) -> (r: bool)
    requires
        edges_wf(done@.len() as int, edges@),
    ensures
        r == preds_done(done@, edges@, v as int),
{
    let mut i: usize = 0;
    while i < edges.len()
        invariant
            0 <= i <= edges@.len(),
            edges_wf(done@.len() as int, edges@),
            forall|j: int|
                0 <= j < i && (#[trigger] edges@[j]).to == v as int ==> done@[edges@[j].from as int],
        decreases edges@.len() - i,
    {
        if edges[i].to == v && !done[edges[i].from] {
            assert(!preds_done(done@, edges@, v as int));
            return false;
        }
        i += 1;
    }
    true
}

/// The nodes of `cur`, in ascending order, are exactly the not-yet-done
/// nodes all of whose predecessors are done.
fn collect_ready(n: usize, edges: &Vec<Edge>, done: &Vec<bool>) -> (cur: Vec<usize>)
    requires
        done@.len() == n,
        edges_wf(n as int, edges@),
    ensures
        forall|v: int|
            0 <= v < n ==> (contains_node(cur@, v) <==> (!done@[v] && preds_done(
                done@,
                edges@,
                v,
            ))),
        forall|i: int| 0 <= i < cur@.len() ==> (#[trigger] cur@[i]) < n,
        forall|i: int, j: int| 0 <= i < j < cur@.len() ==> cur@[i] < cur@[j],
{
    let mut cur: Vec<usize> = Vec::new();
    let mut v: usize = 0;
    while v < n
        invariant
            0 <= v <= n,
            done@.len() == n,
            edges_wf(n as int, edges@),
            forall|u: int|
                0 <= u < v ==> (contains_node(cur@, u) <==> (!done@[u] && preds_done(
                    done@,
                    edges@,
                    u,
                ))),
            forall|i: int| 0 <= i < cur@.len() ==> (#[trigger] cur@[i]) < v,
            forall|i: int, j: int| 0 <= i < j < cur@.len() ==> cur@[i] < cur@[j],
        decreases n - v,
    {
        let ghost prev = cur@;
        let ready = !done[v] && check_preds_done(done, edges, v);
        if ready {
            cur.push(v);
            assert(cur@ =~= prev.push(v));
        }
        proof {
            assert forall|u: int|
                0 <= u < v + 1 implies (contains_node(cur@, u) <==> (!done@[u] && preds_done(
                done@,
                edges@,
                u,
            ))) by {
                if u == v as int {
                    if ready {
                        assert(cur@[cur@.len() - 1] as int == v as int);
                        assert(contains_node(cur@, u));
                    } else {
                        if contains_node(cur@, u) {
                            let i = choose|i: int|
                                0 <= i < cur@.len() && (#[trigger] cur@[i]) as int == u;
                            assert(cur@[i] < v);
                            assert(false);
                        }
                    }
                } else {
                    if contains_node(prev, u) {
                        let i = choose|i: int|
                            0 <= i < prev.len() && (#[trigger] prev[i]) as int == u;
                        assert(cur@[i] as int == u);
                        assert(contains_node(cur@, u));
                    }
                    if contains_node(cur@, u) {
                        let i = choose|i: int|
                            0 <= i < cur@.len() && (#[trigger] cur@[i]) as int == u;
                        if ready {
                            assert(cur@[cur@.len() - 1] as int == v as int);
                        }
                        assert(i < prev.len());
                        assert(prev[i] as int == u);
                        assert(contains_node(prev, u));
                    }
                }
            }
        }
        v += 1;
    }
    cur
}


/// `s` holds the node index `v` among its first `m` entries.
pub open spec fn contains_node_upto(s: Seq<usize>, m: int, v: int) -> bool {
    exists|i: int| 0 <= i < m && i < s.len() && (#[trigger] s[i]) as int == v
}

/// How many entries of `s` are still false.
pub open spec fn count_false(s: Seq<bool>) -> nat
    decreases s.len(),
{
    if s.len() == 0 {
        0
    } else {
        count_false(s.drop_last()) + if s.last() {
            0nat
        } else {
            1nat
        }
    }
}

pub(crate) proof fn lemma_count_false_update(s: Seq<bool>, i: int)
    requires
        0 <= i < s.len(),
        !s[i],
    ensures
        count_false(s.update(i, true)) + 1 == count_false(s),
    decreases s.len(),
{
    let t = s.update(i, true);
    if i == s.len() - 1 {
        assert(t.drop_last() =~= s.drop_last());
        assert(t.last());
        assert(!s.last());
    } else {
        assert(t.drop_last() =~= s.drop_last().update(i, true));
        lemma_count_false_update(s.drop_last(), i);
        assert(t.last() == s.last());
    }
}

proof fn lemma_count_false_pos(s: Seq<bool>, i: int)
    requires
        0 <= i < s.len(),
        !s[i],
    ensures
        count_false(s) >= 1,
    decreases s.len(),
{
    if i == s.len() - 1 {
        assert(!s.last());
    } else {
        lemma_count_false_pos(s.drop_last(), i);
    }
}

proof fn lemma_count_false_all(s: Seq<bool>)
    requires
        forall|i: int| 0 <= i < s.len() ==> !s[i],
    ensures
        count_false(s) == s.len(),
    decreases s.len(),
{
    if s.len() > 0 {
        assert(!s[s.len() - 1]);
        lemma_count_false_all(s.drop_last());
    }
}

/// A vector of `n` copies of `x`.
pub(crate) fn filled<T: Copy>(n: usize, x: T) -> (r: Vec<T>)
    ensures
        r@.len() == n,
        forall|i: int| 0 <= i < n ==> r@[i] == x,
{
    let mut r: Vec<T> = Vec::new();
    let mut i: usize = 0;
    while i < n
        invariant
            0 <= i <= n,
            r@.len() == i,
            forall|j: int| 0 <= j < i ==> r@[j] == x,
        decreases n - i,
    {
        r.push(x);
        i += 1;
    }
    r
}

/// Some source of an edge into `v` that is not yet done.
fn find_undone_pred(edges: &Vec<Edge>, done: &Vec<bool>, v: usize) -> (p: usize)
    requires
        edges_wf(done@.len() as int, edges@),
        !preds_done(done@, edges@, v as int),
    ensures
        p < done@.len(),
        !done@[p as int],
        has_edge(edges@, p as int, v as int),
{
    let mut i: usize = 0;
    while i < edges.len()
        invariant
            0 <= i <= edges@.len(),
            edges_wf(done@.len() as int, edges@),
            !preds_done(done@, edges@, v as int),
            forall|j: int|
                0 <= j < i && (#[trigger] edges@[j]).to == v as int ==> done@[edges@[j].from as int],
        decreases edges@.len() - i,
    {
        if edges[i].to == v && !done[edges[i].from] {
            return edges[i].from;
        }
        i += 1;
    }
    proof {
        assert(preds_done(done@, edges@, v as int));
    }
    0
}

/// The position of node `p` inside `trail`.
fn index_of_node(trail: &Vec<usize>, p: usize) -> (j: usize)
    requires
        contains_node(trail@, p as int),
    ensures
        j < trail@.len(),
        trail@[j as int] == p,
{
    let mut i: usize = 0;
    while i < trail.len()
        invariant
            0 <= i <= trail@.len(),
            contains_node(trail@, p as int),
            forall|j: int| 0 <= j < i ==> trail@[j] != p,
        decreases trail@.len() - i,
    {
        if trail[i] == p {
            return i;
        }
        i += 1;
    }
    proof {
        let w = choose|w: int| 0 <= w < trail@.len() && (#[trigger] trail@[w]) as int == p as int;
        assert(false);
    }
    0
}

/// Walks backwards through not-yet-done predecessors until a node repeats,
/// and returns the loop so closed, as evidence of a cycle.
fn find_cycle(n: usize, edges: &Vec<Edge>, done: &Vec<bool>) -> (path: Vec<usize>)
    requires
        done@.len() == n,
        edges_wf(n as int, edges@),
        exists|v: int| 0 <= v < n && !done@[v],
        forall|v: int| 0 <= v < n && !done@[v] ==> !preds_done(done@, edges@, v),
    ensures
        is_cycle_path(edges@, path@),
        !acyclic(edges@),
{
    let mut start: usize = 0;
    while start < n
        invariant
            0 <= start <= n,
            done@.len() == n,
            exists|v: int| 0 <= v < n && !done@[v],
            forall|j: int| 0 <= j < start ==> done@[j],
        ensures
            start < n,
            !done@[start as int],
        decreases n - start,
    {
        if !done[start] {
            break ;
        }
        start += 1;
    }
    let mut visited: Vec<bool> = filled(n, false);
    let mut trail: Vec<usize> = Vec::new();
    proof {
        lemma_count_false_all(visited@);
        lemma_count_false_update(visited@, start as int);
    }
    visited.set(start, true);
    trail.push(start);
    proof {
        assert(trail@.len() == 1);
        assert(trail@[0] == start);
        assert forall|u: int| 0 <= u < n implies (visited@[u] <==> contains_node(trail@, u)) by {
            if u == start as int {
                assert(trail@[0] as int == u);
                assert(contains_node(trail@, u));
            } else {
                if contains_node(trail@, u) {
                    let w = choose|w: int|
                        0 <= w < trail@.len() && (#[trigger] trail@[w]) as int == u;
                    assert(w == 0);
                    assert(false);
                }
            }
        }
    }
    loop
        invariant
            done@.len() == n,
            visited@.len() == n,
            edges_wf(n as int, edges@),
            forall|v: int| 0 <= v < n && !done@[v] ==> !preds_done(done@, edges@, v),
            trail@.len() >= 1,
            forall|t: int| 0 <= t < trail@.len() ==> (#[trigger] trail@[t]) < n,
            forall|t: int| 0 <= t < trail@.len() ==> !done@[trail@[t] as int],
            forall|u: int| 0 <= u < n ==> (visited@[u] <==> contains_node(trail@, u)),
            forall|t1: int, t2: int|
                0 <= t1 < t2 < trail@.len() ==> trail@[t1] != trail@[t2],
            forall|t: int|
                0 <= t < trail@.len() - 1 ==> has_edge(
                    edges@,
                    (#[trigger] trail@[t + 1]) as int,
                    trail@[t] as int,
                ),
            count_false(visited@) + trail@.len() == n,
        decreases count_false(visited@),
    {
        let cur = trail[trail.len() - 1];
        let p = find_undone_pred(edges, done, cur);
        if visited[p] {
            let j = index_of_node(&trail, p);
            let mut cyc: Vec<usize> = Vec::new();
            cyc.push(p);
            let mut t = trail.len();
            while t > j
                invariant
                    j <= t <= trail@.len(),
                    trail@.len() >= 1,
                    j < trail@.len(),
                    trail@[j as int] == p,
                    cyc@.len() == 1 + (trail@.len() - t),
                    cyc@[0] == p,
                    forall|s: int|
                        1 <= s < cyc@.len() ==> cyc@[s] == trail@[trail@.len() - s],
                    forall|tt: int| 0 <= tt < trail@.len() ==> (#[trigger] trail@[tt]) < n,
                    forall|tt: int|
                        0 <= tt < trail@.len() - 1 ==> has_edge(
                            edges@,
                            (#[trigger] trail@[tt + 1]) as int,
                            trail@[tt] as int,
                        ),
                    has_edge(edges@, p as int, trail@[trail@.len() - 1] as int),
                decreases t,
            {
                t -= 1;
                cyc.push(trail[t]);
            }
            proof {
                assert(cyc@.len() == 1 + (trail@.len() - j));
                assert(cyc@.len() >= 2);
                assert(cyc@[cyc@.len() - 1] == trail@[j as int]);
                assert forall|i: int| 0 <= i < cyc@.len() - 1 implies has_edge(
                    edges@,
                    (#[trigger] cyc@[i]) as int,
                    cyc@[i + 1] as int,
                ) by {
                    if i == 0 {
                        assert(cyc@[1] == trail@[trail@.len() - 1]);
                    } else {
                        let tt = trail@.len() - i - 1;
                        assert(cyc@[i] == trail@[tt + 1]);
                        assert(cyc@[i + 1] == trail@[tt]);
                    }
                }
                assert(is_cycle_path(edges@, cyc@));
                lemma_cycle_refutes_acyclic(edges@, cyc@);
            }
            return cyc;
        } else {
            proof {
                lemma_count_false_pos(visited@, p as int);
                lemma_count_false_update(visited@, p as int);
            }
            let ghost old_trail = trail@;
            visited.set(p, true);
            trail.push(p);
            proof {
                assert forall|u: int| 0 <= u < n implies (visited@[u] <==> contains_node(
                    trail@,
                    u,
                )) by {
                    if u == p as int {
                        assert(trail@[trail@.len() - 1] as int == u);
                        assert(contains_node(trail@, u));
                    } else {
                        if contains_node(old_trail, u) {
                            let w = choose|w: int|
                                0 <= w < old_trail.len() && (#[trigger] old_trail[w]) as int == u;
                            assert(trail@[w] as int == u);
                            assert(contains_node(trail@, u));
                        }
                        if contains_node(trail@, u) {
                            let w = choose|w: int|
                                0 <= w < trail@.len() && (#[trigger] trail@[w]) as int == u;
                            assert(trail@[trail@.len() - 1] as int == p as int);
                            assert(w < old_trail.len());
                            assert(old_trail[w] as int == u);
                            assert(contains_node(old_trail, u));
                        }
                    }
                }
            }
        }
    }
}

/// Groups the nodes `0 .. n` into topological levels over `edges`, or, if
/// the graph has a cycle, returns one such cycle. On success the second
/// component maps each node to its level index.
pub fn levels_or_cycle(n: usize, edges: &Vec<Edge>) -> (r: Result<
    (Vec<Vec<usize>>, Vec<usize>),
    Vec<usize>,
>)
    requires
        edges_wf(n as int, edges@),
    ensures
        match r {
            Ok(p) => {
                &&& assign_ok(n as int, edges@, p.1@)
                &&& levels_match(n as int, p.1@, p.0@)
                &&& acyclic(edges@)
            },
            Err(path) => is_cycle_path(edges@, path@) && !acyclic(edges@),
        },
{
    let mut done: Vec<bool> = filled(n, false);
    let mut lvl: Vec<usize> = filled(n, 0);
    let mut levels: Vec<Vec<usize>> = Vec::new();
    loop
        invariant
            done@.len() == n,
            lvl@.len() == n,
            edges_wf(n as int, edges@),
            forall|v: int|
                0 <= v < n && done@[v] ==> ((#[trigger] lvl@[v]) as int) < levels@.len(),
            forall|k: int, i: int|
                0 <= k < levels@.len() && 0 <= i < levels@[k]@.len() ==> (#[trigger] levels@[k]@[i])
                    < n && done@[levels@[k]@[i] as int] && lvl@[levels@[k]@[i] as int] as int == k,
            forall|v: int|
                0 <= v < n && done@[v] ==> contains_node(
                    levels@[(#[trigger] lvl@[v]) as int]@,
                    v,
                ),
            forall|k: int, i: int, j: int|
                0 <= k < levels@.len() && 0 <= i < j < levels@[k]@.len() ==> #[trigger] levels@[k]@[i]
                    < #[trigger] levels@[k]@[j],
            forall|k: int| 0 <= k < levels@.len() ==> (#[trigger] levels@[k]@).len() > 0,
            forall|i: int|
                0 <= i < edges@.len() && done@[(#[trigger] edges@[i]).to as int] ==> done@[edges@[i].from as int]
                    && (lvl@[edges@[i].from as int] as int) < lvl@[edges@[i].to as int] as int,
            forall|v: int|
                0 <= v < n && done@[v] && (#[trigger] lvl@[v]) as int == 0 ==> no_incoming(edges@, v),
            forall|v: int|
                0 <= v < n && done@[v] && (#[trigger] lvl@[v]) as int > 0 ==> exists|i: int|
                    0 <= i < edges@.len() && (#[trigger] edges@[i]).to as int == v
                        && done@[edges@[i].from as int] && lvl@[edges@[i].from as int] as int
                        == lvl@[v] as int - 1,
            levels@.len() > 0 ==> forall|v: int|
                0 <= v < n && !done@[v] ==> exists|i: int|
                    0 <= i < edges@.len() && (#[trigger] edges@[i]).to as int == v && (
                    !done@[edges@[i].from as int] || lvl@[edges@[i].from as int] as int
                        == levels@.len() - 1),
        ensures
            done@.len() == n,
            lvl@.len() == n,
            forall|v: int|
                0 <= v < n && done@[v] ==> ((#[trigger] lvl@[v]) as int) < levels@.len(),
            forall|k: int, i: int|
                0 <= k < levels@.len() && 0 <= i < levels@[k]@.len() ==> (#[trigger] levels@[k]@[i])
                    < n && done@[levels@[k]@[i] as int] && lvl@[levels@[k]@[i] as int] as int == k,
            forall|v: int|
                0 <= v < n && done@[v] ==> contains_node(
                    levels@[(#[trigger] lvl@[v]) as int]@,
                    v,
                ),
            forall|k: int, i: int, j: int|
                0 <= k < levels@.len() && 0 <= i < j < levels@[k]@.len() ==> #[trigger] levels@[k]@[i]
                    < #[trigger] levels@[k]@[j],
            forall|k: int| 0 <= k < levels@.len() ==> (#[trigger] levels@[k]@).len() > 0,
            forall|i: int|
                0 <= i < edges@.len() && done@[(#[trigger] edges@[i]).to as int] ==> done@[edges@[i].from as int]
                    && (lvl@[edges@[i].from as int] as int) < lvl@[edges@[i].to as int] as int,
            forall|v: int|
                0 <= v < n && done@[v] && (#[trigger] lvl@[v]) as int == 0 ==> no_incoming(edges@, v),
            forall|v: int|
                0 <= v < n && done@[v] && (#[trigger] lvl@[v]) as int > 0 ==> exists|i: int|
                    0 <= i < edges@.len() && (#[trigger] edges@[i]).to as int == v
                        && done@[edges@[i].from as int] && lvl@[edges@[i].from as int] as int
                        == lvl@[v] as int - 1,
            forall|v: int| 0 <= v < n && !done@[v] ==> !preds_done(done@, edges@, v),
        decreases count_false(done@),
    {
        let cur = collect_ready(n, edges, &done);
        if cur.len() == 0 {
            proof {
                assert forall|v: int|
                    0 <= v < n && !done@[v] implies !preds_done(done@, edges@, v) by {
                    if preds_done(done@, edges@, v) {
                        assert(contains_node(cur@, v));
                        let w = choose|w: int|
                            0 <= w < cur@.len() && (#[trigger] cur@[w]) as int == v;
                        assert(false);
                    }
                }
            }
            break ;
        }
        let ghost done0 = done@;
        let ghost lvl0 = lvl@;
        let k = levels.len();
        let mut idx: usize = 0;
        while idx < cur.len()
            invariant
                0 <= idx <= cur@.len(),
                done@.len() == n,
                lvl@.len() == n,
                done0.len() == n,
                lvl0.len() == n,
                k == levels@.len(),
                edges_wf(n as int, edges@),
                forall|i: int| 0 <= i < cur@.len() ==> (#[trigger] cur@[i]) < n,
                forall|i: int, j: int| 0 <= i < j < cur@.len() ==> cur@[i] < cur@[j],
                forall|v: int|
                    0 <= v < n ==> (contains_node(cur@, v) <==> (!done0[v] && preds_done(
                        done0,
                        edges@,
                        v,
                    ))),
                forall|u: int|
                    0 <= u < n ==> (done@[u] <==> (done0[u] || contains_node_upto(
                        cur@,
                        idx as int,
                        u,
                    ))),
                forall|u: int|
                    0 <= u < n && !contains_node_upto(cur@, idx as int, u) ==> lvl@[u] == lvl0[u],
                forall|u: int|
                    0 <= u < n && contains_node_upto(cur@, idx as int, u) ==> (#[trigger] lvl@[u])
                        as int == k,
                count_false(done@) + idx == count_false(done0),
            decreases cur@.len() - idx,
        {
            let v = cur[idx];
            proof {
                assert(contains_node(cur@, v as int));
                assert(!done0[v as int]);
                if contains_node_upto(cur@, idx as int, v as int) {
                    let w = choose|w: int|
                        0 <= w < idx && w < cur@.len() && (#[trigger] cur@[w]) as int == v as int;
                    assert(cur@[w] < cur@[idx as int]);
                    assert(false);
                }
                assert(!done@[v as int]);
                lemma_count_false_update(done@, v as int);
            }
            let ghost dmid = done@;
            proof {
                assert(forall|u: int|
                    0 <= u < n ==> (dmid[u] <==> (done0[u] || contains_node_upto(
                        cur@,
                        idx as int,
                        u,
                    ))));
            }
            done.set(v, true);
            lvl.set(v, k);
            let idx1 = idx + 1;
            proof {
                assert(forall|u: int|
                    0 <= u < n ==> (dmid[u] <==> (done0[u] || contains_node_upto(
                        cur@,
                        idx as int,
                        u,
                    ))));
            }
            proof {
                assert(idx1 as int == idx + 1);
                assert forall|u: int|
                    0 <= u < n implies (done@[u] <==> (done0[u] || contains_node_upto(
                    cur@,
                    idx1 as int,
                    u,
                ))) by {
                    assert(contains_node_upto(cur@, idx1 as int, u) == contains_node_upto(
                        cur@,
                        idx + 1,
                        u,
                    ));
                    if u == v as int {
                        assert(cur@[idx as int] as int == u);
                        assert(done@[u]);
                        assert(contains_node_upto(cur@, idx + 1, u));
                    } else {
                        assert(done@[u] == dmid[u]);
                        if contains_node_upto(cur@, idx + 1, u) {
                            let w = choose|w: int|
                                0 <= w < idx + 1 && w < cur@.len() && (#[trigger] cur@[w]) as int
                                    == u;
                            assert(cur@[idx as int] as int == v as int);
                            assert(w != idx);
                            assert(0 <= w < idx && w < cur@.len() && cur@[w] as int == u);
                            assert(contains_node_upto(cur@, idx as int, u));
                        }
                        if contains_node_upto(cur@, idx as int, u) {
                            let w = choose|w: int|
                                0 <= w < idx && w < cur@.len() && (#[trigger] cur@[w]) as int == u;
                            assert(0 <= w < idx + 1 && w < cur@.len() && cur@[w] as int == u);
                            assert(contains_node_upto(cur@, idx + 1, u));
                        }
                    }
                }
                assert forall|u: int|
                    0 <= u < n && !contains_node_upto(cur@, idx1 as int, u) implies lvl@[u]
                    == lvl0[u] by {
                    assert(contains_node_upto(cur@, idx1 as int, u) == contains_node_upto(
                        cur@,
                        idx + 1,
                        u,
                    ));
                    assert(cur@[idx as int] as int == v as int);
                    assert(u != v as int);
                    if contains_node_upto(cur@, idx as int, u) {
                        let w = choose|w: int|
                            0 <= w < idx && w < cur@.len() && (#[trigger] cur@[w]) as int == u;
                        assert(0 <= w < idx + 1 && w < cur@.len() && cur@[w] as int == u);
                        assert(contains_node_upto(cur@, idx + 1, u));
                        assert(false);
                    }
                    assert(lvl@[u] == lvl0[u]);
                }
                assert forall|u: int|
                    0 <= u < n && contains_node_upto(cur@, idx1 as int, u) implies (
                #[trigger] lvl@[u]) as int == k by {
                    assert(contains_node_upto(cur@, idx1 as int, u) == contains_node_upto(
                        cur@,
                        idx + 1,
                        u,
                    ));
                    if u != v as int {
                        let w = choose|w: int|
                            0 <= w < idx + 1 && w < cur@.len() && (#[trigger] cur@[w]) as int == u;
                        assert(cur@[idx as int] as int == v as int);
                        assert(w != idx);
                        assert(0 <= w < idx && w < cur@.len() && cur@[w] as int == u);
                        assert(contains_node_upto(cur@, idx as int, u));
                        assert(lvl@[u] == lvl0[u] || lvl@[u] as int == k);
                    }
                }
            }
            idx = idx1;
        }
        let ghost curv = cur@;
        let ghost levels0 = levels@;
        levels.push(cur);
        proof {
            assert(levels@[levels@.len() - 1]@ =~= curv);
            assert(levels@.len() == k + 1);
            if curv.len() == 0 {
                assert(false);
            }
            // every node now done is either previously placed or sits in the new level
            assert forall|v: int|
                0 <= v < n && done@[v] implies contains_node(
                levels@[(#[trigger] lvl@[v]) as int]@,
                v,
            ) && ((lvl@[v] as int) < levels@.len()) by {
                if done0[v] {
                    assert(!contains_node(curv, v));
                    if contains_node_upto(curv, curv.len() as int, v) {
                        assert(contains_node(curv, v));
                    }
                    assert(lvl@[v] == lvl0[v]);
                    assert(levels@[lvl@[v] as int]@ == levels0[lvl@[v] as int]@);
                } else {
                    assert(contains_node_upto(curv, curv.len() as int, v));
                    assert(contains_node(curv, v));
                    assert(lvl@[v] as int == k);
                }
            }
            // edge condition for the enlarged done set
            assert forall|i: int|
                0 <= i < edges@.len() && done@[(#[trigger] edges@[i]).to as int] implies done@[edges@[i].from as int]
                && (lvl@[edges@[i].from as int] as int) < lvl@[edges@[i].to as int] as int by {
                let a = edges@[i].from as int;
                let b = edges@[i].to as int;
                if done0[b] {
                    assert(!contains_node(curv, a)) by {
                        if contains_node(curv, a) {
                            assert(!done0[a]);
                            assert(done0[a]);
                        }
                    }
                    if contains_node_upto(curv, curv.len() as int, a) {
                        assert(contains_node(curv, a));
                    }
                    assert(lvl@[a] == lvl0[a] && lvl@[b] == lvl0[b]);
                } else {
                    assert(contains_node_upto(curv, curv.len() as int, b));
                    assert(contains_node(curv, b));
                    assert(preds_done(done0, edges@, b));
                    assert(done0[a]);
                    assert(!contains_node(curv, a)) by {
                        if contains_node(curv, a) {
                            assert(!done0[a]);
                        }
                    }
                    if contains_node_upto(curv, curv.len() as int, a) {
                        assert(contains_node(curv, a));
                    }
                    assert(lvl@[a] == lvl0[a]);
                    assert((lvl0[a] as int) < k);
                    assert(lvl@[b] as int == k);
                }
            }
            // a node placed at level zero has no predecessors at all
            assert forall|v: int|
                0 <= v < n && done@[v] && (#[trigger] lvl@[v]) as int == 0 implies no_incoming(
                edges@,
                v,
            ) by {
                if done0[v] {
                    assert(lvl@[v] == lvl0[v]);
                } else {
                    assert(contains_node_upto(curv, curv.len() as int, v));
                    assert(contains_node(curv, v));
                    assert(lvl@[v] as int == k);
                    if k == 0 {
                        assert(preds_done(done0, edges@, v));
                        assert forall|i: int|
                            0 <= i < edges@.len() implies (#[trigger] edges@[i]).to != v as usize
                            by {
                            if edges@[i].to as int == v {
                                assert(done0[edges@[i].from as int]);
                                assert((lvl0[edges@[i].from as int] as int) < 0);
                            }
                        }
                    }
                }
            }
            // a node placed at a later level has a predecessor one level below
            assert forall|v: int|
                0 <= v < n && done@[v] && (#[trigger] lvl@[v]) as int > 0 implies exists|i: int|
                0 <= i < edges@.len() && (#[trigger] edges@[i]).to as int == v
                    && done@[edges@[i].from as int] && lvl@[edges@[i].from as int] as int == lvl@[v]
                    as int - 1 by {
                if done0[v] {
                    assert(lvl@[v] == lvl0[v]);
                    let i = choose|i: int|
                        0 <= i < edges@.len() && (#[trigger] edges@[i]).to as int == v
                            && done0[edges@[i].from as int] && lvl0[edges@[i].from as int] as int
                            == lvl0[v] as int - 1;
                    let a = edges@[i].from as int;
                    assert(!contains_node(curv, a)) by {
                        if contains_node(curv, a) {
                            assert(!done0[a]);
                        }
                    }
                    if contains_node_upto(curv, curv.len() as int, a) {
                        assert(contains_node(curv, a));
                    }
                    assert(lvl@[a] == lvl0[a]);
                    assert(done@[a]);
                    assert(0 <= i < edges@.len() && edges@[i].to as int == v && done@[edges@[i].from
                        as int] && lvl@[edges@[i].from as int] as int == lvl@[v] as int - 1);
                } else {
                    assert(contains_node_upto(curv, curv.len() as int, v));
                    assert(contains_node(curv, v));
                    assert(lvl@[v] as int == k);
                    assert(k > 0);
                    assert(!done0[v]);
                    let i = choose|i: int|
                        0 <= i < edges@.len() && (#[trigger] edges@[i]).to as int == v && (
                        !done0[edges@[i].from as int] || lvl0[edges@[i].from as int] as int == k
                            - 1);
                    let a = edges@[i].from as int;
                    assert(preds_done(done0, edges@, v));
                    assert(done0[a]);
                    assert(lvl0[a] as int == k - 1);
                    assert(!contains_node(curv, a)) by {
                        if contains_node(curv, a) {
                            assert(!done0[a]);
                        }
                    }
                    if contains_node_upto(curv, curv.len() as int, a) {
                        assert(contains_node(curv, a));
                    }
                    assert(lvl@[a] == lvl0[a]);
                    assert(0 <= i < edges@.len() && edges@[i].to as int == v && done@[edges@[i].from
                        as int] && lvl@[edges@[i].from as int] as int == lvl@[v] as int - 1);
                }
            }
            // every node still waiting is blocked on the frontier just placed
            assert forall|v: int| 0 <= v < n && !done@[v] implies exists|i: int|
                0 <= i < edges@.len() && (#[trigger] edges@[i]).to as int == v && (
                !done@[edges@[i].from as int] || lvl@[edges@[i].from as int] as int == levels@.len()
                    - 1) by {
                assert(!done0[v]);
                assert(!contains_node(curv, v)) by {
                    if contains_node_upto(curv, curv.len() as int, v) {
                        assert(contains_node(curv, v));
                    }
                }
                assert(!preds_done(done0, edges@, v));
                let i = choose|i: int|
                    0 <= i < edges@.len() && (#[trigger] edges@[i]).to as int == v as int
                        && !done0[edges@[i].from as int];
                let a = edges@[i].from as int;
                if done@[a] {
                    assert(contains_node_upto(curv, curv.len() as int, a));
                    assert(contains_node(curv, a));
                    assert(lvl@[a] as int == k);
                }
                assert(0 <= i < edges@.len() && edges@[i].to as int == v && (!done@[a] || lvl@[a]
                    as int == levels@.len() - 1));
            }
        }
    }
    // the rounds have stopped: either every node is placed, or a cycle blocks
    let mut all: usize = 0;
    while all < n
        invariant
            0 <= all <= n,
            done@.len() == n,
            edges_wf(n as int, edges@),
            forall|v: int| 0 <= v < n && !done@[v] ==> !preds_done(done@, edges@, v),
            forall|j: int| 0 <= j < all ==> done@[j],
        decreases n - all,
    {
        if !done[all] {
            proof {
                assert(0 <= all < n && !done@[all as int]);
            }
            let path = find_cycle(n, edges, &done);
            return Err(path);
        }
        all += 1;
    }
    proof {
        assert forall|i: int|
            0 <= i < edges@.len() implies (lvl@[(#[trigger] edges@[i]).from as int] as int)
            < lvl@[edges@[i].to as int] as int by {
            assert(done@[edges@[i].to as int]);
        }
        assert forall|v: int|
            0 <= v < n && (#[trigger] lvl@[v]) as int > 0 implies exists|i: int|
            0 <= i < edges@.len() && (#[trigger] edges@[i]).to as int == v && lvl@[edges@[i].from
                as int] as int == lvl@[v] as int - 1 by {
            assert(done@[v]);
            let i = choose|i: int|
                0 <= i < edges@.len() && (#[trigger] edges@[i]).to as int == v
                    && done@[edges@[i].from as int] && lvl@[edges@[i].from as int] as int == lvl@[v]
                    as int - 1;
            assert(0 <= i < edges@.len() && edges@[i].to as int == v && lvl@[edges@[i].from
                as int] as int == lvl@[v] as int - 1);
        }
        assert(assign_ok(n as int, edges@, lvl@));
        assert(levels_match(n as int, lvl@, levels@));
        lemma_assignment_implies_acyclic(n as int, edges@, lvl@);
    }
    Ok((levels, lvl))
}

/// Level assignments are unique: any two assignments that both satisfy
/// `assign_ok` give every node the same level.
pub proof fn lemma_assign_agree(n: int, edges: Seq<Edge>, l1: Seq<usize>, l2: Seq<usize>, v: int)
    requires
        edges_wf(n, edges),
        assign_ok(n, edges, l1),
        assign_ok(n, edges, l2),
        0 <= v < n,
    ensures
        l1[v] == l2[v],
    decreases l1[v],
{
    let k = l1[v] as int;
    if k == 0 {
        assert(no_incoming(edges, v));
        if l2[v] as int > 0 {
            let i = choose|i: int|
                0 <= i < edges.len() && (#[trigger] edges[i]).to as int == v && l2[edges[i].from
                    as int] as int == l2[v] as int - 1;
            assert(edges[i].to != v);
        }
    } else {
        let i = choose|i: int|
            0 <= i < edges.len() && (#[trigger] edges[i]).to as int == v && l1[edges[i].from
                as int] as int == l1[v] as int - 1;
        let a = edges[i].from as int;
        assert((l1[a] as int) < k);
        lemma_assign_agree(n, edges, l1, l2, a);
        assert(l2[v] as int > l2[a] as int);
        assert(l2[v] as int >= k);
        if l2[v] as int > k {
            let i2 = choose|i2: int|
                0 <= i2 < edges.len() && (#[trigger] edges[i2]).to as int == v && l2[edges[i2].from
                    as int] as int == l2[v] as int - 1;
            let b = edges[i2].from as int;
            assert((l1[b] as int) < k);
            lemma_assign_agree(n, edges, l1, l2, b);
            assert(l2[b] as int == l1[b] as int);
            assert(l2[b] as int >= k);
            assert(false);
        }
    }
}

/// Two strictly ascending sequences with the same members are equal.
proof fn lemma_sorted_same_members(a: Seq<usize>, b: Seq<usize>)
    requires
        forall|i: int, j: int| 0 <= i < j < a.len() ==> a[i] < a[j],
        forall|i: int, j: int| 0 <= i < j < b.len() ==> b[i] < b[j],
        forall|v: int| contains_node(a, v) <==> contains_node(b, v),
    ensures
        a =~= b,
    decreases a.len(),
{
    if a.len() == 0 {
        if b.len() > 0 {
            assert(contains_node(b, b[0] as int));
            let w = choose|w: int| 0 <= w < a.len() && (#[trigger] a[w]) as int == b[0] as int;
            assert(false);
        }
    } else {
        assert(contains_node(a, a[0] as int));
        if b.len() == 0 {
            let w = choose|w: int| 0 <= w < b.len() && (#[trigger] b[w]) as int == a[0] as int;
            assert(false);
        }
        // the heads agree: each head is a member of the other sequence,
        // and each sequence's head is its least member
        let wa = choose|w: int| 0 <= w < b.len() && (#[trigger] b[w]) as int == a[0] as int;
        assert(b[0] <= b[wa]);
        assert(contains_node(b, b[0] as int));
        let wb = choose|w: int| 0 <= w < a.len() && (#[trigger] a[w]) as int == b[0] as int;
        assert(a[0] <= a[wb]);
        assert(a[0] == b[0]);
        let ta = a.drop_first();
        let tb = b.drop_first();
        assert forall|v: int| contains_node(ta, v) <==> contains_node(tb, v) by {
            if contains_node(ta, v) {
                let w = choose|w: int| 0 <= w < ta.len() && (#[trigger] ta[w]) as int == v;
                assert(a[w + 1] as int == v);
                assert(a[0] < a[w + 1]);
                assert(contains_node(a, v));
                let w2 = choose|w: int| 0 <= w < b.len() && (#[trigger] b[w]) as int == v;
                assert(w2 != 0);
                assert(tb[w2 - 1] as int == v);
                assert(contains_node(tb, v));
            }
            if contains_node(tb, v) {
                let w = choose|w: int| 0 <= w < tb.len() && (#[trigger] tb[w]) as int == v;
                assert(b[w + 1] as int == v);
                assert(b[0] < b[w + 1]);
                assert(contains_node(b, v));
                let w2 = choose|w: int| 0 <= w < a.len() && (#[trigger] a[w]) as int == v;
                assert(w2 != 0);
                assert(ta[w2 - 1] as int == v);
                assert(contains_node(ta, v));
            }
        }
        lemma_sorted_same_members(ta, tb);
        assert(a =~= b) by {
            assert(a.len() == ta.len() + 1);
            assert(b.len() == tb.len() + 1);
            assert(forall|i: int| 1 <= i < a.len() ==> a[i] == ta[i - 1] && b[i] == tb[i - 1]);
        }
    }
}

/// Planning is deterministic: for one graph there is exactly one family of
/// levels that satisfies the planner's contract, so repeated planning of the
/// same definition yields identical level groupings and orderings.
pub proof fn lemma_plan_deterministic(
    n: int,
    edges: Seq<Edge>,
    l1: Seq<usize>,
    levels1: Seq<Vec<usize>>,
    l2: Seq<usize>,
    levels2: Seq<Vec<usize>>,
)
    requires
        edges_wf(n, edges),
        assign_ok(n, edges, l1),
        levels_match(n, l1, levels1),
        assign_ok(n, edges, l2),
        levels_match(n, l2, levels2),
    ensures
        l1 =~= l2,
        forall|k: int| 0 <= k < levels1.len() ==> (#[trigger] levels1[k])@ =~= levels2[k]@,
        levels1.len() == levels2.len(),
{
    assert forall|v: int| 0 <= v < n implies l1[v] == l2[v] by {
        lemma_assign_agree(n, edges, l1, l2, v);
    }
    assert(l1 =~= l2);
    // the two families have the same number of levels: each level is
    // populated, and every level index is some node's level
    assert(levels1.len() == levels2.len()) by {
        if levels1.len() < levels2.len() {
            let k = levels2.len() - 1;
            assert(levels2[k]@.len() > 0);
            let v = levels2[k]@[0];
            assert(l2[v as int] as int == k);
            assert((l1[v as int] as int) < levels1.len());
            assert(false);
        }
        if levels2.len() < levels1.len() {
            let k = levels1.len() - 1;
            assert(levels1[k]@.len() > 0);
            let v = levels1[k]@[0];
            assert(l1[v as int] as int == k);
            assert((l2[v as int] as int) < levels2.len());
            assert(false);
        }
    }
    assert forall|k: int| 0 <= k < levels1.len() implies (#[trigger] levels1[k])@ =~= levels2[k]@
        by {
        assert forall|v: int|
            contains_node(levels1[k]@, v) <==> contains_node(levels2[k]@, v) by {
            if contains_node(levels1[k]@, v) {
                let w = choose|w: int|
                    0 <= w < levels1[k]@.len() && (#[trigger] levels1[k]@[w]) as int == v;
                assert(0 <= v < n && l1[v] as int == k);
                assert(l2[v] as int == k);
                assert(contains_node(levels2[(l2[v as int]) as int]@, v));
            }
            if contains_node(levels2[k]@, v) {
                let w = choose|w: int|
                    0 <= w < levels2[k]@.len() && (#[trigger] levels2[k]@[w]) as int == v;
                assert(0 <= v < n && l2[v] as int == k);
                assert(l1[v] as int == k);
                assert(contains_node(levels1[(l1[v as int]) as int]@, v));
            }
        }
        lemma_sorted_same_members(levels1[k]@, levels2[k]@);
    }
}

}
