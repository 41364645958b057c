//! Audio-graph topology and its compilation into an executable schedule.
//!
//! A [`Topology`] records, for every node, the producers feeding its inputs
//! in connection order. Compiling it yields a [`Schedule`]: a topological
//! task order (Kahn's algorithm, cycle detection) with liveness-analyzed
//! buffer assignment, so that a buffer is recycled after its last reader.
//! The processing nodes themselves are owned by the host engine, which runs
//! the tasks in schedule order.

use vstd::prelude::*;

verus! {

broadcast use vstd::seq_lib::lemma_seq_contains_after_push;

/// Identifies a node within one [`Topology`].
#[derive(Debug, Clone, Copy, PartialEq, Eq, Structural, Hash)]
pub struct NodeId(usize);

impl NodeId {
    /// The node's position in its topology.
    pub closed spec fn index(self) -> usize {
        self.0
    }

    /// The node's position in its topology.
    pub fn get(self) -> (r: usize)
        ensures
            r == self.index(),
    {
        self.0
    }
}

/// Errors from graph construction and compilation.
#[derive(Debug, Clone, Copy, PartialEq, Eq, Structural)]
pub enum GraphError {
    /// A node id did not belong to this graph.
    UnknownNode,
    /// The graph contains a cycle.
    Cycle,
}

impl GraphError {
    /// Human-readable description.
    pub fn message(&self) -> (r: &'static str)
        ensures
            *self is UnknownNode ==> r@ == "unknown node id"@,
            *self is Cycle ==> r@ == "graph contains a cycle"@,
    {
        match self {
            GraphError::UnknownNode => "unknown node id",
            GraphError::Cycle => "graph contains a cycle",
        }
    }
}

/// The producer lists of `v`, as sequences.
pub open spec fn nested(v: Seq<Vec<usize>>) -> Seq<Seq<usize>> {
    v.map_values(|x: Vec<usize>| x@)
}

/// Every producer named by `ins` is a node of the graph.
pub open spec fn wired(ins: Seq<Seq<usize>>) -> bool {
    forall|c: int, k: int| 0 <= c < ins.len() && 0 <= k < ins[c].len() ==> #[trigger] ins[c][k] < ins.len()
}

/// `order` lists every node, and every producer of a node comes before it.
pub open spec fn topo_order(ins: Seq<Seq<usize>>, order: Seq<usize>) -> bool {
    &&& order.len() == ins.len()
    &&& forall|i: int| 0 <= i < order.len() ==> #[trigger] order[i] < ins.len()
    &&& forall|v: usize| v < ins.len() ==> #[trigger] order.contains(v)
    &&& forall|j: int, k: int|
        0 <= j < order.len() && 0 <= k < ins[order[j] as int].len() ==> #[trigger] order.subrange(0, j).contains(
            #[trigger] ins[order[j] as int][k],
        )
}

/// The graph has no cycle: some order of its nodes respects every edge.
pub open spec fn acyclic(ins: Seq<Seq<usize>>) -> bool {
    exists|order: Seq<usize>| topo_order(ins, order)
}

/// One step of a schedule: run `node`, reading `input_buffers` (one per
/// input, in connection order) and writing `output_buffer`.
#[derive(Debug)]
pub struct Task {
    /// The node to run.
    pub node: usize,
    /// The buffer holding each input's producer output.
    pub input_buffers: Vec<usize>,
    /// The buffer the node writes.
    pub output_buffer: usize,
}

/// A compiled schedule over a pool of `pool_size` buffers.
#[derive(Debug)]
pub struct Schedule {
    /// Tasks in execution order.
    pub tasks: Vec<Task>,
    /// Number of buffers the tasks use.
    pub pool_size: usize,
    /// The buffer holding the sink's output after the last task.
    pub sink_buffer: usize,
}

/// The node order of a schedule.
pub open spec fn task_nodes(tasks: Seq<Task>) -> Seq<usize> {
    tasks.map_values(|t: Task| t.node)
}

/// Input `k` of task `m` reads the buffer written by an earlier task that
/// ran the producer connected there.
pub open spec fn input_from(t: Seq<Task>, ins: Seq<Seq<usize>>, m: int, k: int) -> bool {
    exists|i: int|
        0 <= i < m && #[trigger] t[i].node == ins[t[m].node as int][k] && t[m].input_buffers@[k] == t[i].output_buffer
}

/// Some task writes buffer `b`.
pub open spec fn buffer_used(t: Seq<Task>, b: usize) -> bool {
    exists|m: int| 0 <= m < t.len() && #[trigger] t[m].output_buffer == b
}

/// Task `i`'s output is still held at step `m`: it is the sink's, a task
/// from `m` on reads it, or no task reads it at all (such a buffer is never
/// recycled).
pub open spec fn held(ins: Seq<Seq<usize>>, sink: usize, t: Seq<Task>, i: int, m: int) -> bool {
    ||| t[i].node == sink
    ||| exists|r: int| m <= r < t.len() && #[trigger] ins[t[r].node as int].contains(t[i].node)
    ||| forall|r: int| 0 <= r < t.len() ==> !#[trigger] ins[t[r].node as int].contains(t[i].node)
}

/// Buffer `b` is the output of a task before step `m` that is still held
/// at `m`.
pub open spec fn held_buffer(ins: Seq<Seq<usize>>, sink: usize, t: Seq<Task>, b: usize, m: int) -> bool {
    exists|i: int| 0 <= i < m && #[trigger] t[i].output_buffer == b && held(ins, sink, t, i, m)
}

/// Task `m` writes a buffer that no earlier task wrote.
pub open spec fn fresh_buffer(t: Seq<Task>, m: int) -> bool {
    forall|i: int| 0 <= i < m ==> #[trigger] t[i].output_buffer != t[m].output_buffer
}

/// What a compiled schedule promises: a topological task order; every input
/// reads the buffer its producer wrote; buffers lie in the pool and each is
/// used; the sink buffer is the sink's output; no buffer is overwritten while
/// a later task still has to read it, nor after the sink wrote it; and a
/// task takes a buffer that no earlier task wrote only when every buffer
/// numbered below it is still held, so that buffers are recycled as soon as
/// their last reader has run.
pub open spec fn schedule_valid(ins: Seq<Seq<usize>>, sink: usize, s: Schedule) -> bool {
    let t = s.tasks@;
    &&& topo_order(ins, task_nodes(t))
    &&& task_nodes(t).no_duplicates()
    &&& forall|m: int| 0 <= m < t.len() ==> (#[trigger] t[m]).input_buffers@.len() == ins[t[m].node as int].len()
    &&& forall|m: int, k: int| 0 <= m < t.len() && 0 <= k < ins[t[m].node as int].len() ==> #[trigger] input_from(t, ins, m, k)
    &&& forall|m: int| 0 <= m < t.len() ==> (#[trigger] t[m]).output_buffer < s.pool_size
    &&& forall|b: usize| b < s.pool_size ==> #[trigger] buffer_used(t, b)
    &&& exists|m: int| 0 <= m < t.len() && #[trigger] t[m].node == sink && t[m].output_buffer == s.sink_buffer
    &&& forall|i: int, m: int, r: int|
        #![trigger ins[t[r].node as int].contains(t[i].node), t[m].output_buffer]
        0 <= i < m <= r < t.len() && ins[t[r].node as int].contains(t[i].node) ==> t[m].output_buffer
            != t[i].output_buffer
    &&& forall|i: int, m: int|
        0 <= i < m < t.len() && #[trigger] t[i].node == sink ==> #[trigger] t[m].output_buffer != t[i].output_buffer
    &&& forall|m: int, b: usize|
        0 <= m < t.len() && fresh_buffer(t, m) && b < t[m].output_buffer ==> #[trigger] held_buffer(ins, sink, t, b, m)
}

/// The number of entries of `s` naming a producer that is not yet done.
pub open spec fn pending(s: Seq<usize>, done: Seq<bool>) -> nat
    decreases s.len(),
{
    if s.len() == 0 {
        0
    } else {
        pending(s.drop_last(), done) + if done[s.last() as int] {
            0nat
        } else {
            1nat
        }
    }
}

/// The number of entries of `s` equal to `x`.
pub open spec fn occurrences(s: Seq<usize>, x: usize) -> nat
    decreases s.len(),
{
    if s.len() == 0 {
        0
    } else {
        occurrences(s.drop_last(), x) + if s.last() == x {
            1nat
        } else {
            0nat
        }
    }
}

/// The number of nodes not yet done.
pub open spec fn undone(done: Seq<bool>) -> nat
    decreases done.len(),
{
    if done.len() == 0 {
        0
    } else {
        undone(done.drop_last()) + if done.last() {
            0nat
        } else {
            1nat
        }
    }
}

proof fn lemma_pending_zero(s: Seq<usize>, done: Seq<bool>)
    ensures
        pending(s, done) == 0 <==> forall|k: int| 0 <= k < s.len() ==> done[#[trigger] s[k] as int],
    decreases s.len(),
{
    if s.len() > 0 {
        lemma_pending_zero(s.drop_last(), done);
        if pending(s, done) == 0 {
            assert forall|k: int| 0 <= k < s.len() implies done[#[trigger] s[k] as int] by {
                if k < s.len() - 1 {
                    assert(s[k] == s.drop_last()[k]);
                }
            }
        } else if forall|k: int| 0 <= k < s.len() ==> done[#[trigger] s[k] as int] {
            assert forall|k: int| 0 <= k < s.drop_last().len() implies done[#[trigger] s.drop_last()[k] as int] by {
                assert(s.drop_last()[k] == s[k]);
            }
            assert(done[s[s.len() - 1] as int]);
        }
    }
}

proof fn lemma_pending_all_false(s: Seq<usize>, done: Seq<bool>)
    requires
        forall|k: int| 0 <= k < s.len() ==> !done[#[trigger] s[k] as int],
    ensures
        pending(s, done) == s.len(),
    decreases s.len(),
{
    if s.len() > 0 {
        assert forall|k: int| 0 <= k < s.drop_last().len() implies !done[#[trigger] s.drop_last()[k] as int] by {
            assert(s.drop_last()[k] == s[k]);
        }
        lemma_pending_all_false(s.drop_last(), done);
        assert(!done[s[s.len() - 1] as int]);
    }
}

proof fn lemma_pending_update(s: Seq<usize>, done: Seq<bool>, x: usize)
    requires
        x < done.len(),
        !done[x as int],
        forall|k: int| 0 <= k < s.len() ==> #[trigger] s[k] < done.len(),
    ensures
        pending(s, done.update(x as int, true)) + occurrences(s, x) == pending(s, done),
    decreases s.len(),
{
    if s.len() > 0 {
        assert forall|k: int| 0 <= k < s.drop_last().len() implies #[trigger] s.drop_last()[k] < done.len() by {
            assert(s.drop_last()[k] == s[k]);
        }
        assert(s[s.len() - 1] < done.len());
        lemma_pending_update(s.drop_last(), done, x);
        if s.last() == x {
        } else {
            assert(done.update(x as int, true)[s.last() as int] == done[s.last() as int]);
        }
    }
}

proof fn lemma_occurrences_prefix(s: Seq<usize>, x: usize, k: int)
    requires
        0 <= k < s.len(),
    ensures
        occurrences(s.subrange(0, k + 1), x) == occurrences(s.subrange(0, k), x) + if s[k] == x {
            1nat
        } else {
            0nat
        },
{
    assert(s.subrange(0, k + 1).drop_last() =~= s.subrange(0, k));
}

proof fn lemma_occurrences_contains(s: Seq<usize>, x: usize)
    ensures
        occurrences(s, x) > 0 <==> s.contains(x),
    decreases s.len(),
{
    if s.len() > 0 {
        lemma_occurrences_contains(s.drop_last(), x);
        if s.drop_last().contains(x) {
            let i = choose|i: int| 0 <= i < s.drop_last().len() && s.drop_last()[i] == x;
            assert(s[i] == x);
        }
        if s.contains(x) && s.last() != x {
            let i = choose|i: int| 0 <= i < s.len() && s[i] == x;
            assert(s.drop_last()[i] == x);
        }
    }
}

proof fn lemma_undone_update(done: Seq<bool>, x: int)
    requires
        0 <= x < done.len(),
        !done[x],
    ensures
        undone(done.update(x, true)) + 1 == undone(done),
    decreases done.len(),
{
    let d2 = done.update(x, true);
    if x == done.len() - 1 {
        assert(d2.drop_last() =~= done.drop_last());
    } else {
        assert(d2.drop_last() =~= done.drop_last().update(x, true));
        lemma_undone_update(done.drop_last(), x);
    }
}

proof fn lemma_undone_zero(done: Seq<bool>)
    ensures
        undone(done) == 0 <==> forall|v: int| 0 <= v < done.len() ==> #[trigger] done[v],
    decreases done.len(),
{
    if done.len() > 0 {
        lemma_undone_zero(done.drop_last());
        if forall|v: int| 0 <= v < done.len() ==> #[trigger] done[v] {
            assert forall|v: int| 0 <= v < done.drop_last().len() implies #[trigger] done.drop_last()[v] by {
                assert(done[v]);
            }
            assert(done[done.len() - 1]);
        }
        if undone(done) == 0 {
            assert forall|v: int| 0 <= v < done.len() implies #[trigger] done[v] by {
                if v < done.len() - 1 {
                    assert(done.drop_last()[v]);
                }
            }
        }
    }
}

proof fn lemma_undone_all_false(done: Seq<bool>)
    requires
        forall|v: int| 0 <= v < done.len() ==> !#[trigger] done[v],
    ensures
        undone(done) == done.len(),
    decreases done.len(),
{
    if done.len() > 0 {
        assert forall|v: int| 0 <= v < done.drop_last().len() implies !#[trigger] done.drop_last()[v] by {
            assert(!done[v]);
        }
        lemma_undone_all_false(done.drop_last());
    }
}

/// If every node that is not done has a producer that is not done, and some
/// node is not done, then no order of the nodes respects every edge: in any
/// such order the nodes before position `i` would all be done.
proof fn lemma_stuck_prefix(ins: Seq<Seq<usize>>, done: Seq<bool>, t: Seq<usize>, i: int)
    requires
        done.len() == ins.len(),
        topo_order(ins, t),
        forall|v: int|
            0 <= v < ins.len() && !#[trigger] done[v] ==> exists|k: int|
                0 <= k < ins[v].len() && !done[#[trigger] ins[v][k] as int],
        0 <= i <= t.len(),
    ensures
        forall|j: int| 0 <= j < i ==> done[#[trigger] t[j] as int],
    decreases i,
{
    if i > 0 {
        lemma_stuck_prefix(ins, done, t, i - 1);
        let v = t[i - 1];
        assert(v < ins.len());
        if !done[v as int] {
            let k = choose|k: int| 0 <= k < ins[v as int].len() && !done[#[trigger] ins[v as int][k] as int];
            let p = ins[v as int][k];
            let pre = t.subrange(0, i - 1);
            assert(pre.contains(p));
            let j = choose|j: int| 0 <= j < pre.len() && pre[j] == p;
            assert(t[j] == p);
            assert(done[t[j] as int]);
        }
    }
}

proof fn lemma_stuck_not_acyclic(ins: Seq<Seq<usize>>, done: Seq<bool>, w: usize)
    requires
        done.len() == ins.len(),
        w < ins.len(),
        !done[w as int],
        forall|v: int|
            0 <= v < ins.len() && !#[trigger] done[v] ==> exists|k: int|
                0 <= k < ins[v].len() && !done[#[trigger] ins[v][k] as int],
    ensures
        !acyclic(ins),
{
    assert forall|t: Seq<usize>| !topo_order(ins, t) by {
        if topo_order(ins, t) {
            lemma_stuck_prefix(ins, done, t, t.len() as int);
            assert(t.contains(w));
            let j = choose|j: int| 0 <= j < t.len() && t[j] == w;
            assert(done[t[j] as int]);
            assert(false);
        }
    }
}

/// Kahn's algorithm: repeatedly emits a node whose producers have all been
/// emitted, taking the most recently readied one first. Returns the order,
/// or `Cycle` when the graph has none.
fn kahn_order(ins: &Vec<Vec<usize>>) -> (r: Result<Vec<usize>, GraphError>)
    requires
        wired(nested(ins@)),
    ensures
        r matches Ok(order) ==> topo_order(nested(ins@), order@) && order@.no_duplicates(),
        r is Err ==> r == Err::<Vec<usize>, GraphError>(GraphError::Cycle) && !acyclic(nested(ins@)),
{
    let ghost g = nested(ins@);
    let n = ins.len();
    let mut indeg: Vec<usize> = Vec::new();
    let mut done: Vec<bool> = Vec::new();
    let mut v: usize = 0;
    while v < n
        invariant
            g == nested(ins@),
            n == ins@.len(),
            v <= n,
            indeg@.len() == v,
            done@.len() == v,
            forall|i: int| 0 <= i < v ==> #[trigger] indeg@[i] == g[i].len(),
            forall|i: int| 0 <= i < v ==> !#[trigger] done@[i],
        decreases n - v,
    {
        indeg.push(ins[v].len());
        done.push(false);
        v += 1;
    }
    proof {
        lemma_undone_all_false(done@);
        assert forall|i: int| 0 <= i < n implies #[trigger] indeg@[i] == pending(g[i], done@) by {
            assert forall|k: int| 0 <= k < g[i].len() implies !done@[#[trigger] g[i][k] as int] by {
                assert(g[i][k] < n);
            }
            lemma_pending_all_false(g[i], done@);
        }
    }
    let mut ready: Vec<usize> = Vec::new();
    v = 0;
    while v < n
        invariant
            g == nested(ins@),
            n == ins@.len(),
            v <= n,
            indeg@.len() == n,
            forall|i: int, j: int| 0 <= i < j < ready@.len() ==> ready@[i] < ready@[j],
            forall|i: int| 0 <= i < ready@.len() ==> #[trigger] ready@[i] < v && indeg@[ready@[i] as int] == 0,
            forall|u: usize| u < v && indeg@[u as int] == 0 ==> #[trigger] ready@.contains(u),
        decreases n - v,
    {
        if indeg[v] == 0 {
            ready.push(v);
            proof {
                assert(ready@[ready@.len() - 1] == v);
            }
        }
        v += 1;
    }
    let mut order: Vec<usize> = Vec::new();
    while ready.len() > 0
        invariant
            g == nested(ins@),
            wired(g),
            n == ins@.len(),
            indeg@.len() == n,
            done@.len() == n,
            forall|u: usize| u < n ==> (done@[u as int] <==> #[trigger] order@.contains(u)),
            order@.no_duplicates(),
            forall|i: int| 0 <= i < order@.len() ==> #[trigger] order@[i] < n,
            order@.len() + undone(done@) == n,
            forall|j: int, k: int|
                0 <= j < order@.len() && 0 <= k < g[order@[j] as int].len() ==> #[trigger] order@.subrange(
                    0,
                    j,
                ).contains(#[trigger] g[order@[j] as int][k]),
            forall|u: int| 0 <= u < n && !done@[u] ==> #[trigger] indeg@[u] == pending(g[u], done@),
            ready@.no_duplicates(),
            forall|i: int|
                0 <= i < ready@.len() ==> #[trigger] ready@[i] < n && !done@[ready@[i] as int] && indeg@[ready@[i] as int]
                    == 0,
            forall|u: usize| u < n && !done@[u as int] && indeg@[u as int] == 0 ==> #[trigger] ready@.contains(u),
        decreases undone(done@),
    {
        let ghost ready0 = ready@;
        let node = ready.pop().unwrap();
        let ghost d0 = done@;
        let ghost o0 = order@;
        proof {
            assert(ready0.last() == node);
            assert(ready@ =~= ready0.drop_last());
            assert(!ready@.contains(node));
            assert forall|u: usize| u < n && u != node && ready0.contains(u) implies ready@.contains(u) by {
                let i = choose|i: int| 0 <= i < ready0.len() && ready0[i] == u;
                assert(ready@[i] == u);
            }
            lemma_pending_zero(g[node as int], d0);
            // The node about to be emitted feeds no node that is already
            // done, nor itself.
            assert forall|u: int, k: int| 0 <= u < n && 0 <= k < g[u].len() && #[trigger] g[u][k] == node implies !d0[u]
                && u != node by {
                if u == node as int {
                    assert(d0[g[u][k] as int]);
                } else if d0[u] {
                    assert(o0.contains(u as usize));
                    let j = choose|j: int| 0 <= j < o0.len() && o0[j] == u as usize;
                    let pre = o0.subrange(0, j);
                    assert(pre.contains(g[o0[j] as int][k]));
                    let i = choose|i: int| 0 <= i < pre.len() && pre[i] == node;
                    assert(o0[i] == node);
                    assert(o0.contains(node));
                }
            }
            assert forall|k: int| 0 <= k < g[node as int].len() implies o0.contains(#[trigger] g[node as int][k]) by {
                assert(d0[g[node as int][k] as int]);
                assert(g[node as int][k] < n);
            }
            lemma_undone_update(d0, node as int);
        }
        order.push(node);
        done.set(node, true);
        let ghost d1 = done@;
        proof {
            assert(d1 == d0.update(node as int, true));
            assert(order@ == o0.push(node));
            assert forall|u: usize| u < n implies (d1[u as int] <==> #[trigger] order@.contains(u)) by {
                if u == node {
                    assert(order@[o0.len() as int] == node);
                } else if o0.contains(u) {
                    let i = choose|i: int| 0 <= i < o0.len() && o0[i] == u;
                    assert(order@[i] == u);
                } else if order@.contains(u) {
                    let i = choose|i: int| 0 <= i < order@.len() && order@[i] == u;
                    assert(o0[i] == u);
                }
            }
            assert forall|j: int, k: int|
                0 <= j < order@.len() && 0 <= k < g[order@[j] as int].len() implies #[trigger] order@.subrange(
                    0,
                    j,
                ).contains(#[trigger] g[order@[j] as int][k]) by {
                assert(order@.subrange(0, j) == o0.subrange(0, j)) by {
                    if j < o0.len() {
                        assert(order@.subrange(0, j) =~= o0.subrange(0, j));
                    } else {
                        assert(order@.subrange(0, j) =~= o0);
                        assert(o0.subrange(0, j) =~= o0);
                    }
                }
                if j < o0.len() {
                    assert(order@[j] == o0[j]);
                    assert(o0.subrange(0, j).contains(g[o0[j] as int][k]));
                } else {
                    assert(order@[j] == node);
                    assert(o0.contains(g[node as int][k]));
                }
            }
            assert(!o0.contains(node));
            assert forall|i: int, j: int| 0 <= i < order@.len() && 0 <= j < order@.len() && i != j implies order@[i]
                != order@[j] by {
                if j == o0.len() {
                    assert(o0[i] == order@[i]);
                } else if i == o0.len() {
                    assert(o0[j] == order@[j]);
                } else {
                    assert(o0[i] == order@[i]);
                    assert(o0[j] == order@[j]);
                }
            }
            assert forall|u: usize| u < n && !d1[u as int] && pending(g[u as int], d0) == 0 implies #[trigger] ready@.contains(u) by {
                assert(u != node);
                assert(ready0.contains(u));
            }
        }
        let mut c: usize = 0;
        while c < n
            invariant
                g == nested(ins@),
                wired(g),
                n == ins@.len(),
                c <= n,
                node < n,
                d0.len() == n,
                !d0[node as int],
                d1 == d0.update(node as int, true),
                done@ == d1,
                indeg@.len() == n,
                forall|u: int, k: int| 0 <= u < n && 0 <= k < g[u].len() && #[trigger] g[u][k] == node ==> !d1[u],
                forall|u: int| 0 <= u < c && !d1[u] ==> #[trigger] indeg@[u] == pending(g[u], d1),
                forall|u: int| c <= u < n && !d1[u] ==> #[trigger] indeg@[u] == pending(g[u], d0),
                ready@.no_duplicates(),
                forall|i: int|
                    0 <= i < ready@.len() ==> #[trigger] ready@[i] < n && !d1[ready@[i] as int] && indeg@[ready@[i] as int]
                        == 0,
                forall|u: usize| u < c && !d1[u as int] && indeg@[u as int] == 0 ==> #[trigger] ready@.contains(u),
                forall|u: usize| c <= u < n && !d1[u as int] && pending(g[u as int], d0) == 0 ==> #[trigger] ready@.contains(u),
            decreases n - c,
        {
            let len_c = ins[c].len();
            let mut k: usize = 0;
            proof {
                assert(g[c as int] == ins@[c as int]@);
                assert(g[c as int].subrange(0, 0) =~= Seq::<usize>::empty());
            }
            while k < len_c
                invariant
                    g == nested(ins@),
                    n == ins@.len(),
                    c < n,
                    len_c == g[c as int].len(),
                    k <= len_c,
                    node < n,
                    wired(g),
                    d0.len() == n,
                    !d0[node as int],
                    d1 == d0.update(node as int, true),
                    done@ == d1,
                    indeg@.len() == n,
                    forall|u: int, kk: int| 0 <= u < n && 0 <= kk < g[u].len() && #[trigger] g[u][kk] == node ==> !d1[u],
                    forall|u: int| 0 <= u < c && !d1[u] ==> #[trigger] indeg@[u] == pending(g[u], d1),
                    forall|u: int| c < u < n && !d1[u] ==> #[trigger] indeg@[u] == pending(g[u], d0),
                    !d1[c as int] ==> indeg@[c as int] + occurrences(g[c as int].subrange(0, k as int), node)
                        == pending(g[c as int], d0),
                    ready@.no_duplicates(),
                    forall|i: int|
                        0 <= i < ready@.len() ==> #[trigger] ready@[i] < n && !d1[ready@[i] as int]
                            && indeg@[ready@[i] as int] == 0,
                    forall|u: usize| u < c && !d1[u as int] && indeg@[u as int] == 0 ==> #[trigger] ready@.contains(u),
                    forall|u: usize| c < u < n && !d1[u as int] && pending(g[u as int], d0) == 0 ==> #[trigger] ready@.contains(u),
                    !d1[c as int] && indeg@[c as int] == 0 ==> ready@.contains(c),
                decreases len_c - k,
            {
                proof {
                    lemma_occurrences_prefix(g[c as int], node, k as int);
                }
                if ins[c][k] == node {
                    proof {
                        assert(g[c as int][k as int] == node);
                        assert(!d1[c as int]);
                        lemma_pending_update(g[c as int], d0, node);
                        assert(occurrences(g[c as int], node) >= occurrences(g[c as int].subrange(0, k as int + 1), node)) by {
                            lemma_occurrences_le(g[c as int], node, k as int + 1);
                        }
                        assert(!ready@.contains(c));
                    }
                    let d = indeg[c] - 1;
                    indeg.set(c, d);
                    if d == 0 {
                        ready.push(c);
                    }
                }
                k += 1;
            }
            proof {
                assert(g[c as int].subrange(0, len_c as int) =~= g[c as int]);
                if !d1[c as int] {
                    lemma_pending_update(g[c as int], d0, node);
                }
            }
            c += 1;
        }
    }
    proof {
        lemma_undone_zero(done@);
    }
    if order.len() != n {
        proof {
            let w = choose|w: int| 0 <= w < n && !done@[w];
            assert(!done@[(w as usize) as int]);
            assert forall|u: int| 0 <= u < n && !#[trigger] done@[u] implies exists|k: int|
                0 <= k < g[u].len() && !done@[#[trigger] g[u][k] as int] by {
                assert(!ready@.contains(u as usize));
                lemma_pending_zero(g[u], done@);
            }
            lemma_stuck_not_acyclic(g, done@, w as usize);
        }
        return Err(GraphError::Cycle);
    }
    proof {
        assert forall|u: usize| u < n implies #[trigger] order@.contains(u) by {
            assert(done@[u as int]);
        }
    }
    Ok(order)
}

proof fn lemma_occurrences_le(s: Seq<usize>, x: usize, k: int)
    requires
        0 <= k <= s.len(),
    ensures
        occurrences(s.subrange(0, k), x) <= occurrences(s, x),
    decreases s.len() - k,
{
    if k < s.len() {
        lemma_occurrences_prefix(s, x, k);
        lemma_occurrences_le(s, x, k + 1);
    } else {
        assert(s.subrange(0, k) =~= s);
    }
}


/// Entry `j` of `fr` is the buffer of one of the first `k` producers in
/// `prods` whose last reader is `step`.
spec fn released_by(
    fr: Seq<usize>,
    j: int,
    prods: Seq<usize>,
    k: int,
    last_use: Seq<usize>,
    step: usize,
    buffer_of: Seq<usize>,
) -> bool {
    exists|kk: int| 0 <= kk < k && last_use[prods[kk] as int] == step && fr[j] == buffer_of[#[trigger] prods[kk] as int]
}

/// Node `v`'s buffer is still held at step `m`: its last reader runs at `m`
/// or later (the sink's never ends), or nothing reads it (`last_use` 0).
spec fn stays(last_use: Seq<usize>, v: usize, m: int) -> bool {
    last_use[v as int] >= m || last_use[v as int] == 0
}

/// Buffer `b` is the output of a task before step `m` whose node's buffer
/// is still held at `m`.
spec fn kept(t: Seq<Task>, last_use: Seq<usize>, order: Seq<usize>, b: usize, m: int) -> bool {
    exists|ii: int| 0 <= ii < m && #[trigger] t[ii].output_buffer == b && stays(last_use, order[ii], m)
}

proof fn lemma_tasks_extend(t0: Seq<Task>, x: Task, last_use: Seq<usize>, order: Seq<usize>)
    ensures
        forall|m: int| 0 <= m < t0.len() ==> (#[trigger] fresh_buffer(t0.push(x), m) == fresh_buffer(t0, m)),
        forall|b: usize, m: int|
            0 <= m <= t0.len() ==> (#[trigger] kept(t0.push(x), last_use, order, b, m) == kept(t0, last_use, order, b, m)),
{
    let t1 = t0.push(x);
    assert forall|m: int| 0 <= m < t0.len() implies (#[trigger] fresh_buffer(t1, m) == fresh_buffer(t0, m)) by {
        assert(t1[m] == t0[m]);
        if fresh_buffer(t0, m) {
            assert forall|i: int| 0 <= i < m implies #[trigger] t1[i].output_buffer != t1[m].output_buffer by {
                assert(t1[i] == t0[i]);
                assert(t0[i].output_buffer != t0[m].output_buffer);
            }
        }
        if fresh_buffer(t1, m) {
            assert forall|i: int| 0 <= i < m implies #[trigger] t0[i].output_buffer != t0[m].output_buffer by {
                assert(t1[i] == t0[i]);
                assert(t1[i].output_buffer != t1[m].output_buffer);
            }
        }
    }
    assert forall|b: usize, m: int| 0 <= m <= t0.len() implies (#[trigger] kept(t1, last_use, order, b, m) == kept(
        t0,
        last_use,
        order,
        b,
        m,
    )) by {
        if kept(t1, last_use, order, b, m) {
            let ii = choose|ii: int| 0 <= ii < m && #[trigger] t1[ii].output_buffer == b && stays(last_use, order[ii], m);
            assert(t1[ii] == t0[ii]);
        }
        if kept(t0, last_use, order, b, m) {
            let ii = choose|ii: int| 0 <= ii < m && #[trigger] t0[ii].output_buffer == b && stays(last_use, order[ii], m);
            assert(t1[ii] == t0[ii]);
        }
    }
}

/// For every node, the position in `order` of its last reader; 0 for a node
/// that nothing reads, and `usize::MAX` for the sink, whose buffer lives to
/// the end.
fn last_readers(ins: &Vec<Vec<usize>>, order: &Vec<usize>, sink: usize) -> (last_use: Vec<usize>)
    requires
        wired(nested(ins@)),
        topo_order(nested(ins@), order@),
        order@.no_duplicates(),
        sink < ins@.len(),
    ensures
        last_use@.len() == ins@.len(),
        last_use@[sink as int] == usize::MAX,
        forall|t: int, k: int|
            0 <= t < ins@.len() && 0 <= k < nested(ins@)[order@[t] as int].len() ==> last_use@[#[trigger] nested(
                ins@,
            )[order@[t] as int][k] as int] >= t,
        forall|v: usize|
            v < ins@.len() && v != sink && #[trigger] last_use@[v as int] != 0 ==> last_use@[v as int] < ins@.len()
                && nested(ins@)[order@[last_use@[v as int] as int] as int].contains(v),
        forall|v: usize, r: int|
            #![trigger last_use@[v as int], nested(ins@)[order@[r] as int].contains(v)]
            v < ins@.len() && v != sink && last_use@[v as int] == 0 && 0 <= r < ins@.len() ==> !nested(
                ins@,
            )[order@[r] as int].contains(v),
{
    let ghost g = nested(ins@);
    let n = ins.len();
    let mut pos: Vec<usize> = Vec::new();
    let mut last_use: Vec<usize> = Vec::new();
    let mut i: usize = 0;
    while i < n
        invariant
            i <= n,
            pos@.len() == i,
            last_use@.len() == i,
            forall|j: int| 0 <= j < i ==> #[trigger] last_use@[j] == 0,
        decreases n - i,
    {
        pos.push(0);
        last_use.push(0);
        i += 1;
    }
    i = 0;
    while i < n
        invariant
            n == ins@.len(),
            g == nested(ins@),
            topo_order(g, order@),
            order@.no_duplicates(),
            pos@.len() == n,
            last_use@.len() == n,
            forall|j: int| 0 <= j < n ==> #[trigger] last_use@[j] == 0,
            i <= n,
            forall|j: int| 0 <= j < i ==> #[trigger] pos@[order@[j] as int] == j,
        decreases n - i,
    {
        proof {
            assert(order@[i as int] < n);
            assert forall|j: int| 0 <= j < i implies order@[j] != order@[i as int] by {}
        }
        pos.set(order[i], i);
        i += 1;
    }
    proof {
        assert forall|v: usize| v < n implies #[trigger] pos@[v as int] < n && order@[pos@[v as int] as int] == v by {
            assert(order@.contains(v));
            let j = choose|j: int| 0 <= j < order@.len() && order@[j] == v;
            assert(pos@[order@[j] as int] == j);
        }
    }
    let mut c: usize = 0;
    while c < n
        invariant
            n == ins@.len(),
            g == nested(ins@),
            wired(g),
            c <= n,
            pos@.len() == n,
            last_use@.len() == n,
            forall|v: usize| v < n ==> #[trigger] pos@[v as int] < n && order@[pos@[v as int] as int] == v,
            forall|cc: int, k: int|
                0 <= cc < c && 0 <= k < g[cc].len() ==> last_use@[#[trigger] g[cc][k] as int] >= pos@[cc],
            forall|v: usize|
                v < n && #[trigger] last_use@[v as int] != 0 ==> exists|cc: int|
                    0 <= cc < c && #[trigger] g[cc].contains(v) && pos@[cc] == last_use@[v as int],
        decreases n - c,
    {
        let len_c = ins[c].len();
        let mut k: usize = 0;
        proof {
            assert(g[c as int] == ins@[c as int]@);
        }
        while k < len_c
            invariant
                n == ins@.len(),
                g == nested(ins@),
                wired(g),
                c < n,
                len_c == g[c as int].len(),
                k <= len_c,
                pos@.len() == n,
                last_use@.len() == n,
                forall|cc: int, kk: int|
                    0 <= cc < c && 0 <= kk < g[cc].len() ==> last_use@[#[trigger] g[cc][kk] as int] >= pos@[cc],
                forall|kk: int| 0 <= kk < k ==> last_use@[#[trigger] g[c as int][kk] as int] >= pos@[c as int],
                forall|v: usize|
                    v < n && #[trigger] last_use@[v as int] != 0 ==> exists|cc: int|
                        0 <= cc <= c && #[trigger] g[cc].contains(v) && pos@[cc] == last_use@[v as int],
            decreases len_c - k,
        {
            let p = ins[c][k];
            proof {
                assert(p == g[c as int][k as int]);
                assert(p < n);
            }
            if last_use[p] < pos[c] {
                let ghost lu0 = last_use@;
                last_use.set(p, pos[c]);
                proof {
                    assert(g[c as int].contains(p));
                    assert forall|v: usize| v < n && #[trigger] last_use@[v as int] != 0 implies exists|cc: int|
                        0 <= cc <= c && #[trigger] g[cc].contains(v) && pos@[cc] == last_use@[v as int] by {
                        if v != p {
                            assert(lu0[v as int] == last_use@[v as int]);
                        }
                    }
                }
            }
            k += 1;
        }
        c += 1;
    }
    let ghost lu1 = last_use@;
    last_use.set(sink, usize::MAX);
    proof {
        assert forall|t: int, k: int|
            0 <= t < n && 0 <= k < g[order@[t] as int].len() implies last_use@[#[trigger] g[order@[t] as int][k] as int] >= t by {
            let v = order@[t];
            assert(v < n);
            assert(pos@[v as int] == t) by {
                assert(order@[pos@[v as int] as int] == v);
            }
            assert(g[v as int][k] < n);
        }
        assert forall|v: usize| v < n && v != sink && #[trigger] last_use@[v as int] != 0 implies last_use@[v as int] < n
            && g[order@[last_use@[v as int] as int] as int].contains(v) by {
            assert(lu1[v as int] == last_use@[v as int]);
            let cc = choose|cc: int| 0 <= cc < n && #[trigger] g[cc].contains(v) && pos@[cc] == lu1[v as int];
            assert(order@[pos@[cc as usize as int] as int] == cc as usize);
        }
        assert forall|v: usize, r: int|
            #![trigger last_use@[v as int], g[order@[r] as int].contains(v)]
            v < n && v != sink && last_use@[v as int] == 0 && 0 <= r < n implies !g[order@[r] as int].contains(v) by {
            if g[order@[r] as int].contains(v) {
                let k = choose|k: int| 0 <= k < g[order@[r] as int].len() && g[order@[r] as int][k] == v;
                assert(last_use@[g[order@[r] as int][k] as int] >= r);
                assert(order@.subrange(0, r).contains(g[order@[r] as int][k]));
            }
        }
    }
    last_use
}

/// Assigns buffers along `order`: each task takes a recycled buffer when one
/// is free (the most recently freed first) or a new one, and after it runs
/// the buffer of each producer it was the last reader of is freed, once.
/// The sink's buffer, and that of a node nothing reads, is never freed.
#[verifier::rlimit(80)]
fn assign_buffers(ins: &Vec<Vec<usize>>, order: &Vec<usize>, sink: usize) -> (s: Schedule)
    requires
        wired(nested(ins@)),
        topo_order(nested(ins@), order@),
        order@.no_duplicates(),
        sink < ins@.len(),
    ensures
        schedule_valid(nested(ins@), sink, s),
{
    let ghost g = nested(ins@);
    let n = ins.len();
    let last_use = last_readers(ins, order, sink);
    let mut buffer_of: Vec<usize> = Vec::new();
    let mut released: Vec<bool> = Vec::new();
    let mut i: usize = 0;
    while i < n
        invariant
            i <= n,
            buffer_of@.len() == i,
            released@.len() == i,
            forall|j: int| 0 <= j < i ==> !#[trigger] released@[j],
        decreases n - i,
    {
        buffer_of.push(usize::MAX);
        released.push(false);
        i += 1;
    }
    let mut free: Vec<usize> = Vec::new();
    let mut pool_size: usize = 0;
    let mut tasks: Vec<Task> = Vec::new();
    let mut step: usize = 0;
    while step < n
        invariant
            n == ins@.len(),
            g == nested(ins@),
            wired(g),
            topo_order(g, order@),
            order@.no_duplicates(),
            sink < n,
            last_use@.len() == n,
            buffer_of@.len() == n,
            released@.len() == n,
            forall|t: int, k: int|
                0 <= t < n && 0 <= k < g[order@[t] as int].len() ==> last_use@[#[trigger] g[order@[t] as int][k] as int] >= t,
            forall|v: usize|
                v < n && v != sink && #[trigger] last_use@[v as int] != 0 ==> last_use@[v as int] < n
                    && g[order@[last_use@[v as int] as int] as int].contains(v),
            forall|v: usize, r: int|
                #![trigger last_use@[v as int], g[order@[r] as int].contains(v)]
                v < n && v != sink && last_use@[v as int] == 0 && 0 <= r < n ==> !g[order@[r] as int].contains(v),
            last_use@[sink as int] == usize::MAX,
            step <= n,
            tasks@.len() == step,
            pool_size <= step,
            forall|m: int|
                0 <= m < step ==> (#[trigger] tasks@[m]).node == order@[m] && tasks@[m].output_buffer < pool_size
                    && buffer_of@[order@[m] as int] == tasks@[m].output_buffer,
            forall|m: int| 0 <= m < step ==> (#[trigger] tasks@[m]).input_buffers@.len() == g[order@[m] as int].len(),
            forall|m: int, k: int| 0 <= m < step && 0 <= k < g[order@[m] as int].len() ==> #[trigger] input_from(tasks@, g, m, k),
            forall|b: usize| b < pool_size ==> #[trigger] buffer_used(tasks@, b),
            forall|j: int| 0 <= j < free@.len() ==> #[trigger] free@[j] < pool_size,
            free@.no_duplicates(),
            forall|v: usize| v < n && last_use@[v as int] >= step ==> !#[trigger] released@[v as int],
            forall|ii: int|
                0 <= ii < step && last_use@[order@[ii] as int] >= step ==> !free@.contains(
                    #[trigger] tasks@[ii].output_buffer,
                ),
            forall|ii: int, jj: int|
                0 <= ii < step && 0 <= jj < step && ii != jj && last_use@[order@[ii] as int] >= step
                    && last_use@[order@[jj] as int] >= step ==> #[trigger] tasks@[ii].output_buffer
                    != #[trigger] tasks@[jj].output_buffer,
            forall|ii: int, m: int|
                0 <= ii < m < step && last_use@[order@[ii] as int] >= m ==> #[trigger] tasks@[m].output_buffer
                    != #[trigger] tasks@[ii].output_buffer,
            forall|b: usize| b < pool_size && !free@.contains(b) ==> #[trigger] kept(tasks@, last_use@, order@, b, step as int),
            forall|m: int, b: usize|
                0 <= m < step && fresh_buffer(tasks@, m) && b < tasks@[m].output_buffer ==> #[trigger] kept(
                    tasks@,
                    last_use@,
                    order@,
                    b,
                    m,
                ),
        decreases n - step,
    {
        let node = order[step];
        let ghost free0 = free@;
        let ghost tasks0 = tasks@;
        let ghost pool0 = pool_size;
        proof {
            assert(node < n);
            assert(g[node as int] == ins@[node as int]@);
        }
        let out: usize;
        if free.len() > 0 {
            out = free.pop().unwrap();
            proof {
                assert(out == free0.last());
                assert(free@ =~= free0.drop_last());
            }
        } else {
            out = pool_size;
            pool_size = pool_size + 1;
        }
        let ghost free1 = free@;
        proof {
            assert forall|j: int| 0 <= j < free1.len() implies #[trigger] free1[j] < pool_size && free1[j] == free0[j] by {}
            assert(free1.no_duplicates());
            assert(!free1.contains(out)) by {
                if free1.contains(out) {
                    let j = choose|j: int| 0 <= j < free1.len() && free1[j] == out;
                    if free0.len() > 0 {
                        assert(free0[j] == out);
                        assert(free0[free0.len() - 1] == out);
                    } else {
                        assert(free1[j] < pool0);
                    }
                }
            }
            assert forall|ii: int| 0 <= ii < step && last_use@[order@[ii] as int] >= step implies out
                != #[trigger] tasks@[ii].output_buffer && !free1.contains(tasks@[ii].output_buffer) by {
                if free0.len() > 0 {
                    assert(free0.contains(out));
                    assert(!free0.contains(tasks@[ii].output_buffer));
                    if free1.contains(tasks@[ii].output_buffer) {
                        let j = choose|j: int| 0 <= j < free1.len() && free1[j] == tasks@[ii].output_buffer;
                        assert(free0[j] == free1[j]);
                    }
                }
            }
            assert forall|b: usize| free0.contains(b) && b != out implies free1.contains(b) by {
                let j = choose|j: int| 0 <= j < free0.len() && free0[j] == b;
                assert(j != free0.len() - 1);
                assert(free1[j] == b);
            }
        }
        buffer_of.set(node, out);
        let len_node = ins[node].len();
        let mut input_buffers: Vec<usize> = Vec::new();
        let mut k: usize = 0;
        while k < len_node
            invariant
                n == ins@.len(),
                g == nested(ins@),
                wired(g),
                topo_order(g, order@),
                order@.no_duplicates(),
                step < n,
                node == order@[step as int],
                len_node == g[node as int].len(),
                k <= len_node,
                buffer_of@.len() == n,
                tasks@ == tasks0,
                tasks@.len() == step,
                forall|m: int| 0 <= m < step ==> (#[trigger] tasks@[m]).node == order@[m] && buffer_of@[order@[m] as int] == tasks@[m].output_buffer,
                input_buffers@.len() == k,
                forall|kk: int|
                    0 <= kk < k ==> exists|i: int|
                        0 <= i < step && #[trigger] tasks@[i].node == #[trigger] g[node as int][kk]
                            && input_buffers@[kk] == tasks@[i].output_buffer,
            decreases len_node - k,
        {
            let p = ins[node][k];
            proof {
                assert(p == g[node as int][k as int]);
                let pre = order@.subrange(0, step as int);
                assert(pre.contains(g[order@[step as int] as int][k as int]));
                let i = choose|i: int| 0 <= i < pre.len() && pre[i] == p;
                assert(order@[i] == p);
                assert(tasks@[i].node == p);
                assert(p < n);
            }
            input_buffers.push(buffer_of[p]);
            k += 1;
        }
        tasks.push(Task { node, input_buffers, output_buffer: out });
        proof {
            lemma_tasks_extend(tasks0, tasks@[step as int], last_use@, order@);
            assert(tasks@ == tasks0.push(tasks@[step as int]));
            assert forall|m: int| 0 <= m < step + 1 implies (#[trigger] tasks@[m]).node == order@[m]
                && tasks@[m].output_buffer < pool_size && buffer_of@[order@[m] as int] == tasks@[m].output_buffer by {
                if m < step {
                    assert(tasks@[m] == tasks0[m]);
                    assert(order@[m] != node);
                }
            }
            assert forall|m: int, kk: int| 0 <= m < step + 1 && 0 <= kk < g[order@[m] as int].len() implies #[trigger] input_from(
                tasks@,
                g,
                m,
                kk,
            ) by {
                if m < step {
                    assert(tasks@[m] == tasks0[m]);
                    assert(input_from(tasks0, g, m, kk));
                    let i = choose|i: int|
                        0 <= i < m && #[trigger] tasks0[i].node == g[tasks0[m].node as int][kk]
                            && tasks0[m].input_buffers@[kk] == tasks0[i].output_buffer;
                    assert(tasks@[i] == tasks0[i]);
                } else {
                    let i = choose|i: int|
                        0 <= i < step && #[trigger] tasks0[i].node == #[trigger] g[node as int][kk]
                            && tasks@[m].input_buffers@[kk] == tasks0[i].output_buffer;
                    assert(tasks@[i] == tasks0[i]);
                }
            }
            assert forall|b: usize| b < pool_size implies #[trigger] buffer_used(tasks@, b) by {
                if b < pool0 {
                    assert(buffer_used(tasks0, b));
                    let m = choose|m: int| 0 <= m < tasks0.len() && #[trigger] tasks0[m].output_buffer == b;
                    assert(tasks@[m] == tasks0[m]);
                } else {
                    assert(tasks@[step as int].output_buffer == b);
                }
            }
        }
        let ghost tasks1 = tasks@;
        let mut k: usize = 0;
        while k < len_node
            invariant
                n == ins@.len(),
                g == nested(ins@),
                wired(g),
                topo_order(g, order@),
                order@.no_duplicates(),
                step < n,
                node == order@[step as int],
                len_node == g[node as int].len(),
                k <= len_node,
                last_use@.len() == n,
                buffer_of@.len() == n,
                released@.len() == n,
                tasks@ == tasks1,
                tasks@.len() == step + 1,
                tasks@[step as int].output_buffer == out,
                forall|m: int| 0 <= m < step + 1 ==> (#[trigger] tasks@[m]).node == order@[m] && tasks@[m].output_buffer < pool_size
                    && buffer_of@[order@[m] as int] == tasks@[m].output_buffer,
                forall|t: int, kk: int|
                    0 <= t < n && 0 <= kk < g[order@[t] as int].len() ==> last_use@[#[trigger] g[order@[t] as int][kk] as int] >= t,
                free@.len() >= free1.len(),
                free@.subrange(0, free1.len() as int) == free1,
                forall|j: int|
                    free1.len() <= j < free@.len() ==> #[trigger] released_by(
                        free@,
                        j,
                        g[node as int],
                        k as int,
                        last_use@,
                        step,
                        buffer_of@,
                    ),
                forall|j: int| 0 <= j < free@.len() ==> #[trigger] free@[j] < pool_size,
                free@.no_duplicates(),
                !free1.contains(out),
                forall|ii: int|
                    0 <= ii < step && last_use@[order@[ii] as int] >= step ==> out != #[trigger] tasks@[ii].output_buffer
                        && !free1.contains(tasks@[ii].output_buffer),
                forall|ii: int, jj: int|
                    0 <= ii < step && 0 <= jj < step && ii != jj && last_use@[order@[ii] as int] >= step
                        && last_use@[order@[jj] as int] >= step ==> #[trigger] tasks@[ii].output_buffer
                        != #[trigger] tasks@[jj].output_buffer,
                forall|v: usize| v < n && last_use@[v as int] > step ==> !#[trigger] released@[v as int],
                forall|v: usize|
                    v < n && last_use@[v as int] == step && #[trigger] released@[v as int] ==> free@.contains(
                        buffer_of@[v as int],
                    ),
                forall|kk: int|
                    0 <= kk < k && last_use@[g[node as int][kk] as int] == step ==> #[trigger] released@[g[node as int][kk] as int],
            decreases len_node - k,
        {
            let p = ins[node][k];
            proof {
                assert(p == g[node as int][k as int]);
                assert(p < n);
            }
            if last_use[p] == step && !released[p] {
                let ghost free2 = free@;
                let ghost rel0 = released@;
                proof {
                    let pre = order@.subrange(0, step as int);
                    assert(pre.contains(g[order@[step as int] as int][k as int]));
                    let ip = choose|ip: int| 0 <= ip < pre.len() && pre[ip] == p;
                    assert(order@[ip] == p);
                    assert(buffer_of@[p as int] == tasks@[ip].output_buffer);
                    assert(last_use@[order@[ip] as int] >= step);
                    assert(!free2.contains(buffer_of@[p as int])) by {
                        if free2.contains(buffer_of@[p as int]) {
                            let j = choose|j: int| 0 <= j < free2.len() && free2[j] == buffer_of@[p as int];
                            if j < free1.len() {
                                assert(free2.subrange(0, free1.len() as int)[j] == free2[j]);
                                assert(free1[j] == free2[j]);
                                assert(free1.contains(tasks@[ip].output_buffer));
                            } else {
                                assert(released_by(free2, j, g[node as int], k as int, last_use@, step, buffer_of@));
                                let kk = choose|kk: int|
                                    0 <= kk < k && last_use@[g[node as int][kk] as int] == step && free2[j]
                                        == buffer_of@[#[trigger] g[node as int][kk] as int];
                                let q = g[node as int][kk];
                                assert(released@[q as int]);
                                assert(q != p);
                                assert(pre.contains(g[order@[step as int] as int][kk]));
                                let iq = choose|iq: int| 0 <= iq < pre.len() && pre[iq] == q;
                                assert(order@[iq] == q);
                                assert(buffer_of@[q as int] == tasks@[iq].output_buffer);
                                assert(iq != ip);
                                assert(tasks@[iq].output_buffer != tasks@[ip].output_buffer);
                            }
                        }
                    }
                    assert(tasks@[ip].output_buffer < pool_size);
                }
                free.push(buffer_of[p]);
                released.set(p, true);
                proof {
                    assert(free@.subrange(0, free1.len() as int) =~= free2.subrange(0, free1.len() as int));
                    assert forall|j: int|
                        free1.len() <= j < free@.len() implies #[trigger] released_by(
                            free@,
                            j,
                            g[node as int],
                            k + 1,
                            last_use@,
                            step,
                            buffer_of@,
                        ) by {
                        if j < free2.len() {
                            assert(free@[j] == free2[j]);
                            assert(released_by(free2, j, g[node as int], k as int, last_use@, step, buffer_of@));
                            let kk = choose|kk: int|
                                0 <= kk < k && last_use@[g[node as int][kk] as int] == step && free2[j]
                                    == buffer_of@[#[trigger] g[node as int][kk] as int];
                            assert(g[node as int][kk] == g[node as int][kk]);
                        } else {
                            assert(free@[j] == buffer_of@[g[node as int][k as int] as int]);
                        }
                    }
                    assert forall|a: int, b: int| 0 <= a < free@.len() && 0 <= b < free@.len() && a != b implies free@[a]
                        != free@[b] by {
                        if a < free2.len() && b < free2.len() {
                            assert(free@[a] == free2[a]);
                            assert(free@[b] == free2[b]);
                        } else if a < free2.len() {
                            assert(free2.contains(free@[a]));
                        } else {
                            assert(free2.contains(free@[b]));
                        }
                    }
                    assert forall|v: usize|
                        v < n && last_use@[v as int] == step && #[trigger] released@[v as int] implies free@.contains(
                            buffer_of@[v as int],
                        ) by {
                        if v == p {
                            assert(free@[free@.len() - 1] == buffer_of@[p as int]);
                        } else {
                            assert(rel0[v as int]);
                            let j = choose|j: int| 0 <= j < free2.len() && free2[j] == buffer_of@[v as int];
                            assert(free@[j] == free2[j]);
                        }
                    }
                    assert forall|kk: int| 0 <= kk < k + 1 && last_use@[g[node as int][kk] as int] == step implies #[trigger] released@[g[node as int][kk] as int] by {
                        if kk < k && g[node as int][kk] != p {
                            assert(rel0[g[node as int][kk] as int]);
                        }
                    }
                }
            } else {
                proof {
                    assert forall|j: int|
                        free1.len() <= j < free@.len() implies #[trigger] released_by(
                            free@,
                            j,
                            g[node as int],
                            k + 1,
                            last_use@,
                            step,
                            buffer_of@,
                        ) by {
                        assert(released_by(free@, j, g[node as int], k as int, last_use@, step, buffer_of@));
                        let kk = choose|kk: int|
                            0 <= kk < k && last_use@[g[node as int][kk] as int] == step && free@[j]
                                == buffer_of@[#[trigger] g[node as int][kk] as int];
                        assert(g[node as int][kk] == g[node as int][kk]);
                    }
                }
            }
            k += 1;
        }
        proof {
            let fr = free@;
            assert(tasks@ == tasks0.push(tasks@[step as int]));
            // Every buffer on the free list is either an old one or one whose
            // producer was last read by this step.
            assert forall|j: int| 0 <= j < fr.len() implies (j < free1.len() && fr[j] == free1[j]) || exists|ip: int|
                0 <= ip < step && last_use@[order@[ip] as int] == step && #[trigger] fr[j] == tasks@[ip].output_buffer by {
                if j < free1.len() {
                    assert(fr.subrange(0, free1.len() as int)[j] == fr[j]);
                } else {
                    assert(released_by(fr, j, g[node as int], len_node as int, last_use@, step, buffer_of@));
                    let kk = choose|kk: int|
                        0 <= kk < len_node && last_use@[g[node as int][kk] as int] == step && fr[j]
                            == buffer_of@[#[trigger] g[node as int][kk] as int];
                    let q = g[node as int][kk];
                    let pre = order@.subrange(0, step as int);
                    assert(pre.contains(g[order@[step as int] as int][kk]));
                    let iq = choose|iq: int| 0 <= iq < pre.len() && pre[iq] == q;
                    assert(order@[iq] == q);
                    assert(buffer_of@[q as int] == tasks@[iq].output_buffer);
                }
            }
            assert forall|ii: int|
                0 <= ii < step + 1 && last_use@[order@[ii] as int] >= step + 1 implies !fr.contains(
                    #[trigger] tasks@[ii].output_buffer,
                ) by {
                if fr.contains(tasks@[ii].output_buffer) {
                    let j = choose|j: int| 0 <= j < fr.len() && fr[j] == tasks@[ii].output_buffer;
                    if j < free1.len() && fr[j] == free1[j] {
                        assert(free1.contains(fr[j]));
                    } else {
                        let ip = choose|ip: int|
                            0 <= ip < step && last_use@[order@[ip] as int] == step && #[trigger] fr[j]
                                == tasks@[ip].output_buffer;
                        assert(ip != ii);
                    }
                }
            }
            assert forall|ii: int, jj: int|
                0 <= ii < step + 1 && 0 <= jj < step + 1 && ii != jj && last_use@[order@[ii] as int] >= step + 1
                    && last_use@[order@[jj] as int] >= step + 1 implies #[trigger] tasks@[ii].output_buffer
                    != #[trigger] tasks@[jj].output_buffer by {
            }
            assert forall|ii: int, m: int|
                0 <= ii < m < step + 1 && last_use@[order@[ii] as int] >= m implies #[trigger] tasks@[m].output_buffer
                    != #[trigger] tasks@[ii].output_buffer by {
                if m < step {
                    assert(tasks@[m] == tasks0[m]);
                    assert(tasks@[ii] == tasks0[ii]);
                }
            }
            // The node just run holds its buffer until its last reader.
            assert(stays(last_use@, node, step + 1)) by {
                if node != sink && last_use@[node as int] != 0 {
                    let r = last_use@[node as int] as int;
                    assert(g[order@[r] as int].contains(node));
                    let kk = choose|kk: int| 0 <= kk < g[order@[r] as int].len() && g[order@[r] as int][kk] == node;
                    assert(order@.subrange(0, r).contains(g[order@[r] as int][kk]));
                    let j = choose|j: int| 0 <= j < r && order@.subrange(0, r)[j] == node;
                    assert(order@[j] == order@[step as int]);
                }
            }
            assert forall|b: usize| b < pool_size && !fr.contains(b) implies #[trigger] kept(
                tasks@,
                last_use@,
                order@,
                b,
                step + 1,
            ) by {
                if b == out {
                    assert(tasks@[step as int].output_buffer == b);
                } else {
                    assert(b < pool0);
                    if free0.contains(b) {
                        assert(free1.contains(b));
                        let j = choose|j: int| 0 <= j < free1.len() && free1[j] == b;
                        assert(fr.subrange(0, free1.len() as int)[j] == fr[j]);
                        assert(fr.contains(b));
                    } else {
                        assert(kept(tasks0, last_use@, order@, b, step as int));
                        let ii = choose|ii: int|
                            0 <= ii < step && #[trigger] tasks0[ii].output_buffer == b && stays(last_use@, order@[ii], step as int);
                        assert(tasks@[ii] == tasks0[ii]);
                        let v = order@[ii];
                        if last_use@[v as int] == step && step != 0 {
                            assert(v != sink);
                            assert(g[order@[step as int] as int].contains(v));
                            let kk = choose|kk: int| 0 <= kk < g[node as int].len() && g[node as int][kk] == v;
                            assert(released@[g[node as int][kk] as int]);
                            assert(buffer_of@[order@[ii] as int] == tasks@[ii].output_buffer);
                            assert(fr.contains(b));
                        } else {
                            assert(stays(last_use@, order@[ii], step + 1));
                        }
                    }
                }
            }
            assert forall|m: int, b: usize|
                0 <= m < step + 1 && fresh_buffer(tasks@, m) && b < tasks@[m].output_buffer implies #[trigger] kept(
                tasks@,
                last_use@,
                order@,
                b,
                m,
            ) by {
                if m < step {
                    assert(fresh_buffer(tasks0, m));
                    assert(kept(tasks0, last_use@, order@, b, m));
                } else if free0.len() > 0 {
                    assert(free0.contains(out));
                    assert(buffer_used(tasks0, out));
                    let m2 = choose|m2: int| 0 <= m2 < tasks0.len() && #[trigger] tasks0[m2].output_buffer == out;
                    assert(tasks@[m2] == tasks0[m2]);
                    assert(!fresh_buffer(tasks@, m));
                } else {
                    assert(!free0.contains(b));
                    assert(kept(tasks0, last_use@, order@, b, step as int));
                }
            }
        }
        step += 1;
    }
    proof {
        assert(order@.contains(sink));
    }
    let sink_buffer = buffer_of[sink];
    let s = Schedule { tasks, pool_size, sink_buffer };
    proof {
        let t = s.tasks@;
        assert(task_nodes(t) =~= order@);
        assert forall|m: int| 0 <= m < t.len() implies (#[trigger] t[m]).input_buffers@.len() == g[t[m].node as int].len() by {}
        assert forall|m: int, k: int| 0 <= m < t.len() && 0 <= k < g[t[m].node as int].len() implies #[trigger] input_from(
            t,
            g,
            m,
            k,
        ) by {
            assert(t[m].node == order@[m]);
        }
        let ts = choose|j: int| 0 <= j < order@.len() && order@[j] == sink;
        assert(t[ts].node == sink && t[ts].output_buffer == sink_buffer);
        assert forall|ii: int, m: int, r: int|
            #![trigger g[t[r].node as int].contains(t[ii].node), t[m].output_buffer]
            0 <= ii < m <= r < t.len() && g[t[r].node as int].contains(t[ii].node) implies t[m].output_buffer
                != t[ii].output_buffer by {
            let v = t[r].node;
            let k = choose|k: int| 0 <= k < g[v as int].len() && g[v as int][k] == t[ii].node;
            assert(v == order@[r]);
            assert(last_use@[g[order@[r] as int][k] as int] >= r);
        }
        assert forall|ii: int, m: int| 0 <= ii < m < t.len() && #[trigger] t[ii].node == sink implies #[trigger] t[m].output_buffer
            != t[ii].output_buffer by {
        }
        assert forall|m: int, b: usize|
            0 <= m < t.len() && fresh_buffer(t, m) && b < t[m].output_buffer implies #[trigger] held_buffer(g, sink, t, b, m) by {
            assert(kept(t, last_use@, order@, b, m));
            let ii = choose|ii: int| 0 <= ii < m && #[trigger] t[ii].output_buffer == b && stays(last_use@, order@[ii], m);
            let v = order@[ii];
            assert(t[ii].node == v);
            if v == sink {
            } else if last_use@[v as int] == 0 {
                assert forall|r: int| 0 <= r < t.len() implies !#[trigger] g[t[r].node as int].contains(t[ii].node) by {
                    assert(t[r].node == order@[r]);
                }
            } else {
                let r = last_use@[v as int] as int;
                assert(t[r].node == order@[r]);
                assert(g[t[r].node as int].contains(t[ii].node));
            }
            assert(held(g, sink, t, ii, m));
        }
    }
    s
}

/// The wiring of an audio graph: for every node, the producers feeding its
/// inputs, in connection order. Nodes are numbered in the order they were
/// added.
#[derive(Debug)]
pub struct Topology {
    inputs: Vec<Vec<usize>>,
}

impl View for Topology {
    type V = Seq<Seq<usize>>;

    closed spec fn view(&self) -> Seq<Seq<usize>> {
        nested(self.inputs@)
    }
}

impl Topology {
    /// Every connection names nodes of this topology.
    #[verifier::type_invariant]
    spec fn connections_known(self) -> bool {
        wired(nested(self.inputs@))
    }

    /// A topology without nodes.
    pub fn new() -> (t: Topology)
        ensures
            t@ == Seq::<Seq<usize>>::empty(),
    {
        let t = Topology { inputs: Vec::new() };
        assert(t@ =~= Seq::<Seq<usize>>::empty());
        t
    }

    /// Number of nodes.
    pub fn len(&self) -> (r: usize)
        ensures
            r == self@.len(),
    {
        self.inputs.len()
    }

    /// Adds a node without inputs and returns its id.
    pub fn add(&mut self) -> (id: NodeId)
        ensures
            final(self)@ == old(self)@.push(Seq::<usize>::empty()),
            id.index() == old(self)@.len(),
    {
        proof {
            use_type_invariant(&*self);
        }
        let mut v: Vec<Vec<usize>> = Vec::new();
        std::mem::swap(&mut v, &mut self.inputs);
        let ghost before = nested(v@);
        let id = NodeId(v.len());
        v.push(Vec::new());
        proof {
            assert(nested(v@) =~= before.push(Seq::<usize>::empty()));
        }
        self.inputs = v;
        id
    }

    /// Connects `from`'s output into `to`'s inputs.
    ///
    /// Fails with [`GraphError::UnknownNode`], changing nothing, when either
    /// id does not belong to this topology.
    pub fn connect(&mut self, from: NodeId, to: NodeId) -> (r: Result<(), GraphError>)
        ensures
            from.index() >= old(self)@.len() || to.index() >= old(self)@.len() ==> r == Err::<(), GraphError>(
                GraphError::UnknownNode,
            ) && final(self)@ == old(self)@,
            from.index() < old(self)@.len() && to.index() < old(self)@.len() ==> r is Ok && final(self)@ == old(
                self,
            )@.update(to.index() as int, old(self)@[to.index() as int].push(from.index())),
    {
        proof {
            use_type_invariant(&*self);
        }
        if from.0 >= self.inputs.len() || to.0 >= self.inputs.len() {
            return Err(GraphError::UnknownNode);
        }
        let mut v: Vec<Vec<usize>> = Vec::new();
        std::mem::swap(&mut v, &mut self.inputs);
        let ghost before = nested(v@);
        let mut row: Vec<usize> = Vec::new();
        let mut k: usize = 0;
        while k < v[to.0].len()
            invariant
                to.0 < v@.len(),
                k <= v@[to.0 as int]@.len(),
                row@ == v@[to.0 as int]@.subrange(0, k as int),
            decreases v@[to.0 as int]@.len() - k,
        {
            row.push(v[to.0][k]);
            proof {
                assert(v@[to.0 as int]@.subrange(0, k + 1) =~= v@[to.0 as int]@.subrange(0, k as int).push(
                    v@[to.0 as int]@[k as int],
                ));
            }
            k += 1;
        }
        proof {
            assert(v@[to.0 as int]@.subrange(0, k as int) =~= v@[to.0 as int]@);
        }
        row.push(from.0);
        v.set(to.0, row);
        proof {
            assert(nested(v@) =~= before.update(to.0 as int, before[to.0 as int].push(from.0)));
            assert forall|c: int, k: int|
                0 <= c < nested(v@).len() && 0 <= k < nested(v@)[c].len() implies #[trigger] nested(v@)[c][k]
                < nested(v@).len() by {
                if c != to.0 as int || k < before[c].len() {
                    assert(nested(v@)[c][k] == before[c][k]);
                }
            }
        }
        self.inputs = v;
        Ok(())
    }

    /// Compiles the topology: a topological task order (cycle detection),
    /// then buffer assignment by liveness, where a buffer is recycled after
    /// its last reader.
    ///
    /// Fails with [`GraphError::UnknownNode`] when `sink` is not a node, and
    /// with [`GraphError::Cycle`] exactly when the graph has a cycle.
    pub fn compile(&self, sink: NodeId) -> (r: Result<Schedule, GraphError>)
        ensures
            r matches Err(e) ==> (e is UnknownNode <==> sink.index() >= self@.len()),
            sink.index() >= self@.len() ==> r is Err,
            sink.index() < self@.len() ==> (r is Err <==> !acyclic(self@)),
            r matches Ok(s) ==> schedule_valid(self@, sink.index(), s),
    {
        proof {
            use_type_invariant(self);
        }
        if sink.0 >= self.inputs.len() {
            return Err(GraphError::UnknownNode);
        }
        match kahn_order(&self.inputs) {
            Err(e) => Err(e),
            Ok(order) => Ok(assign_buffers(&self.inputs, &order, sink.0)),
        }
    }
}
/// Every producer is a node other than the first, and every node but the
/// first is fed only by nodes added before it: the shape of a graph whose
/// chains all end in a sink added first.
pub open spec fn feeds_forward(ins: Seq<Seq<usize>>) -> bool {
    forall|c: int, k: int|
        0 <= c < ins.len() && 0 <= k < ins[c].len() ==> 1 <= #[trigger] ins[c][k] < ins.len() && (c
            > 0 ==> ins[c][k] < c)
}

/// The order that runs nodes 1, 2, ... and then node 0.
pub open spec fn sink_last_order(n: int) -> Seq<usize> {
    Seq::new(n as nat, |i: int| if i < n - 1 { (i + 1) as usize } else { 0usize })
}

/// A graph that feeds forward into its first node has no cycle: running
/// every other node in the order added, then the first, respects every edge.
pub proof fn law_feeds_forward_acyclic(ins: Seq<Seq<usize>>)
    requires
        ins.len() <= usize::MAX,
        feeds_forward(ins),
    ensures
        acyclic(ins),
{
    let n = ins.len() as int;
    let order = sink_last_order(n);
    assert forall|v: usize| v < ins.len() implies #[trigger] order.contains(v) by {
        if v == 0 {
            assert(order[n - 1] == 0);
        } else {
            assert(order[v - 1] == v);
        }
    }
    assert forall|j: int, k: int|
        0 <= j < order.len() && 0 <= k < ins[order[j] as int].len() implies #[trigger] order.subrange(
        0,
        j,
    ).contains(#[trigger] ins[order[j] as int][k]) by {
        let c = order[j] as int;
        let p = ins[c][k];
        assert(1 <= p < n);
        if j < n - 1 {
            assert(c == j + 1);
            assert(p < c);
            assert(order.subrange(0, j)[p - 1] == p);
        } else {
            assert(order.subrange(0, j)[p - 1] == p);
        }
    }
    assert(topo_order(ins, order));
}

} // verus!
