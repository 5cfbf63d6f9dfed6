//! The graph a layout induces, layouts whose connections all run forward (every
//! node reads only from nodes added before it), and the facts the buffer sweep
//! relies on when the graph orders the connections and no output is shared.

use vstd::prelude::*;

use crate::id::IncrementalId;
use crate::pipeline::graph::{
    adjacency_closed, edges_adjacency, is_acyclic, is_edge, is_topological_order, resize_adjacency,
};
use crate::pipeline::layout::{connection_edges, input_sources, layout_graph, lemma_connection_edges_shape};
use crate::pipeline::layout::{inputs_in_range, output_indices_in_range};
use crate::pipeline::template::{assignment_shape, event_le, events_sorted, Event};
use crate::pipeline::{node_inputs, BufferAssignment, NodeId, PipelineAudioNode};

verus! {

/// Every input of a node reads from a node added before it.
pub open spec fn forward_layout(nodes: Seq<PipelineAudioNode>) -> bool {
    forall|v: int, k: int|
        0 <= v < nodes.len() && 0 <= k < node_inputs(nodes[v]).len() ==> #[trigger] input_sources(nodes[v])[k]
            < v
}

/// No output is read by two inputs.
pub open spec fn outputs_read_once(nodes: Seq<PipelineAudioNode>) -> bool {
    forall|v1: int, k1: int, v2: int, k2: int|
        0 <= v1 < nodes.len() && 0 <= k1 < node_inputs(nodes[v1]).len() && 0 <= v2 < nodes.len() && 0 <= k2
            < node_inputs(nodes[v2]).len() && (v1 != v2 || k1 != k2) ==> #[trigger] node_inputs(nodes[v1])[k1]
            != #[trigger] node_inputs(nodes[v2])[k2]
}

/// The adjacency that `Graph::from_edges` builds from edges that each go up, in
/// order of non-decreasing target: as many lists as the last target plus one,
/// and `u -> v` listed exactly when the edge is given.
proof fn lemma_forward_adjacency(edges: Seq<(nat, nat)>)
    requires
        forall|j: int| 0 <= j < edges.len() ==> (#[trigger] edges[j]).0 < edges[j].1,
        forall|i: int, j: int| 0 <= i <= j < edges.len() ==> (#[trigger] edges[i]).1 <= (#[trigger] edges[j]).1,
    ensures
        edges.len() == 0 ==> edges_adjacency(edges).len() == 0,
        edges.len() > 0 ==> edges_adjacency(edges).len() == edges.last().1 + 1,
        forall|u: int, v: nat|
            0 <= u < edges_adjacency(edges).len() ==> (#[trigger] edges_adjacency(edges)[u].contains(v)
                <==> edges.contains((u as nat, v))),
        forall|u: nat, v: nat| #[trigger] edges.contains((u, v)) ==> u < edges_adjacency(edges).len(),
    decreases edges.len(),
{
    if edges.len() > 0 {
        let prev_edges = edges.drop_last();
        assert forall|i: int, j: int| 0 <= i <= j < prev_edges.len() implies (#[trigger] prev_edges[i]).1
            <= (#[trigger] prev_edges[j]).1 by {
            assert(prev_edges[i] == edges[i] && prev_edges[j] == edges[j]);
        }
        assert forall|j: int| 0 <= j < prev_edges.len() implies (#[trigger] prev_edges[j]).0 < prev_edges[j].1 by {
            assert(prev_edges[j] == edges[j]);
        }
        lemma_forward_adjacency(prev_edges);
        let prev = edges_adjacency(prev_edges);
        let (from, to) = edges.last();
        assert(edges[edges.len() - 1] == (from, to));
        assert(from < to);
        let n = to + 1;
        let resized = resize_adjacency(prev, n);
        let g = edges_adjacency(edges);
        assert(g == resized.update(from as int, resized[from as int].push(to)));
        if prev_edges.len() > 0 {
            assert(prev_edges.last() == edges[edges.len() - 2]);
            assert(prev_edges.last().1 <= to);
        }
        assert(prev.len() <= n);
        assert forall|u: int, v: nat| 0 <= u < g.len() implies (#[trigger] g[u].contains(v) <==> edges.contains(
            (u as nat, v),
        )) by {
            if u < prev.len() {
                assert(resized[u] == prev[u]);
            } else {
                assert(resized[u] =~= Seq::<nat>::empty());
                assert(!prev_edges.contains((u as nat, v)));
            }
            if edges.contains((u as nat, v)) {
                let j = choose|j: int| 0 <= j < edges.len() && edges[j] == (u as nat, v);
                if j < edges.len() - 1 {
                    assert(prev_edges[j] == edges[j]);
                    assert(prev_edges.contains((u as nat, v)));
                }
            }
            if prev_edges.contains((u as nat, v)) {
                let j = choose|j: int| 0 <= j < prev_edges.len() && prev_edges[j] == (u as nat, v);
                assert(edges[j] == prev_edges[j]);
            }
            if u == from {
                let l = resized[u];
                if l.contains(v) {
                    let i = choose|i: int| 0 <= i < l.len() && l[i] == v;
                    assert(g[u][i] == v);
                }
                if g[u].contains(v) {
                    let i = choose|i: int| 0 <= i < g[u].len() && g[u][i] == v;
                    if i < l.len() {
                        assert(l[i] == v);
                    }
                }
                assert(g[u][l.len() as int] == to);
            } else {
                assert(g[u] == resized[u]);
            }
        }
        assert forall|u: nat, v: nat| #[trigger] edges.contains((u, v)) implies u < g.len() by {
            let j = choose|j: int| 0 <= j < edges.len() && edges[j] == (u, v);
            assert(edges[j].1 <= to);
            assert(edges[j].0 < edges[j].1);
        }
    }
}

/// Every input of the nodes `0..m` gives an edge from its source to its reader.
proof fn lemma_connection_edges_cover(nodes: Seq<PipelineAudioNode>, m: nat)
    requires
        m <= nodes.len(),
    ensures
        forall|v: int, k: int|
            0 <= v < m && 0 <= k < node_inputs(nodes[v]).len() ==> #[trigger] connection_edges(nodes, m).contains(
                (input_sources(nodes[v])[k], v as nat),
            ),
    decreases m,
{
    if m > 0 {
        let p = (m - 1) as nat;
        lemma_connection_edges_cover(nodes, p);
        let prev = connection_edges(nodes, p);
        let srcs = input_sources(nodes[p as int]);
        let tail = Seq::new(srcs.len(), |k: int| (srcs[k], p));
        let all = connection_edges(nodes, m);
        assert(all == prev + tail);
        assert forall|v: int, k: int| 0 <= v < m && 0 <= k < node_inputs(nodes[v]).len() implies #[trigger] all.contains(
            (input_sources(nodes[v])[k], v as nat),
        ) by {
            if v < p {
                let e = (input_sources(nodes[v])[k], v as nat);
                assert(prev.contains(e));
                let j = choose|j: int| 0 <= j < prev.len() && prev[j] == e;
                assert(all[j] == prev[j]);
            } else {
                assert(all[prev.len() + k] == tail[k]);
            }
        }
    }
}

/// The graph of a forward layout: one list per node, closed and acyclic, and
/// `u -> v` is an edge exactly when node `v` reads from node `u`.
pub proof fn lemma_forward_layout_graph(nodes: Seq<PipelineAudioNode>)
    requires
        forward_layout(nodes),
    ensures
        layout_graph(nodes).len() == nodes.len(),
        adjacency_closed(layout_graph(nodes)),
        is_acyclic(layout_graph(nodes)),
        forall|v: int, k: int|
            0 <= v < nodes.len() && 0 <= k < node_inputs(nodes[v]).len() ==> #[trigger] is_edge(
                layout_graph(nodes),
                input_sources(nodes[v])[k],
                v as nat,
            ),
        forall|u: nat, v: nat|
            #[trigger] is_edge(layout_graph(nodes), u, v) ==> u < v && v < nodes.len() && exists|k: int|
                0 <= k < node_inputs(nodes[v as int]).len() && input_sources(nodes[v as int])[k] == u,
{
    let n = nodes.len();
    let ce = connection_edges(nodes, n);
    let g0 = edges_adjacency(ce);
    let g = layout_graph(nodes);
    lemma_connection_edges_shape(nodes, n);
    lemma_connection_edges_cover(nodes, n);
    assert forall|j: int| 0 <= j < ce.len() implies (#[trigger] ce[j]).0 < ce[j].1 by {
        let e = ce[j];
        let k = choose|k: int|
            0 <= k < node_inputs(nodes[e.1 as int]).len() && input_sources(nodes[e.1 as int])[k] == e.0;
        assert(input_sources(nodes[e.1 as int])[k] < e.1);
    }
    lemma_forward_adjacency(ce);
    if ce.len() > 0 {
        assert(ce[ce.len() - 1].1 < n);
    }
    assert(g0.len() <= n);
    assert(g == resize_adjacency(g0, n));
    assert forall|u: int| 0 <= u < n implies #[trigger] g[u] == if u < g0.len() {
        g0[u]
    } else {
        Seq::<nat>::empty()
    } by {}
    assert forall|u: nat, v: nat| #[trigger] is_edge(g, u, v) implies u < v && v < n && exists|k: int|
        0 <= k < node_inputs(nodes[v as int]).len() && input_sources(nodes[v as int])[k] == u by {
        assert(g[u as int].contains(v));
        if (u as int) >= g0.len() {
            assert(g[u as int] =~= Seq::<nat>::empty());
        }
        assert(g0[u as int].contains(v));
        assert(ce.contains((u, v)));
        let j = choose|j: int| 0 <= j < ce.len() && ce[j] == (u, v);
        assert(ce[j].0 < ce[j].1);
    }
    assert forall|u: int, k: int| 0 <= u < g.len() && 0 <= k < g[u].len() implies #[trigger] g[u][k] < g.len() by {
        assert(g[u].contains(g[u][k]));
        assert(is_edge(g, u as nat, g[u][k]));
    }
    assert forall|v: int, k: int| 0 <= v < n && 0 <= k < node_inputs(nodes[v]).len() implies #[trigger] is_edge(
        g,
        input_sources(nodes[v])[k],
        v as nat,
    ) by {
        let u = input_sources(nodes[v])[k];
        assert(ce.contains((u, v as nat)));
        assert(u < g0.len());
        assert(g0[u as int].contains(v as nat));
        assert(g[u as int] == g0[u as int]);
    }
    // Edges go up, so the identity order is topological and the graph acyclic.
    let id = Seq::new(g.len(), |i: int| i as nat);
    assert(is_topological_order(g, id)) by {
        assert(id.no_duplicates());
        assert forall|v: nat| v < g.len() implies #[trigger] id.contains(v) by {
            assert(id[v as int] == v);
        }
        assert forall|i: int, j: int| 0 <= i < id.len() && 0 <= j < id.len() && #[trigger] is_edge(g, id[i], id[j])
            implies i < j by {
            assert(id[i] < id[j]);
        }
    }
    crate::pipeline::graph::lemma_topological_order_acyclic(g, id);
}

// ---------------------------------------------------------------------------
// Connections and the buffers they are given.
// ---------------------------------------------------------------------------

/// Input `k` of node `v` exists: it is a connection, read by `v`.
pub open spec fn is_connection(nodes: Seq<PipelineAudioNode>, v: int, k: int) -> bool {
    0 <= v < nodes.len() && 0 <= k < node_inputs(nodes[v]).len()
}

/// A name for "connection `(v, k)` is meant", used to pick out which
/// connections a statement about all of them is applied to.
pub open spec fn listed(nodes: Seq<PipelineAudioNode>, v: int, k: int) -> bool {
    is_connection(nodes, v, k)
}

/// The node that input `k` of node `v` reads from.
pub open spec fn source_of(nodes: Seq<PipelineAudioNode>, v: int, k: int) -> nat {
    input_sources(nodes[v])[k]
}

/// The output of its source that input `k` of node `v` reads.
pub open spec fn output_of(nodes: Seq<PipelineAudioNode>, v: int, k: int) -> nat {
    node_inputs(nodes[v])[k].output_index as nat
}

/// The buffer input `k` of node `v` reads from.
pub open spec fn input_buffer(a: Seq<BufferAssignment>, v: int, k: int) -> nat {
    a[v].input_slots()[k]
}

/// The buffer the source of input `k` of node `v` writes that output into.
pub open spec fn output_buffer(nodes: Seq<PipelineAudioNode>, a: Seq<BufferAssignment>, v: int, k: int) -> nat {
    a[source_of(nodes, v, k) as int].output_slots()[output_of(nodes, v, k) as int]
}

/// Every input reads the very buffer its source writes the output into, and
/// that buffer is one of the first `count`.
pub open spec fn wired(nodes: Seq<PipelineAudioNode>, a: Seq<BufferAssignment>, count: nat) -> bool {
    forall|v: int, k: int|
        is_connection(nodes, v, k) ==> #[trigger] input_buffer(a, v, k) == output_buffer(nodes, a, v, k)
            && input_buffer(a, v, k) < count
}

/// Two connections are live at once: each is written (at its source's turn in
/// `order`) no later than the other is read (at its reader's turn).
pub open spec fn live_together(
    nodes: Seq<PipelineAudioNode>,
    order: Seq<nat>,
    v1: int,
    k1: int,
    v2: int,
    k2: int,
) -> bool {
    &&& order.index_of(source_of(nodes, v1, k1)) <= order.index_of(v2 as nat)
    &&& order.index_of(source_of(nodes, v2, k2)) <= order.index_of(v1 as nat)
}

/// Distinct connections that are live at once never share a buffer.
pub open spec fn unaliased(nodes: Seq<PipelineAudioNode>, order: Seq<nat>, a: Seq<BufferAssignment>) -> bool {
    forall|v1: int, k1: int, v2: int, k2: int|
        is_connection(nodes, v1, k1) && is_connection(nodes, v2, k2) && (v1 != v2 || k1 != k2)
            && live_together(nodes, order, v1, k1, v2, k2) ==> #[trigger] input_buffer(a, v1, k1)
            != #[trigger] input_buffer(a, v2, k2)
}

// ---------------------------------------------------------------------------
// The events of the buffer sweep, as the planning builds them.
// ---------------------------------------------------------------------------

/// The event at which a connection starts: its source's turn.
pub open spec fn start_event(nodes: Seq<PipelineAudioNode>, turns: Seq<usize>, v: int, k: int) -> Event {
    (
        turns[source_of(nodes, v, k) as int],
        0usize,
        source_of(nodes, v, k) as usize,
        v as usize,
        output_of(nodes, v, k) as usize,
        k as usize,
    )
}

/// The event at which a connection ends: its reader's turn.
pub open spec fn end_event(nodes: Seq<PipelineAudioNode>, turns: Seq<usize>, v: int, k: int) -> Event {
    (turns[v], 1usize, source_of(nodes, v, k) as usize, output_of(nodes, v, k) as usize, 0usize, 0usize)
}

/// The facts about a layout whose connections are all edges of its graph and
/// whose outputs are each read once, and a topological order of that graph
/// (given by each node's turn), that the sweep relies on.
pub open spec fn turn_context(nodes: Seq<PipelineAudioNode>, g: Seq<Seq<nat>>, turns: Seq<usize>) -> bool {
    &&& connections_kept(nodes)
    &&& outputs_read_once(nodes)
    &&& g == layout_graph(nodes)
    &&& nodes.len() < usize::MAX
    &&& turns.len() == g.len()
    &&& forall|x: int| 0 <= x < g.len() ==> #[trigger] turns[x] < g.len()
    &&& forall|x: int, y: int| 0 <= x < g.len() && 0 <= y < g.len() && #[trigger] turns[x] == #[trigger] turns[y] ==> x == y
    &&& forall|a: nat, b: nat| #[trigger] is_edge(g, a, b) ==> turns[a as int] < turns[b as int]
}

/// Connection `(v, k)` comes before input `j` of node `w` when the inputs are
/// walked node by node and, per node, in input order.
pub open spec fn walked_before(v: int, k: int, w: int, j: int) -> bool {
    v < w || (v == w && k < j)
}

/// `evs` holds, once each, the start and end events of the connections walked
/// before input `j` of node `w`, and nothing else.
pub open spec fn events_built(
    nodes: Seq<PipelineAudioNode>,
    turns: Seq<usize>,
    evs: Seq<Event>,
    w: int,
    j: int,
) -> bool {
    &&& evs.no_duplicates()
    &&& forall|x: Event|
        #[trigger] evs.contains(x) ==> exists|v: int, k: int|
            is_connection(nodes, v, k) && walked_before(v, k, w, j) && (x == start_event(nodes, turns, v, k)
                || x == end_event(nodes, turns, v, k))
    &&& forall|v: int, k: int|
        #[trigger] listed(nodes, v, k) && walked_before(v, k, w, j) ==> evs.contains(
            start_event(nodes, turns, v, k),
        ) && evs.contains(end_event(nodes, turns, v, k))
}

/// Every connection is an edge of the layout graph: `Graph::from_edges`, which
/// cuts its lists to the larger end of each edge in turn, lost none of them.
pub open spec fn connections_kept(nodes: Seq<PipelineAudioNode>) -> bool {
    forall|v: int, k: int|
        is_connection(nodes, v, k) ==> #[trigger] is_edge(layout_graph(nodes), source_of(nodes, v, k), v as nat)
}

/// The endpoints of every connection of a layout that keeps its connections are
/// nodes of its graph, joined by an edge.
pub proof fn lemma_connection_in_graph(nodes: Seq<PipelineAudioNode>, v: int, k: int)
    requires
        connections_kept(nodes),
        is_connection(nodes, v, k),
    ensures
        is_edge(layout_graph(nodes), source_of(nodes, v, k), v as nat),
        source_of(nodes, v, k) < layout_graph(nodes).len(),
        v < layout_graph(nodes).len(),
{
}

/// Two inputs that read the same output of the same node are the same input.
proof fn lemma_same_output_same_connection(nodes: Seq<PipelineAudioNode>, v1: int, k1: int, v2: int, k2: int)
    requires
        outputs_read_once(nodes),
        is_connection(nodes, v1, k1),
        is_connection(nodes, v2, k2),
        source_of(nodes, v1, k1) == source_of(nodes, v2, k2),
        output_of(nodes, v1, k1) == output_of(nodes, v2, k2),
    ensures
        v1 == v2 && k1 == k2,
{
    let a = node_inputs(nodes[v1])[k1];
    let b = node_inputs(nodes[v2])[k2];
    NodeId::lemma_position_injective(a.node, b.node);
    assert(a == b);
}

/// Pushing the events of input `j` of node `w` extends what has been built by
/// that connection.
pub proof fn lemma_events_push(
    nodes: Seq<PipelineAudioNode>,
    g: Seq<Seq<nat>>,
    turns: Seq<usize>,
    evs: Seq<Event>,
    w: int,
    j: int,
)
    requires
        turn_context(nodes, g, turns),
        is_connection(nodes, w, j),
        events_built(nodes, turns, evs, w, j),
    ensures
        events_built(
            nodes,
            turns,
            evs.push(start_event(nodes, turns, w, j)).push(end_event(nodes, turns, w, j)),
            w,
            j + 1,
        ),
{
    let s = start_event(nodes, turns, w, j);
    let e = end_event(nodes, turns, w, j);
    let evs1 = evs.push(s);
    let evs2 = evs1.push(e);
    lemma_events_identify(nodes, g, turns, w, j, w, j);
    // Neither of its events was built before.
    assert(!evs.contains(s)) by {
        if evs.contains(s) {
            let (v2, k2) = choose|v2: int, k2: int|
                is_connection(nodes, v2, k2) && walked_before(v2, k2, w, j) && (s == start_event(
                    nodes,
                    turns,
                    v2,
                    k2,
                ) || s == end_event(nodes, turns, v2, k2));
            lemma_events_identify(nodes, g, turns, w, j, v2, k2);
        }
    }
    assert(!evs1.contains(e)) by {
        if evs1.contains(e) {
            let i = choose|i: int| 0 <= i < evs1.len() && evs1[i] == e;
            if i < evs.len() {
                assert(evs.contains(e));
                let (v2, k2) = choose|v2: int, k2: int|
                    is_connection(nodes, v2, k2) && walked_before(v2, k2, w, j) && (e == start_event(
                        nodes,
                        turns,
                        v2,
                        k2,
                    ) || e == end_event(nodes, turns, v2, k2));
                lemma_events_identify(nodes, g, turns, w, j, v2, k2);
                lemma_events_identify(nodes, g, turns, v2, k2, w, j);
            }
        }
    }
    assert(evs2.no_duplicates()) by {
        assert forall|a: int, b: int| 0 <= a < evs2.len() && 0 <= b < evs2.len() && a != b implies evs2[a]
            != evs2[b] by {
            if a < evs.len() && b < evs.len() {
                assert(evs2[a] == evs[a] && evs2[b] == evs[b]);
            } else if a < evs.len() && b == evs.len() {
                assert(evs.contains(evs[a]));
            } else if b < evs.len() && a == evs.len() {
                assert(evs.contains(evs[b]));
            } else if a < evs1.len() {
                assert(evs1[a] == evs2[a]);
                assert(evs1.contains(evs1[a]));
            } else if b < evs1.len() {
                assert(evs1[b] == evs2[b]);
                assert(evs1.contains(evs1[b]));
            }
        }
    }
    assert forall|x: Event| #[trigger] evs2.contains(x) implies exists|v2: int, k2: int|
        is_connection(nodes, v2, k2) && walked_before(v2, k2, w, j + 1) && (x == start_event(
            nodes,
            turns,
            v2,
            k2,
        ) || x == end_event(nodes, turns, v2, k2)) by {
        let i = choose|i: int| 0 <= i < evs2.len() && evs2[i] == x;
        if i < evs.len() {
            assert(evs.contains(x));
            let (v2, k2) = choose|v2: int, k2: int|
                is_connection(nodes, v2, k2) && walked_before(v2, k2, w, j) && (x == start_event(
                    nodes,
                    turns,
                    v2,
                    k2,
                ) || x == end_event(nodes, turns, v2, k2));
            assert(walked_before(v2, k2, w, j + 1));
        } else {
            assert(walked_before(w, j, w, j + 1));
        }
    }
    assert forall|v2: int, k2: int|
        #[trigger] listed(nodes, v2, k2) && walked_before(v2, k2, w, j + 1) implies evs2.contains(
        start_event(nodes, turns, v2, k2),
    ) && evs2.contains(end_event(nodes, turns, v2, k2)) by {
        if v2 == w && k2 == j {
            assert(evs2[evs.len() as int] == s);
            assert(evs2[evs.len() as int + 1] == e);
        } else {
            assert(walked_before(v2, k2, w, j));
            assert(evs.contains(start_event(nodes, turns, v2, k2)));
            assert(evs.contains(end_event(nodes, turns, v2, k2)));
            let i1 = choose|i: int| 0 <= i < evs.len() && evs[i] == start_event(nodes, turns, v2, k2);
            let i2 = choose|i: int| 0 <= i < evs.len() && evs[i] == end_event(nodes, turns, v2, k2);
            assert(evs2[i1] == evs[i1] && evs2[i2] == evs[i2]);
        }
    }
}

/// Nothing is walked before the first input of the first node.
pub proof fn lemma_events_empty(nodes: Seq<PipelineAudioNode>, turns: Seq<usize>)
    ensures
        events_built(nodes, turns, Seq::empty(), 0, 0),
{
}

/// Once every input of node `w` is walked, the walked connections are those of
/// the nodes before `w + 1`.
pub proof fn lemma_events_next_node(nodes: Seq<PipelineAudioNode>, turns: Seq<usize>, evs: Seq<Event>, w: int)
    requires
        0 <= w < nodes.len(),
        events_built(nodes, turns, evs, w, node_inputs(nodes[w]).len() as int),
    ensures
        events_built(nodes, turns, evs, w + 1, 0),
{
    let len = node_inputs(nodes[w]).len() as int;
    assert forall|x: Event| #[trigger] evs.contains(x) implies exists|v: int, k: int|
        is_connection(nodes, v, k) && walked_before(v, k, w + 1, 0) && (x == start_event(nodes, turns, v, k)
            || x == end_event(nodes, turns, v, k)) by {
        let (v, k) = choose|v: int, k: int|
            is_connection(nodes, v, k) && walked_before(v, k, w, len) && (x == start_event(nodes, turns, v, k)
                || x == end_event(nodes, turns, v, k));
        assert(walked_before(v, k, w + 1, 0));
    }
    assert forall|v: int, k: int|
        #[trigger] listed(nodes, v, k) && walked_before(v, k, w + 1, 0) implies evs.contains(
        start_event(nodes, turns, v, k),
    ) && evs.contains(end_event(nodes, turns, v, k)) by {
        assert(walked_before(v, k, w, len));
    }
}

/// `evs` holds, once each, the start and end events of all connections, and
/// nothing else.
pub open spec fn all_events(nodes: Seq<PipelineAudioNode>, turns: Seq<usize>, evs: Seq<Event>) -> bool {
    &&& evs.no_duplicates()
    &&& forall|x: Event|
        #[trigger] evs.contains(x) ==> exists|v: int, k: int|
            is_connection(nodes, v, k) && (x == start_event(nodes, turns, v, k) || x == end_event(
                nodes,
                turns,
                v,
                k,
            ))
    &&& forall|v: int, k: int|
        #[trigger] listed(nodes, v, k) ==> evs.contains(start_event(nodes, turns, v, k)) && evs.contains(
            end_event(nodes, turns, v, k),
        )
}

/// Once every node's inputs are walked, every connection's events are built.
pub proof fn lemma_events_complete(nodes: Seq<PipelineAudioNode>, turns: Seq<usize>, evs: Seq<Event>)
    requires
        events_built(nodes, turns, evs, nodes.len() as int, 0),
    ensures
        all_events(nodes, turns, evs),
{
    assert forall|v: int, k: int| #[trigger] listed(nodes, v, k) implies evs.contains(
        start_event(nodes, turns, v, k),
    ) && evs.contains(end_event(nodes, turns, v, k)) by {
        assert(walked_before(v, k, nodes.len() as int, 0));
    }
    assert forall|x: Event| #[trigger] evs.contains(x) implies exists|v: int, k: int|
        is_connection(nodes, v, k) && (x == start_event(nodes, turns, v, k) || x == end_event(
            nodes,
            turns,
            v,
            k,
        )) by {
        let (v, k) = choose|v: int, k: int|
            is_connection(nodes, v, k) && walked_before(v, k, nodes.len() as int, 0) && (x == start_event(
                nodes,
                turns,
                v,
                k,
            ) || x == end_event(nodes, turns, v, k));
    }
}

/// Sorting keeps the events, each once.
pub proof fn lemma_all_events_sorted(
    nodes: Seq<PipelineAudioNode>,
    turns: Seq<usize>,
    evs: Seq<Event>,
    sorted: Seq<Event>,
)
    requires
        all_events(nodes, turns, evs),
        sorted.to_multiset() == evs.to_multiset(),
    ensures
        all_events(nodes, turns, sorted),
{
    broadcast use vstd::seq_lib::group_to_multiset_ensures;

    evs.to_multiset_ensures();
    sorted.to_multiset_ensures();
    evs.lemma_multiset_has_no_duplicates();
    assert forall|x: Event| sorted.to_multiset().contains(x) implies sorted.to_multiset().count(x) == 1 by {
        assert(sorted.to_multiset().count(x) == evs.to_multiset().count(x));
    }
    sorted.lemma_multiset_has_no_duplicates_conv();
    assert forall|x: Event| #[trigger] sorted.contains(x) <==> evs.contains(x) by {
        assert(sorted.to_multiset().count(x) == evs.to_multiset().count(x));
        assert(sorted.contains(x) <==> sorted.to_multiset().count(x) > 0);
        assert(evs.contains(x) <==> evs.to_multiset().count(x) > 0);
    }
    assert forall|v: int, k: int| #[trigger] listed(nodes, v, k) implies sorted.contains(
        start_event(nodes, turns, v, k),
    ) && sorted.contains(end_event(nodes, turns, v, k)) by {
        assert(evs.contains(start_event(nodes, turns, v, k)));
        assert(evs.contains(end_event(nodes, turns, v, k)));
    }
}

// ---------------------------------------------------------------------------
// The sweep over the sorted events.
// ---------------------------------------------------------------------------

/// The start of connection `(v, k)` comes before position `i` of the events.
pub open spec fn started(nodes: Seq<PipelineAudioNode>, turns: Seq<usize>, evs: Seq<Event>, v: int, k: int, i: int) -> bool {
    evs.index_of(start_event(nodes, turns, v, k)) < i
}

/// The end of connection `(v, k)` comes before position `i` of the events.
pub open spec fn ended(nodes: Seq<PipelineAudioNode>, turns: Seq<usize>, evs: Seq<Event>, v: int, k: int, i: int) -> bool {
    evs.index_of(end_event(nodes, turns, v, k)) < i
}

/// What holds after the sweep has handled the first `i` events: a started
/// connection's input and its source's output hold the same buffer, one of the
/// first `next`; connections live at once hold different buffers, none of them
/// free; a connection that started while another was live holds a buffer other
/// than that one's; free buffers lie below `next`, and `next` is at most `i`;
/// every buffer below `next` is free or held by a live connection, and some
/// turn has at least `next` connections live.
pub open spec fn sweep_state(
    nodes: Seq<PipelineAudioNode>,
    turns: Seq<usize>,
    evs: Seq<Event>,
    i: int,
    a: Seq<BufferAssignment>,
    free: Set<nat>,
    next: nat,
) -> bool {
    &&& forall|v: int, k: int|
        #[trigger] listed(nodes, v, k) && started(nodes, turns, evs, v, k, i) ==> input_buffer(a, v, k)
            == output_buffer(nodes, a, v, k) && input_buffer(a, v, k) < next
    &&& forall|v1: int, k1: int, v2: int, k2: int|
        #[trigger] listed(nodes, v1, k1) && #[trigger] listed(nodes, v2, k2) && (v1 != v2 || k1 != k2) && started(
            nodes,
            turns,
            evs,
            v1,
            k1,
            i,
        ) && !ended(nodes, turns, evs, v1, k1, i) && started(nodes, turns, evs, v2, k2, i) && !ended(
            nodes,
            turns,
            evs,
            v2,
            k2,
            i,
        ) ==> input_buffer(a, v1, k1) != input_buffer(a, v2, k2)
    &&& forall|v: int, k: int|
        #[trigger] listed(nodes, v, k) && started(nodes, turns, evs, v, k, i) && !ended(nodes, turns, evs, v, k, i)
            ==> !free.contains(input_buffer(a, v, k))
    &&& forall|v1: int, k1: int, v2: int, k2: int|
        #[trigger] listed(nodes, v1, k1) && #[trigger] listed(nodes, v2, k2) && (v1 != v2 || k1 != k2)
            && evs.index_of(start_event(nodes, turns, v1, k1)) < evs.index_of(start_event(nodes, turns, v2, k2))
            && evs.index_of(start_event(nodes, turns, v2, k2)) < evs.index_of(end_event(nodes, turns, v1, k1))
            && started(nodes, turns, evs, v2, k2, i) ==> input_buffer(a, v1, k1) != input_buffer(a, v2, k2)
    &&& forall|p: nat| #[trigger] free.contains(p) ==> p < next
    &&& next <= i
    &&& forall|b: nat|
        #[trigger] below(b, next) ==> free.contains(b) || exists|v: int, k: int|
            #[trigger] listed(nodes, v, k) && started(nodes, turns, evs, v, k, i) && !ended(
                nodes,
                turns,
                evs,
                v,
                k,
                i,
            ) && input_buffer(a, v, k) == b
    &&& next == 0 || exists|tau: int| #[trigger] turn_live(nodes, turns, tau).len() >= next
}

/// The lexicographic order of events is antisymmetric.
proof fn lemma_event_le_antisymmetric(x: Event, y: Event)
    requires
        event_le(x, y),
        event_le(y, x),
    ensures
        x == y,
{
}

/// In sorted events without repeats, an event that comes earlier in the order
/// sits at an earlier position.
pub proof fn lemma_event_position(evs: Seq<Event>, x: Event, y: Event)
    requires
        evs.no_duplicates(),
        events_sorted(evs),
        evs.contains(x),
        evs.contains(y),
        event_le(x, y),
        x != y,
    ensures
        evs[evs.index_of(x)] == x,
        evs[evs.index_of(y)] == y,
        0 <= evs.index_of(x) < evs.index_of(y) < evs.len(),
{
    let ix = evs.index_of(x);
    let iy = evs.index_of(y);
    if iy <= ix {
        assert(event_le(evs[iy], evs[ix]));
        lemma_event_le_antisymmetric(x, y);
    }
}

/// The event at position `i` of events without repeats has index `i`.
pub proof fn lemma_index_of_position(evs: Seq<Event>, i: int)
    requires
        evs.no_duplicates(),
        0 <= i < evs.len(),
    ensures
        evs.index_of(evs[i]) == i,
{
    let j = evs.index_of(evs[i]);
    assert(evs.contains(evs[i]));
    assert(evs[j] == evs[i]);
}

/// A connection starts before it ends.
pub proof fn lemma_start_before_end(
    nodes: Seq<PipelineAudioNode>,
    g: Seq<Seq<nat>>,
    turns: Seq<usize>,
    evs: Seq<Event>,
    v: int,
    k: int,
)
    requires
        turn_context(nodes, g, turns),
        all_events(nodes, turns, evs),
        events_sorted(evs),
        listed(nodes, v, k),
    ensures
        evs[evs.index_of(start_event(nodes, turns, v, k))] == start_event(nodes, turns, v, k),
        evs[evs.index_of(end_event(nodes, turns, v, k))] == end_event(nodes, turns, v, k),
        0 <= evs.index_of(start_event(nodes, turns, v, k)) < evs.index_of(end_event(nodes, turns, v, k))
            < evs.len(),
{
    lemma_connection_in_graph(nodes, v, k);
    let src = source_of(nodes, v, k);
    assert(is_edge(g, src, v as nat));
    assert(turns[src as int] < turns[v]);
    lemma_event_position(evs, start_event(nodes, turns, v, k), end_event(nodes, turns, v, k));
}

/// Two connections with the same start event, or the same end event, are the
/// same connection.
pub proof fn lemma_events_identify(
    nodes: Seq<PipelineAudioNode>,
    g: Seq<Seq<nat>>,
    turns: Seq<usize>,
    v1: int,
    k1: int,
    v2: int,
    k2: int,
)
    requires
        turn_context(nodes, g, turns),
        listed(nodes, v1, k1),
        listed(nodes, v2, k2),
    ensures
        start_event(nodes, turns, v1, k1) == start_event(nodes, turns, v2, k2) ==> v1 == v2 && k1 == k2,
        end_event(nodes, turns, v1, k1) == end_event(nodes, turns, v2, k2) ==> v1 == v2 && k1 == k2,
        start_event(nodes, turns, v1, k1) != end_event(nodes, turns, v2, k2),
{
    lemma_connection_in_graph(nodes, v1, k1);
    lemma_connection_in_graph(nodes, v2, k2);
    if end_event(nodes, turns, v1, k1) == end_event(nodes, turns, v2, k2) {
        assert(turns[v1] == turns[v2]);
        assert(v1 == v2);
        lemma_same_output_same_connection(nodes, v1, k1, v2, k2);
    }
}

/// The slots a start event writes: input `k` of `v` and output `o` of `src`
/// take `b`; every other slot keeps its buffer.
pub open spec fn slots_written(
    a: Seq<BufferAssignment>,
    a2: Seq<BufferAssignment>,
    v: int,
    k: int,
    src: int,
    o: int,
    b: nat,
) -> bool {
    &&& a2.len() == a.len()
    &&& forall|w: int|
        0 <= w < a.len() ==> (#[trigger] a2[w]).input_slots() == if w == v {
            a[w].input_slots().update(k, b)
        } else {
            a[w].input_slots()
        }
    &&& forall|w: int|
        0 <= w < a.len() ==> (#[trigger] a2[w]).output_slots() == if w == src {
            a[w].output_slots().update(o, b)
        } else {
            a[w].output_slots()
        }
}

/// After the start of `(v, k)` writes `b`, every other connection keeps its
/// buffers, and `(v, k)` holds `b` on both ends.
proof fn lemma_start_frame(
    nodes: Seq<PipelineAudioNode>,
    a: Seq<BufferAssignment>,
    a2: Seq<BufferAssignment>,
    v: int,
    k: int,
    b: nat,
    v2: int,
    k2: int,
)
    requires
        outputs_read_once(nodes),
        assignment_shape(nodes, a),
        output_indices_in_range(nodes),
        inputs_in_range(nodes),
        listed(nodes, v, k),
        listed(nodes, v2, k2),
        slots_written(a, a2, v, k, source_of(nodes, v, k) as int, output_of(nodes, v, k) as int, b),
    ensures
        v2 == v && k2 == k ==> input_buffer(a2, v2, k2) == b && output_buffer(nodes, a2, v2, k2) == b,
        v2 != v || k2 != k ==> input_buffer(a2, v2, k2) == input_buffer(a, v2, k2) && output_buffer(nodes, a2, v2, k2)
            == output_buffer(nodes, a, v2, k2),
{
    let src = source_of(nodes, v, k) as int;
    let o = output_of(nodes, v, k) as int;
    let src2 = source_of(nodes, v2, k2) as int;
    let o2 = output_of(nodes, v2, k2) as int;
    assert(node_inputs(nodes[v])[k].node.position() < nodes.len());
    assert(node_inputs(nodes[v2])[k2].node.position() < nodes.len());
    assert(a[v].input_slots().len() == node_inputs(nodes[v]).len());
    assert(a[v2].input_slots().len() == node_inputs(nodes[v2]).len());
    assert(a[src].output_slots().len() == crate::pipeline::declared_outputs(nodes[src]));
    assert(a[src2].output_slots().len() == crate::pipeline::declared_outputs(nodes[src2]));
    assert(a2[v].input_slots() == a[v].input_slots().update(k, b));
    assert(a2[src].output_slots() == a[src].output_slots().update(o, b));
    if src2 == src && o2 == o {
        lemma_same_output_same_connection(nodes, v, k, v2, k2);
    }
    assert(a2[v2].input_slots() == if v2 == v {
        a[v2].input_slots().update(k, b)
    } else {
        a[v2].input_slots()
    });
    assert(a2[src2].output_slots() == if src2 == src {
        a[src2].output_slots().update(o, b)
    } else {
        a[src2].output_slots()
    });
}

/// The facts about the sorted events that each step of the sweep uses.
pub open spec fn sweep_context(
    nodes: Seq<PipelineAudioNode>,
    g: Seq<Seq<nat>>,
    turns: Seq<usize>,
    evs: Seq<Event>,
) -> bool {
    &&& turn_context(nodes, g, turns)
    &&& all_events(nodes, turns, evs)
    &&& events_sorted(evs)
    &&& inputs_in_range(nodes)
    &&& output_indices_in_range(nodes)
}

/// Around the event at position `i`: which connections have started and
/// ended before and after it.
proof fn lemma_step_status(
    nodes: Seq<PipelineAudioNode>,
    g: Seq<Seq<nat>>,
    turns: Seq<usize>,
    evs: Seq<Event>,
    i: int,
    v: int,
    k: int,
    v2: int,
    k2: int,
)
    requires
        sweep_context(nodes, g, turns, evs),
        0 <= i < evs.len(),
        listed(nodes, v, k),
        evs[i] == start_event(nodes, turns, v, k) || evs[i] == end_event(nodes, turns, v, k),
        listed(nodes, v2, k2),
    ensures
        evs[i] == start_event(nodes, turns, v, k) ==> {
            &&& started(nodes, turns, evs, v2, k2, i + 1) == (started(nodes, turns, evs, v2, k2, i) || (v2 == v
                && k2 == k))
            &&& ended(nodes, turns, evs, v2, k2, i + 1) == ended(nodes, turns, evs, v2, k2, i)
            &&& (v2 == v && k2 == k) ==> !started(nodes, turns, evs, v2, k2, i) && !ended(
                nodes,
                turns,
                evs,
                v2,
                k2,
                i + 1,
            )
        },
        evs[i] == end_event(nodes, turns, v, k) ==> {
            &&& started(nodes, turns, evs, v2, k2, i + 1) == started(nodes, turns, evs, v2, k2, i)
            &&& ended(nodes, turns, evs, v2, k2, i + 1) == (ended(nodes, turns, evs, v2, k2, i) || (v2 == v && k2
                == k))
            &&& (v2 == v && k2 == k) ==> started(nodes, turns, evs, v2, k2, i) && !ended(nodes, turns, evs, v2, k2, i)
        },
{
    lemma_start_before_end(nodes, g, turns, evs, v, k);
    lemma_start_before_end(nodes, g, turns, evs, v2, k2);
    lemma_events_identify(nodes, g, turns, v, k, v2, k2);
    lemma_events_identify(nodes, g, turns, v2, k2, v, k);
    lemma_index_of_position(evs, i);
}

/// Handling the start of `(v, k)`, which takes buffer `b` (a free one, or the
/// next new one) and writes it into both of its ends, keeps the sweep state.
pub proof fn lemma_sweep_start(
    nodes: Seq<PipelineAudioNode>,
    g: Seq<Seq<nat>>,
    turns: Seq<usize>,
    evs: Seq<Event>,
    i: int,
    a: Seq<BufferAssignment>,
    a2: Seq<BufferAssignment>,
    free: Set<nat>,
    free2: Set<nat>,
    next: nat,
    next2: nat,
    v: int,
    k: int,
    b: nat,
)
    requires
        sweep_context(nodes, g, turns, evs),
        0 <= i < evs.len(),
        listed(nodes, v, k),
        evs[i] == start_event(nodes, turns, v, k),
        sweep_state(nodes, turns, evs, i, a, free, next),
        assignment_shape(nodes, a),
        slots_written(a, a2, v, k, source_of(nodes, v, k) as int, output_of(nodes, v, k) as int, b),
        (free.contains(b) && free2 == free.remove(b) && next2 == next) || (free == Set::<nat>::empty() && b
            == next && free2 == Set::<nat>::empty() && next2 == next + 1),
    ensures
        sweep_state(nodes, turns, evs, i + 1, a2, free2, next2),
{
    let ghost_next = next;
    // The buffer taken is held by no live connection.
    assert forall|v2: int, k2: int|
        #[trigger] listed(nodes, v2, k2) && started(nodes, turns, evs, v2, k2, i) && !ended(nodes, turns, evs, v2, k2, i)
        implies input_buffer(a, v2, k2) != b by {
        if free.contains(b) {
        } else {
            assert(input_buffer(a, v2, k2) < next);
        }
    }
    assert forall|v2: int, k2: int|
        #[trigger] listed(nodes, v2, k2) && started(nodes, turns, evs, v2, k2, i + 1) implies input_buffer(a2, v2, k2)
        == output_buffer(nodes, a2, v2, k2) && input_buffer(a2, v2, k2) < next2 by {
        lemma_step_status(nodes, g, turns, evs, i, v, k, v2, k2);
        lemma_start_frame(nodes, a, a2, v, k, b, v2, k2);
        if v2 != v || k2 != k {
            assert(started(nodes, turns, evs, v2, k2, i));
        } else if free.contains(b) {
        }
    }
    assert forall|v1: int, k1: int, v2: int, k2: int|
        #[trigger] listed(nodes, v1, k1) && #[trigger] listed(nodes, v2, k2) && (v1 != v2 || k1 != k2) && started(
            nodes,
            turns,
            evs,
            v1,
            k1,
            i + 1,
        ) && !ended(nodes, turns, evs, v1, k1, i + 1) && started(nodes, turns, evs, v2, k2, i + 1) && !ended(
            nodes,
            turns,
            evs,
            v2,
            k2,
            i + 1,
        ) implies input_buffer(a2, v1, k1) != input_buffer(a2, v2, k2) by {
        lemma_step_status(nodes, g, turns, evs, i, v, k, v1, k1);
        lemma_step_status(nodes, g, turns, evs, i, v, k, v2, k2);
        lemma_start_frame(nodes, a, a2, v, k, b, v1, k1);
        lemma_start_frame(nodes, a, a2, v, k, b, v2, k2);
        if v1 == v && k1 == k {
            assert(listed(nodes, v2, k2));
        } else if v2 == v && k2 == k {
            assert(listed(nodes, v1, k1));
        }
    }
    assert forall|v2: int, k2: int|
        #[trigger] listed(nodes, v2, k2) && started(nodes, turns, evs, v2, k2, i + 1) && !ended(
            nodes,
            turns,
            evs,
            v2,
            k2,
            i + 1,
        ) implies !free2.contains(input_buffer(a2, v2, k2)) by {
        lemma_step_status(nodes, g, turns, evs, i, v, k, v2, k2);
        lemma_start_frame(nodes, a, a2, v, k, b, v2, k2);
    }
    assert forall|v1: int, k1: int, v2: int, k2: int|
        #[trigger] listed(nodes, v1, k1) && #[trigger] listed(nodes, v2, k2) && (v1 != v2 || k1 != k2)
            && evs.index_of(start_event(nodes, turns, v1, k1)) < evs.index_of(start_event(nodes, turns, v2, k2))
            && evs.index_of(start_event(nodes, turns, v2, k2)) < evs.index_of(end_event(nodes, turns, v1, k1))
            && started(nodes, turns, evs, v2, k2, i + 1) implies input_buffer(a2, v1, k1) != input_buffer(
        a2,
        v2,
        k2,
    ) by {
        lemma_step_status(nodes, g, turns, evs, i, v, k, v1, k1);
        lemma_step_status(nodes, g, turns, evs, i, v, k, v2, k2);
        lemma_start_frame(nodes, a, a2, v, k, b, v1, k1);
        lemma_start_frame(nodes, a, a2, v, k, b, v2, k2);
        lemma_index_of_position(evs, i);
        if v2 == v && k2 == k {
            // `(v1, k1)` started earlier and has not ended: it is live.
            assert(started(nodes, turns, evs, v1, k1, i));
            assert(!ended(nodes, turns, evs, v1, k1, i));
        } else if v1 == v && k1 == k {
            assert(started(nodes, turns, evs, v2, k2, i));
        } else {
            assert(started(nodes, turns, evs, v2, k2, i));
        }
    }
    assert forall|p: nat| #[trigger] free2.contains(p) implies p < next2 by {
        if free.contains(b) {
            assert(free.contains(p));
        }
    }
    lemma_step_status(nodes, g, turns, evs, i, v, k, v, k);
    lemma_start_frame(nodes, a, a2, v, k, b, v, k);
    assert(listed(nodes, v, k) && started(nodes, turns, evs, v, k, i + 1) && !ended(nodes, turns, evs, v, k, i + 1)
        && input_buffer(a2, v, k) == b);
    assert forall|b2: nat| #[trigger] below(b2, next2) implies free2.contains(b2) || exists|v2: int, k2: int|
        #[trigger] listed(nodes, v2, k2) && started(nodes, turns, evs, v2, k2, i + 1) && !ended(
            nodes,
            turns,
            evs,
            v2,
            k2,
            i + 1,
        ) && input_buffer(a2, v2, k2) == b2 by {
        if b2 == b {
        } else if free.contains(b2) {
            assert(free2.contains(b2));
        } else {
            assert(below(b2, next));
            let (v2, k2) = choose|v2: int, k2: int|
                #[trigger] listed(nodes, v2, k2) && started(nodes, turns, evs, v2, k2, i) && !ended(
                    nodes,
                    turns,
                    evs,
                    v2,
                    k2,
                    i,
                ) && input_buffer(a, v2, k2) == b2;
            lemma_step_status(nodes, g, turns, evs, i, v, k, v2, k2);
            lemma_start_frame(nodes, a, a2, v, k, b, v2, k2);
            assert(listed(nodes, v2, k2) && started(nodes, turns, evs, v2, k2, i + 1) && !ended(
                nodes,
                turns,
                evs,
                v2,
                k2,
                i + 1,
            ) && input_buffer(a2, v2, k2) == b2);
        }
    }
    if !free.contains(b) {
        assert forall|b2: nat| #[trigger] below(b2, next) implies exists|v2: int, k2: int|
            #[trigger] listed(nodes, v2, k2) && started(nodes, turns, evs, v2, k2, i) && !ended(
                nodes,
                turns,
                evs,
                v2,
                k2,
                i,
            ) && input_buffer(a, v2, k2) == b2 by {
            assert(!free.contains(b2));
        }
        lemma_peak_grows(nodes, g, turns, evs, i, a, next, v, k);
        let tau = turns[source_of(nodes, v, k) as int] as int;
        assert(turn_live(nodes, turns, tau).len() >= next2);
    }
}

/// Handling the end of `(v, k)`, which frees the buffer of its source's
/// output, keeps the sweep state.
pub proof fn lemma_sweep_end(
    nodes: Seq<PipelineAudioNode>,
    g: Seq<Seq<nat>>,
    turns: Seq<usize>,
    evs: Seq<Event>,
    i: int,
    a: Seq<BufferAssignment>,
    free: Set<nat>,
    free2: Set<nat>,
    next: nat,
    v: int,
    k: int,
    b: nat,
)
    requires
        sweep_context(nodes, g, turns, evs),
        0 <= i < evs.len(),
        listed(nodes, v, k),
        evs[i] == end_event(nodes, turns, v, k),
        sweep_state(nodes, turns, evs, i, a, free, next),
        b == output_buffer(nodes, a, v, k),
        free2 == free.insert(b),
    ensures
        sweep_state(nodes, turns, evs, i + 1, a, free2, next),
        b < next,
{
    lemma_step_status(nodes, g, turns, evs, i, v, k, v, k);
    assert(input_buffer(a, v, k) == b && b < next);
    assert forall|v2: int, k2: int|
        #[trigger] listed(nodes, v2, k2) && started(nodes, turns, evs, v2, k2, i + 1) implies input_buffer(a, v2, k2)
        == output_buffer(nodes, a, v2, k2) && input_buffer(a, v2, k2) < next by {
        lemma_step_status(nodes, g, turns, evs, i, v, k, v2, k2);
    }
    assert forall|v1: int, k1: int, v2: int, k2: int|
        #[trigger] listed(nodes, v1, k1) && #[trigger] listed(nodes, v2, k2) && (v1 != v2 || k1 != k2) && started(
            nodes,
            turns,
            evs,
            v1,
            k1,
            i + 1,
        ) && !ended(nodes, turns, evs, v1, k1, i + 1) && started(nodes, turns, evs, v2, k2, i + 1) && !ended(
            nodes,
            turns,
            evs,
            v2,
            k2,
            i + 1,
        ) implies input_buffer(a, v1, k1) != input_buffer(a, v2, k2) by {
        lemma_step_status(nodes, g, turns, evs, i, v, k, v1, k1);
        lemma_step_status(nodes, g, turns, evs, i, v, k, v2, k2);
    }
    assert forall|v2: int, k2: int|
        #[trigger] listed(nodes, v2, k2) && started(nodes, turns, evs, v2, k2, i + 1) && !ended(
            nodes,
            turns,
            evs,
            v2,
            k2,
            i + 1,
        ) implies !free2.contains(input_buffer(a, v2, k2)) by {
        lemma_step_status(nodes, g, turns, evs, i, v, k, v2, k2);
        assert(v2 != v || k2 != k);
        assert(listed(nodes, v, k));
    }
    assert forall|v1: int, k1: int, v2: int, k2: int|
        #[trigger] listed(nodes, v1, k1) && #[trigger] listed(nodes, v2, k2) && (v1 != v2 || k1 != k2)
            && evs.index_of(start_event(nodes, turns, v1, k1)) < evs.index_of(start_event(nodes, turns, v2, k2))
            && evs.index_of(start_event(nodes, turns, v2, k2)) < evs.index_of(end_event(nodes, turns, v1, k1))
            && started(nodes, turns, evs, v2, k2, i + 1) implies input_buffer(a, v1, k1) != input_buffer(
        a,
        v2,
        k2,
    ) by {
        lemma_step_status(nodes, g, turns, evs, i, v, k, v2, k2);
    }
    assert forall|p: nat| #[trigger] free2.contains(p) implies p < next by {
        if p != b {
            assert(free.contains(p));
        }
    }
    assert forall|b2: nat| #[trigger] below(b2, next) implies free2.contains(b2) || exists|v2: int, k2: int|
        #[trigger] listed(nodes, v2, k2) && started(nodes, turns, evs, v2, k2, i + 1) && !ended(
            nodes,
            turns,
            evs,
            v2,
            k2,
            i + 1,
        ) && input_buffer(a, v2, k2) == b2 by {
        if !free.contains(b2) && b2 != b {
            let (v2, k2) = choose|v2: int, k2: int|
                #[trigger] listed(nodes, v2, k2) && started(nodes, turns, evs, v2, k2, i) && !ended(
                    nodes,
                    turns,
                    evs,
                    v2,
                    k2,
                    i,
                ) && input_buffer(a, v2, k2) == b2;
            lemma_step_status(nodes, g, turns, evs, i, v, k, v2, k2);
            assert(listed(nodes, v2, k2) && started(nodes, turns, evs, v2, k2, i + 1) && !ended(
                nodes,
                turns,
                evs,
                v2,
                k2,
                i + 1,
            ) && input_buffer(a, v2, k2) == b2);
        }
    }
}

/// Before the first event nothing has started.
pub proof fn lemma_sweep_empty(
    nodes: Seq<PipelineAudioNode>,
    g: Seq<Seq<nat>>,
    turns: Seq<usize>,
    evs: Seq<Event>,
    a: Seq<BufferAssignment>,
)
    requires
        sweep_context(nodes, g, turns, evs),
    ensures
        sweep_state(nodes, turns, evs, 0, a, Set::empty(), 0),
{
    assert forall|v: int, k: int| #[trigger] listed(nodes, v, k) implies !started(nodes, turns, evs, v, k, 0) by {
        lemma_start_before_end(nodes, g, turns, evs, v, k);
    }
}

// ---------------------------------------------------------------------------
// New buffers are numbered in the order the connections start.
// ---------------------------------------------------------------------------

/// The turn of every node in `order`: its place in it.
pub open spec fn order_turns(order: Seq<nat>) -> Seq<usize> {
    Seq::new(order.len(), |x: int| order.index_of(x as nat) as usize)
}

/// The connections whose start comes strictly before event `x` in the sweep.
pub open spec fn starts_before(nodes: Seq<PipelineAudioNode>, turns: Seq<usize>, x: Event) -> Set<(int, int)> {
    Set::new(
        |c: (int, int)|
            is_connection(nodes, c.0, c.1) && event_le(start_event(nodes, turns, c.0, c.1), x) && start_event(
                nodes,
                turns,
                c.0,
                c.1,
            ) != x,
    )
}

/// No connection ends strictly before event `x` in the sweep, so no buffer has
/// been given back by then.
pub open spec fn nothing_freed_before(nodes: Seq<PipelineAudioNode>, turns: Seq<usize>, x: Event) -> bool {
    forall|v: int, k: int|
        is_connection(nodes, v, k) ==> !(event_le(#[trigger] end_event(nodes, turns, v, k), x) && end_event(
            nodes,
            turns,
            v,
            k,
        ) != x)
}

/// A connection that starts while no buffer has been given back takes the
/// lowest id not handed out yet: the number of connections started before it.
pub open spec fn fresh_ids_in_order(nodes: Seq<PipelineAudioNode>, turns: Seq<usize>, a: Seq<BufferAssignment>) -> bool {
    forall|v: int, k: int|
        is_connection(nodes, v, k) && nothing_freed_before(nodes, turns, start_event(nodes, turns, v, k))
            ==> #[trigger] input_buffer(a, v, k) == starts_before(nodes, turns, start_event(nodes, turns, v, k)).len()
}

/// Every event before position `i` is the start of a connection.
pub open spec fn only_starts(evs: Seq<Event>, i: int) -> bool {
    forall|j: int| 0 <= j < i ==> (#[trigger] evs[j]).1 == 0
}

/// What the sweep keeps of the connections that start before any ends: while
/// only starts have been handled nothing is free and each took a new buffer, so
/// the start at position `p` holds buffer `p`.
pub open spec fn fresh_state(
    nodes: Seq<PipelineAudioNode>,
    turns: Seq<usize>,
    evs: Seq<Event>,
    i: int,
    a: Seq<BufferAssignment>,
    free: Set<nat>,
    next: nat,
) -> bool {
    &&& only_starts(evs, i) ==> free == Set::<nat>::empty() && next == i
    &&& forall|v: int, k: int|
        #[trigger] listed(nodes, v, k) && started(nodes, turns, evs, v, k, i) && only_starts(
            evs,
            evs.index_of(start_event(nodes, turns, v, k)),
        ) ==> input_buffer(a, v, k) == evs.index_of(start_event(nodes, turns, v, k))
}

/// Before the first event nothing is free, no buffer is handed out and nothing
/// has started.
pub proof fn lemma_fresh_empty(
    nodes: Seq<PipelineAudioNode>,
    g: Seq<Seq<nat>>,
    turns: Seq<usize>,
    evs: Seq<Event>,
    a: Seq<BufferAssignment>,
)
    requires
        sweep_context(nodes, g, turns, evs),
    ensures
        fresh_state(nodes, turns, evs, 0, a, Set::empty(), 0),
{
    assert forall|v: int, k: int| #[trigger] listed(nodes, v, k) implies !started(nodes, turns, evs, v, k, 0) by {
        lemma_start_before_end(nodes, g, turns, evs, v, k);
    }
}

/// Handling the start at position `i` keeps what `fresh_state` says.
pub proof fn lemma_fresh_start(
    nodes: Seq<PipelineAudioNode>,
    g: Seq<Seq<nat>>,
    turns: Seq<usize>,
    evs: Seq<Event>,
    i: int,
    a: Seq<BufferAssignment>,
    a2: Seq<BufferAssignment>,
    free: Set<nat>,
    free2: Set<nat>,
    next: nat,
    next2: nat,
    v: int,
    k: int,
    b: nat,
)
    requires
        sweep_context(nodes, g, turns, evs),
        0 <= i < evs.len(),
        listed(nodes, v, k),
        evs[i] == start_event(nodes, turns, v, k),
        fresh_state(nodes, turns, evs, i, a, free, next),
        assignment_shape(nodes, a),
        slots_written(a, a2, v, k, source_of(nodes, v, k) as int, output_of(nodes, v, k) as int, b),
        (free.contains(b) && free2 == free.remove(b) && next2 == next) || (free == Set::<nat>::empty() && b
            == next && free2 == Set::<nat>::empty() && next2 == next + 1),
    ensures
        fresh_state(nodes, turns, evs, i + 1, a2, free2, next2),
{
    lemma_index_of_position(evs, i);
    if only_starts(evs, i + 1) {
        assert(only_starts(evs, i));
    }
    assert forall|v2: int, k2: int|
        #[trigger] listed(nodes, v2, k2) && started(nodes, turns, evs, v2, k2, i + 1) && only_starts(
            evs,
            evs.index_of(start_event(nodes, turns, v2, k2)),
        ) implies input_buffer(a2, v2, k2) == evs.index_of(start_event(nodes, turns, v2, k2)) by {
        lemma_step_status(nodes, g, turns, evs, i, v, k, v2, k2);
        lemma_start_frame(nodes, a, a2, v, k, b, v2, k2);
        if v2 == v && k2 == k {
            assert(evs.index_of(start_event(nodes, turns, v, k)) == i);
        }
    }
}

/// Handling the end at position `i`, which gives a buffer back, keeps what
/// `fresh_state` says.
pub proof fn lemma_fresh_end(
    nodes: Seq<PipelineAudioNode>,
    g: Seq<Seq<nat>>,
    turns: Seq<usize>,
    evs: Seq<Event>,
    i: int,
    a: Seq<BufferAssignment>,
    free: Set<nat>,
    free2: Set<nat>,
    next: nat,
    v: int,
    k: int,
)
    requires
        sweep_context(nodes, g, turns, evs),
        0 <= i < evs.len(),
        listed(nodes, v, k),
        evs[i] == end_event(nodes, turns, v, k),
        fresh_state(nodes, turns, evs, i, a, free, next),
    ensures
        fresh_state(nodes, turns, evs, i + 1, a, free2, next),
{
    assert(!only_starts(evs, i + 1)) by {
        assert(evs[i].1 == 1);
    }
    assert forall|v2: int, k2: int|
        #[trigger] listed(nodes, v2, k2) && started(nodes, turns, evs, v2, k2, i + 1) && only_starts(
            evs,
            evs.index_of(start_event(nodes, turns, v2, k2)),
        ) implies input_buffer(a, v2, k2) == evs.index_of(start_event(nodes, turns, v2, k2)) by {
        lemma_step_status(nodes, g, turns, evs, i, v, k, v2, k2);
    }
}

/// The connection whose start event is `x`.
pub open spec fn started_by(nodes: Seq<PipelineAudioNode>, turns: Seq<usize>, x: Event) -> (int, int) {
    choose|c: (int, int)| is_connection(nodes, c.0, c.1) && x == start_event(nodes, turns, c.0, c.1)
}

/// After the last event, every connection that started before any buffer was
/// given back holds the number of connections that started before it.
pub proof fn lemma_fresh_done(
    nodes: Seq<PipelineAudioNode>,
    g: Seq<Seq<nat>>,
    turns: Seq<usize>,
    evs: Seq<Event>,
    a: Seq<BufferAssignment>,
    free: Set<nat>,
    next: nat,
)
    requires
        sweep_context(nodes, g, turns, evs),
        fresh_state(nodes, turns, evs, evs.len() as int, a, free, next),
    ensures
        fresh_ids_in_order(nodes, turns, a),
{
    assert forall|v: int, k: int|
        is_connection(nodes, v, k) && nothing_freed_before(nodes, turns, start_event(nodes, turns, v, k))
            implies #[trigger] input_buffer(a, v, k) == starts_before(
            nodes,
            turns,
            start_event(nodes, turns, v, k),
        ).len() by {
        let s = start_event(nodes, turns, v, k);
        assert(listed(nodes, v, k));
        lemma_start_before_end(nodes, g, turns, evs, v, k);
        let p = evs.index_of(s);
        // Every event before the start is a start: an end there would come first.
        assert forall|j: int| 0 <= j < p implies (#[trigger] evs[j]).1 == 0 by {
            assert(evs.contains(evs[j]));
            let (v2, k2) = choose|v2: int, k2: int|
                is_connection(nodes, v2, k2) && (evs[j] == start_event(nodes, turns, v2, k2) || evs[j]
                    == end_event(nodes, turns, v2, k2));
            assert(event_le(evs[j], evs[p]));
            assert(evs[j] != evs[p]);
            if evs[j] == end_event(nodes, turns, v2, k2) {
                assert(!(event_le(end_event(nodes, turns, v2, k2), s) && end_event(nodes, turns, v2, k2) != s));
            }
        }
        assert(only_starts(evs, p));
        // The starts before position `p` are those of the connections started before `s`.
        let f = Seq::new(p as nat, |j: int| started_by(nodes, turns, evs[j]));
        assert forall|j: int| 0 <= j < p implies is_connection(nodes, (#[trigger] f[j]).0, f[j].1) && evs[j]
            == start_event(nodes, turns, f[j].0, f[j].1) by {
            assert(evs.contains(evs[j]));
            let (v2, k2) = choose|v2: int, k2: int|
                is_connection(nodes, v2, k2) && (evs[j] == start_event(nodes, turns, v2, k2) || evs[j]
                    == end_event(nodes, turns, v2, k2));
            assert(evs[j] == start_event(nodes, turns, v2, k2));
        }
        assert(f.no_duplicates()) by {
            assert forall|x: int, y: int| 0 <= x < f.len() && 0 <= y < f.len() && x != y implies f[x] != f[y] by {
                assert(evs[x] != evs[y]);
            }
        }
        let sb = starts_before(nodes, turns, s);
        assert(f.to_set() =~= sb) by {
            assert forall|c: (int, int)| #[trigger] f.to_set().contains(c) implies sb.contains(c) by {
                assert(f.contains(c));
                let j = choose|j: int| 0 <= j < f.len() && f[j] == c;
                assert(event_le(evs[j], evs[p]));
                assert(evs[j] != evs[p]);
            }
            assert forall|c: (int, int)| #[trigger] sb.contains(c) implies f.to_set().contains(c) by {
                let sc = start_event(nodes, turns, c.0, c.1);
                assert(listed(nodes, c.0, c.1));
                lemma_start_before_end(nodes, g, turns, evs, c.0, c.1);
                lemma_event_position(evs, sc, s);
                let q = evs.index_of(sc);
                lemma_events_identify(nodes, g, turns, f[q].0, f[q].1, c.0, c.1);
                assert(f[q] == c);
                assert(f.contains(c));
            }
        }
        f.unique_seq_to_set();
    }
}

/// After the last event every input reads the buffer its source writes, and
/// connections live at once (by turn) hold different buffers.
pub proof fn lemma_sweep_done(
    nodes: Seq<PipelineAudioNode>,
    g: Seq<Seq<nat>>,
    turns: Seq<usize>,
    evs: Seq<Event>,
    a: Seq<BufferAssignment>,
    free: Set<nat>,
    next: nat,
    order: Seq<nat>,
)
    requires
        sweep_context(nodes, g, turns, evs),
        sweep_state(nodes, turns, evs, evs.len() as int, a, free, next),
        forall|x: int| 0 <= x < g.len() ==> #[trigger] order.index_of(x as nat) == turns[x] as int,
    ensures
        wired(nodes, a, next),
        unaliased(nodes, order, a),
        peak_live(nodes, order, next),
{
    assert forall|v: int, k: int| is_connection(nodes, v, k) implies #[trigger] input_buffer(a, v, k)
        == output_buffer(nodes, a, v, k) && input_buffer(a, v, k) < next by {
        assert(listed(nodes, v, k));
        lemma_start_before_end(nodes, g, turns, evs, v, k);
    }
    assert forall|v1: int, k1: int, v2: int, k2: int|
        is_connection(nodes, v1, k1) && is_connection(nodes, v2, k2) && (v1 != v2 || k1 != k2) && live_together(
            nodes,
            order,
            v1,
            k1,
            v2,
            k2,
        ) implies #[trigger] input_buffer(a, v1, k1) != #[trigger] input_buffer(a, v2, k2) by {
        assert(listed(nodes, v1, k1) && listed(nodes, v2, k2));
        lemma_start_before_end(nodes, g, turns, evs, v1, k1);
        lemma_start_before_end(nodes, g, turns, evs, v2, k2);
        lemma_connection_in_graph(nodes, v1, k1);
        lemma_connection_in_graph(nodes, v2, k2);
        lemma_events_identify(nodes, g, turns, v1, k1, v2, k2);
        let s1 = start_event(nodes, turns, v1, k1);
        let s2 = start_event(nodes, turns, v2, k2);
        let e1 = end_event(nodes, turns, v1, k1);
        let e2 = end_event(nodes, turns, v2, k2);
        let src1 = source_of(nodes, v1, k1) as int;
        let src2 = source_of(nodes, v2, k2) as int;
        assert(order.index_of(src1 as nat) == turns[src1] as int);
        assert(order.index_of(src2 as nat) == turns[src2] as int);
        assert(order.index_of(v1 as nat) == turns[v1] as int);
        assert(order.index_of(v2 as nat) == turns[v2] as int);
        assert(evs.contains(s1) && evs.contains(s2));
        if event_le(s1, s2) {
            lemma_event_position(evs, s1, s2);
            assert(event_le(s2, e1));
            lemma_event_position(evs, s2, e1);
        } else {
            assert(event_le(s2, s1));
            lemma_event_position(evs, s2, s1);
            assert(event_le(s1, e2));
            lemma_event_position(evs, s1, e2);
        }
    }
    assert forall|tau: int| #[trigger] live_at(nodes, order, tau).len() <= next by {
        lemma_live_at_bound(nodes, order, a, next, tau);
    }
    if next != 0 {
        let tau = choose|tau: int| #[trigger] turn_live(nodes, turns, tau).len() >= next;
        assert(turn_live(nodes, turns, tau) =~= live_at(nodes, order, tau)) by {
            assert forall|c: (int, int)| turn_live(nodes, turns, tau).contains(c) <==> live_at(nodes, order, tau).contains(
                c,
            ) by {
                if is_connection(nodes, c.0, c.1) {
                    lemma_connection_in_graph(nodes, c.0, c.1);
                    let src = source_of(nodes, c.0, c.1) as int;
                    assert(order.index_of(src as nat) == turns[src] as int);
                    assert(order.index_of(c.0 as nat) == turns[c.0] as int);
                }
            }
        }
        lemma_live_at_bound(nodes, order, a, next, tau);
    }
}

/// The connections of the nodes `0..m`, by reader and per reader by input.
pub open spec fn connection_list(nodes: Seq<PipelineAudioNode>, m: nat) -> Seq<(int, int)>
    decreases m,
{
    if m == 0 {
        Seq::empty()
    } else {
        connection_list(nodes, (m - 1) as nat) + Seq::new(
            node_inputs(nodes[m - 1]).len(),
            |k: int| ((m - 1) as int, k),
        )
    }
}

/// The connection list is as long as the list of connection edges and holds
/// every connection of the nodes `0..m`.
proof fn lemma_connection_list(nodes: Seq<PipelineAudioNode>, m: nat)
    requires
        m <= nodes.len(),
    ensures
        connection_list(nodes, m).len() == connection_edges(nodes, m).len(),
        forall|v: int, k: int|
            0 <= v < m && 0 <= k < node_inputs(nodes[v]).len() ==> #[trigger] connection_list(nodes, m).contains(
                (v, k),
            ),
    decreases m,
{
    if m > 0 {
        let p = (m - 1) as nat;
        lemma_connection_list(nodes, p);
        let prev = connection_list(nodes, p);
        let tail = Seq::new(node_inputs(nodes[p as int]).len(), |k: int| (p as int, k));
        let all = connection_list(nodes, m);
        assert(all == prev + tail);
        assert forall|v: int, k: int| 0 <= v < m && 0 <= k < node_inputs(nodes[v]).len() implies #[trigger] all.contains(
            (v, k),
        ) by {
            if v < p {
                assert(prev.contains((v, k)));
                let j = choose|j: int| 0 <= j < prev.len() && prev[j] == (v, k);
                assert(all[j] == prev[j]);
            } else {
                assert(all[prev.len() + k] == tail[k]);
            }
        }
    }
}

/// There are two events per connection.
pub proof fn lemma_event_count(nodes: Seq<PipelineAudioNode>, turns: Seq<usize>, evs: Seq<Event>)
    requires
        all_events(nodes, turns, evs),
    ensures
        evs.len() <= 2 * connection_edges(nodes, nodes.len()).len(),
{
    let n = nodes.len();
    lemma_connection_list(nodes, n);
    let cl = connection_list(nodes, n);
    let starts = Seq::new(cl.len(), |i: int| start_event(nodes, turns, cl[i].0, cl[i].1));
    let ends = Seq::new(cl.len(), |i: int| end_event(nodes, turns, cl[i].0, cl[i].1));
    let w = starts + ends;
    assert forall|x: Event| evs.to_set().contains(x) implies w.to_set().contains(x) by {
        assert(evs.contains(x));
        let (v, k) = choose|v: int, k: int|
            is_connection(nodes, v, k) && (x == start_event(nodes, turns, v, k) || x == end_event(
                nodes,
                turns,
                v,
                k,
            ));
        assert(cl.contains((v, k)));
        let j = choose|j: int| 0 <= j < cl.len() && cl[j] == (v, k);
        if x == start_event(nodes, turns, v, k) {
            assert(w[j] == starts[j]);
        } else {
            assert(w[cl.len() + j] == ends[j]);
        }
    }
    evs.unique_seq_to_set();
    w.lemma_cardinality_of_set();
    vstd::set_lib::lemma_len_subset(evs.to_set(), w.to_set());
}

/// The turns of a topological order `order` (the place of each node in it)
/// satisfy what the sweep needs of them.
pub proof fn lemma_turns_of_order(
    nodes: Seq<PipelineAudioNode>,
    g: Seq<Seq<nat>>,
    order: Seq<nat>,
    turns: Seq<usize>,
)
    requires
        connections_kept(nodes),
        outputs_read_once(nodes),
        g == layout_graph(nodes),
        adjacency_closed(g),
        nodes.len() < usize::MAX,
        is_topological_order(g, order),
        turns.len() == g.len(),
        forall|t: int| 0 <= t < order.len() ==> #[trigger] turns[order[t] as int] == t,
    ensures
        turn_context(nodes, g, turns),
        forall|x: int| 0 <= x < g.len() ==> #[trigger] order.index_of(x as nat) == turns[x] as int,
{
    assert forall|x: int| 0 <= x < g.len() implies order[#[trigger] turns[x] as int] == x && turns[x] < g.len()
        && order.index_of(x as nat) == turns[x] as int by {
        assert(order.contains(x as nat));
        let t = choose|t: int| 0 <= t < order.len() && order[t] == x as nat;
        assert(turns[order[t] as int] == t);
        let i = order.index_of(x as nat);
        assert(order[i] == x as nat);
    }
    assert forall|x: int, y: int|
        0 <= x < g.len() && 0 <= y < g.len() && #[trigger] turns[x] == #[trigger] turns[y] implies x == y by {
        assert(order[turns[x] as int] == x);
        assert(order[turns[y] as int] == y);
    }
    assert forall|a: nat, b: nat| #[trigger] is_edge(g, a, b) implies turns[a as int] < turns[b as int] by {
        assert(g[a as int].contains(b));
        let j = choose|j: int| 0 <= j < g[a as int].len() && g[a as int][j] == b;
        assert(g[a as int][j] < g.len());
        let ta = turns[a as int] as int;
        let tb = turns[b as int] as int;
        assert(order[ta] == a);
        assert(order[tb] == b);
        assert(is_edge(g, order[ta], order[tb]));
    }
}

// ---------------------------------------------------------------------------
// The number of buffers: the greatest number of connections live at one turn.
// ---------------------------------------------------------------------------

/// The connections live at turn `tau` of `order`: written at or before it and
/// read at or after it.
pub open spec fn live_at(nodes: Seq<PipelineAudioNode>, order: Seq<nat>, tau: int) -> Set<(int, int)> {
    Set::new(
        |c: (int, int)|
            is_connection(nodes, c.0, c.1) && order.index_of(source_of(nodes, c.0, c.1)) <= tau <= order.index_of(
                c.0 as nat,
            ),
    )
}

/// `count` is the greatest number of connections live at one turn (0 when
/// there are no connections).
pub open spec fn peak_live(nodes: Seq<PipelineAudioNode>, order: Seq<nat>, count: nat) -> bool {
    &&& forall|tau: int| #[trigger] live_at(nodes, order, tau).len() <= count
    &&& count == 0 || exists|tau: int| #[trigger] live_at(nodes, order, tau).len() == count
}

/// The connections live at turn `tau`, with turns given per node.
pub open spec fn turn_live(nodes: Seq<PipelineAudioNode>, turns: Seq<usize>, tau: int) -> Set<(int, int)> {
    Set::new(
        |c: (int, int)|
            is_connection(nodes, c.0, c.1) && turns[source_of(nodes, c.0, c.1) as int] <= tau <= turns[c.0],
    )
}

/// `b` is one of the first `n` buffers.
pub open spec fn below(b: nat, n: nat) -> bool {
    b < n
}

/// A set of connections is finite.
proof fn lemma_connections_finite(nodes: Seq<PipelineAudioNode>, s: Set<(int, int)>)
    requires
        forall|c: (int, int)| #[trigger] s.contains(c) ==> is_connection(nodes, c.0, c.1),
    ensures
        s.finite(),
        s.len() <= connection_list(nodes, nodes.len()).len(),
{
    let cl = connection_list(nodes, nodes.len());
    lemma_connection_list(nodes, nodes.len());
    assert(s.subset_of(cl.to_set())) by {
        assert forall|c: (int, int)| s.contains(c) implies cl.to_set().contains(c) by {
            assert(cl.contains((c.0, c.1)));
        }
    }
    cl.lemma_cardinality_of_set();
    vstd::set_lib::lemma_len_subset(s, cl.to_set());
}

/// Connections live at one turn that hold different buffers below `count` are
/// at most `count`.
proof fn lemma_live_at_bound(
    nodes: Seq<PipelineAudioNode>,
    order: Seq<nat>,
    a: Seq<BufferAssignment>,
    count: nat,
    tau: int,
)
    requires
        wired(nodes, a, count),
        unaliased(nodes, order, a),
    ensures
        live_at(nodes, order, tau).len() <= count,
{
    let l = live_at(nodes, order, tau);
    lemma_connections_finite(nodes, l);
    let f = |c: (int, int)| input_buffer(a, c.0, c.1) as int;
    assert(vstd::relations::injective_on(f, l)) by {
        assert forall|x1: (int, int), x2: (int, int)| l.contains(x1) && l.contains(x2) && #[trigger] f(x1) == #[trigger] f(
            x2,
        ) implies x1 == x2 by {
            if x1 != x2 {
                assert(live_together(nodes, order, x1.0, x1.1, x2.0, x2.1));
                assert(input_buffer(a, x1.0, x1.1) != input_buffer(a, x2.0, x2.1));
            }
        }
    }
    let img = l.map(f);
    vstd::set_lib::lemma_map_size(l, img, f);
    let r = vstd::set_lib::set_int_range(0, count as int);
    vstd::set_lib::lemma_int_range(0, count as int);
    assert(img.subset_of(r)) by {
        assert forall|b: int| img.contains(b) implies r.contains(b) by {
            let c = choose|c: (int, int)| l.contains(c) && f(c) == b;
            assert(input_buffer(a, c.0, c.1) < count);
        }
    }
    vstd::set_lib::lemma_len_subset(img, r);
}

/// A connection live just before the start of `(v, k)` is live at the turn of
/// that start.
proof fn lemma_live_in_turn(
    nodes: Seq<PipelineAudioNode>,
    g: Seq<Seq<nat>>,
    turns: Seq<usize>,
    evs: Seq<Event>,
    i: int,
    v: int,
    k: int,
    v2: int,
    k2: int,
)
    requires
        sweep_context(nodes, g, turns, evs),
        0 <= i < evs.len(),
        listed(nodes, v, k),
        evs[i] == start_event(nodes, turns, v, k),
        listed(nodes, v2, k2),
        started(nodes, turns, evs, v2, k2, i),
        !ended(nodes, turns, evs, v2, k2, i),
    ensures
        turn_live(nodes, turns, turns[source_of(nodes, v, k) as int] as int).contains((v2, k2)),
{
    lemma_start_before_end(nodes, g, turns, evs, v, k);
    lemma_start_before_end(nodes, g, turns, evs, v2, k2);
    lemma_index_of_position(evs, i);
    lemma_events_identify(nodes, g, turns, v, k, v2, k2);
    lemma_events_identify(nodes, g, turns, v2, k2, v, k);
    let s = start_event(nodes, turns, v, k);
    let s2 = start_event(nodes, turns, v2, k2);
    let e2 = end_event(nodes, turns, v2, k2);
    let tau = turns[source_of(nodes, v, k) as int];
    if turns[source_of(nodes, v2, k2) as int] > tau {
        lemma_event_position(evs, s, s2);
    }
    if turns[v2] < tau {
        lemma_event_position(evs, e2, s);
    }
}

/// When every buffer below `next` is held by a live connection, the start of
/// `(v, k)` makes at least `next + 1` connections live at its turn.
proof fn lemma_peak_grows(
    nodes: Seq<PipelineAudioNode>,
    g: Seq<Seq<nat>>,
    turns: Seq<usize>,
    evs: Seq<Event>,
    i: int,
    a: Seq<BufferAssignment>,
    next: nat,
    v: int,
    k: int,
)
    requires
        sweep_context(nodes, g, turns, evs),
        0 <= i < evs.len(),
        listed(nodes, v, k),
        evs[i] == start_event(nodes, turns, v, k),
        forall|b: nat|
            #[trigger] below(b, next) ==> exists|v2: int, k2: int|
                #[trigger] listed(nodes, v2, k2) && started(nodes, turns, evs, v2, k2, i) && !ended(
                    nodes,
                    turns,
                    evs,
                    v2,
                    k2,
                    i,
                ) && input_buffer(a, v2, k2) == b,
    ensures
        turn_live(nodes, turns, turns[source_of(nodes, v, k) as int] as int).len() >= next + 1,
{
    let tau = turns[source_of(nodes, v, k) as int] as int;
    let l = turn_live(nodes, turns, tau);
    lemma_connections_finite(nodes, l);
    let f = |b: int|
        choose|c: (int, int)|
            listed(nodes, c.0, c.1) && started(nodes, turns, evs, c.0, c.1, i) && !ended(
                nodes,
                turns,
                evs,
                c.0,
                c.1,
                i,
            ) && input_buffer(a, c.0, c.1) == b;
    let r = vstd::set_lib::set_int_range(0, next as int);
    vstd::set_lib::lemma_int_range(0, next as int);
    assert forall|b: int| r.contains(b) implies {
        let c = #[trigger] f(b);
        &&& listed(nodes, c.0, c.1)
        &&& started(nodes, turns, evs, c.0, c.1, i)
        &&& !ended(nodes, turns, evs, c.0, c.1, i)
        &&& input_buffer(a, c.0, c.1) == b
    } by {
        assert(below(b as nat, next));
        let (v2, k2) = choose|v2: int, k2: int|
            #[trigger] listed(nodes, v2, k2) && started(nodes, turns, evs, v2, k2, i) && !ended(
                nodes,
                turns,
                evs,
                v2,
                k2,
                i,
            ) && input_buffer(a, v2, k2) == b as nat;
        assert(listed(nodes, (v2, k2).0, (v2, k2).1));
    }
    assert(vstd::relations::injective_on(f, r)) by {
        assert forall|b1: int, b2: int| r.contains(b1) && r.contains(b2) && #[trigger] f(b1) == #[trigger] f(b2) implies b1
            == b2 by {
        }
    }
    let img = r.map(f);
    vstd::set_lib::lemma_map_size(r, img, f);
    lemma_start_before_end(nodes, g, turns, evs, v, k);
    lemma_index_of_position(evs, i);
    assert(!img.contains((v, k))) by {
        if img.contains((v, k)) {
            let b = choose|b: int| r.contains(b) && f(b) == (v, k);
            assert(started(nodes, turns, evs, v, k, i));
        }
    }
    let all = img.insert((v, k));
    assert(all.subset_of(l)) by {
        assert forall|c: (int, int)| all.contains(c) implies l.contains(c) by {
            if c == (v, k) {
                lemma_connection_in_graph(nodes, v, k);
                assert(is_edge(g, source_of(nodes, v, k), v as nat));
            } else {
                let b = choose|b: int| r.contains(b) && f(b) == c;
                lemma_live_in_turn(nodes, g, turns, evs, i, v, k, c.0, c.1);
            }
        }
    }
    vstd::set_lib::lemma_len_subset(all, l);
}

/// A layout in which every node reads only from nodes added before it has no
/// cycle and keeps every connection in its graph: this is what a builder gives
/// when each node's inputs name nodes the builder returned earlier.
pub proof fn lemma_forward_layout_acyclic(nodes: Seq<PipelineAudioNode>)
    requires
        forward_layout(nodes),
    ensures
        adjacency_closed(layout_graph(nodes)),
        is_acyclic(layout_graph(nodes)),
        connections_kept(nodes),
{
    lemma_forward_layout_graph(nodes);
}

} // verus!
