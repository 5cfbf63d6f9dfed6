//! The mathematical model of a pipeline layout: which outputs each node reads,
//! the connection edges this induces, and how often each node is read from.

use vstd::prelude::*;

use crate::id::IncrementalId;
use crate::pipeline::graph::{adjacency_closed, edges_adjacency, occurrences, resize_adjacency};
use crate::pipeline::{declared_outputs, node_inputs, PipelineAudioNode};

verus! {

/// The positions of the nodes that node `n` reads from, in input order.
pub open spec fn input_sources(n: PipelineAudioNode) -> Seq<nat> {
    Seq::new(node_inputs(n).len(), |k: int| node_inputs(n)[k].node.position())
}

/// The connections of the nodes `0..m` as edges `(source, reader)`: by reader in
/// node order and per reader in input order.
pub open spec fn connection_edges(nodes: Seq<PipelineAudioNode>, m: nat) -> Seq<(nat, nat)>
    decreases m,
{
    if m == 0 {
        Seq::empty()
    } else {
        connection_edges(nodes, (m - 1) as nat) + Seq::new(
            input_sources(nodes[m - 1]).len(),
            |k: int| (input_sources(nodes[m - 1])[k], (m - 1) as nat),
        )
    }
}

/// How many inputs of the nodes `0..m` read from node `u`.
pub open spec fn use_count(nodes: Seq<PipelineAudioNode>, u: nat, m: nat) -> nat
    decreases m,
{
    if m == 0 {
        0
    } else {
        use_count(nodes, u, (m - 1) as nat) + occurrences(input_sources(nodes[m - 1]), u)
    }
}

/// The graph of a layout: one list per node, with an edge from every node to
/// each node reading from it, built as `Graph::from_edges` builds it from the
/// connection edges and padded with empty lists to the number of nodes.
pub open spec fn layout_graph(nodes: Seq<PipelineAudioNode>) -> Seq<Seq<nat>> {
    resize_adjacency(edges_adjacency(connection_edges(nodes, nodes.len())), nodes.len())
}

/// The number of connections of a layout.
pub open spec fn connection_count(nodes: Seq<PipelineAudioNode>) -> nat {
    connection_edges(nodes, nodes.len()).len()
}

/// Every input reads from a node of the layout.
pub open spec fn inputs_in_range(nodes: Seq<PipelineAudioNode>) -> bool {
    forall|v: int, k: int|
        0 <= v < nodes.len() && 0 <= k < node_inputs(nodes[v]).len() ==> (#[trigger] node_inputs(
            nodes[v],
        )[k]).node.position() < nodes.len()
}

/// Node `u` is read from exactly as often as it declared outputs.
pub open spec fn outputs_used(nodes: Seq<PipelineAudioNode>, u: int) -> bool {
    declared_outputs(nodes[u]) == use_count(nodes, u as nat, nodes.len())
}

/// Every node is read from exactly as often as it declared outputs.
pub open spec fn outputs_match(nodes: Seq<PipelineAudioNode>) -> bool {
    forall|u: int| 0 <= u < nodes.len() ==> #[trigger] outputs_used(nodes, u)
}

/// Node `i` is the first node whose use count differs from its declared outputs.
pub open spec fn first_mismatch(nodes: Seq<PipelineAudioNode>, i: int) -> bool {
    &&& 0 <= i < nodes.len()
    &&& !outputs_used(nodes, i)
    &&& forall|j: int| 0 <= j < i ==> #[trigger] outputs_used(nodes, j)
}

/// Every input names an output that its source declared.
pub open spec fn output_indices_in_range(nodes: Seq<PipelineAudioNode>) -> bool {
    forall|v: int, k: int|
        0 <= v < nodes.len() && 0 <= k < node_inputs(nodes[v]).len() ==> (#[trigger] node_inputs(
            nodes[v],
        )[k]).output_index < declared_outputs(nodes[node_inputs(nodes[v])[k].node.position() as int])
}

/// `occurrences` never exceeds the length of the sequence.
pub proof fn lemma_occurrences_bound(s: Seq<nat>, v: nat)
    ensures
        occurrences(s, v) <= s.len(),
    decreases s.len(),
{
    if s.len() > 0 {
        lemma_occurrences_bound(s.drop_last(), v);
    }
}

/// Use counts never exceed the number of connections.
pub proof fn lemma_use_count_bound(nodes: Seq<PipelineAudioNode>, u: nat, m: nat)
    requires
        m <= nodes.len(),
    ensures
        use_count(nodes, u, m) <= connection_edges(nodes, m).len(),
    decreases m,
{
    if m > 0 {
        lemma_use_count_bound(nodes, u, (m - 1) as nat);
        lemma_occurrences_bound(input_sources(nodes[m - 1]), u);
    }
}

/// More nodes give at least as many connections.
pub proof fn lemma_connection_edges_monotone(nodes: Seq<PipelineAudioNode>, m: nat, n: nat)
    requires
        m <= n <= nodes.len(),
    ensures
        connection_edges(nodes, m).len() <= connection_edges(nodes, n).len(),
        connection_edges(nodes, n).subrange(0, connection_edges(nodes, m).len() as int)
            == connection_edges(nodes, m),
    decreases n - m,
{
    if m < n {
        lemma_connection_edges_monotone(nodes, m, (n - 1) as nat);
        let a = connection_edges(nodes, m);
        let b = connection_edges(nodes, (n - 1) as nat);
        let c = connection_edges(nodes, n);
        assert(c.subrange(0, b.len() as int) =~= b);
        assert(c.subrange(0, a.len() as int) =~= a) by {
            assert forall|i: int| 0 <= i < a.len() implies c[i] == a[i] by {
                assert(c[i] == c.subrange(0, b.len() as int)[i]);
                assert(b[i] == b.subrange(0, a.len() as int)[i]);
            }
        }
    }
}

/// Every connection edge reads into one of the nodes `0..m` from an input that
/// names the edge's source, and the readers never decrease along the list.
pub proof fn lemma_connection_edges_shape(nodes: Seq<PipelineAudioNode>, m: nat)
    requires
        m <= nodes.len(),
    ensures
        forall|j: int|
            0 <= j < connection_edges(nodes, m).len() ==> {
                let e = #[trigger] connection_edges(nodes, m)[j];
                &&& e.1 < m
                &&& exists|k: int|
                    0 <= k < node_inputs(nodes[e.1 as int]).len() && input_sources(nodes[e.1 as int])[k]
                        == e.0
            },
        forall|i: int, j: int|
            0 <= i <= j < connection_edges(nodes, m).len() ==> (#[trigger] connection_edges(nodes, m)[i]).1
                <= (#[trigger] connection_edges(nodes, m)[j]).1,
    decreases m,
{
    if m > 0 {
        let p = (m - 1) as nat;
        lemma_connection_edges_shape(nodes, p);
        let prev = connection_edges(nodes, p);
        let srcs = input_sources(nodes[p as int]);
        let tail = Seq::new(srcs.len(), |k: int| (srcs[k], p));
        let all = connection_edges(nodes, m);
        assert(all == prev + tail);
        assert forall|j: int| 0 <= j < all.len() implies {
            let e = #[trigger] all[j];
            &&& e.1 < m
            &&& exists|k: int|
                0 <= k < node_inputs(nodes[e.1 as int]).len() && input_sources(nodes[e.1 as int])[k]
                    == e.0
        } by {
            if j < prev.len() {
                assert(all[j] == prev[j]);
            } else {
                let k = j - prev.len();
                assert(all[j] == (srcs[k], p));
            }
        }
        assert forall|i: int, j: int| 0 <= i <= j < all.len() implies (#[trigger] all[i]).1 <= (
        #[trigger] all[j]).1 by {
            if j < prev.len() {
                assert(all[i] == prev[i] && all[j] == prev[j]);
            } else if i < prev.len() {
                assert(all[i] == prev[i]);
                assert(prev[i].1 < p);
            }
        }
    }
}

/// Every entry of the adjacency that `Graph::from_edges` builds comes from an edge.
pub proof fn lemma_edges_adjacency_entries(edges: Seq<(nat, nat)>)
    ensures
        forall|u: int, k: int|
            0 <= u < edges_adjacency(edges).len() && 0 <= k < edges_adjacency(edges)[u].len()
                ==> #[trigger] edges.contains((u as nat, edges_adjacency(edges)[u][k])),
        edges.len() > 0 ==> edges_adjacency(edges).len() == if edges.last().0 >= edges.last().1 {
            edges.last().0 + 1
        } else {
            edges.last().1 + 1
        },
        edges.len() == 0 ==> edges_adjacency(edges).len() == 0,
    decreases edges.len(),
{
    if edges.len() > 0 {
        let prev_edges = edges.drop_last();
        lemma_edges_adjacency_entries(prev_edges);
        let prev = edges_adjacency(prev_edges);
        let (from, to) = edges.last();
        let n = if from >= to {
            from + 1
        } else {
            to + 1
        };
        let resized = resize_adjacency(prev, n);
        let adj = edges_adjacency(edges);
        assert(adj == resized.update(from as int, resized[from as int].push(to)));
        assert forall|u: int, k: int| 0 <= u < adj.len() && 0 <= k < adj[u].len() implies #[trigger] edges.contains(
            (u as nat, adj[u][k]),
        ) by {
            if u == from && k == resized[u].len() {
                assert(edges[edges.len() - 1] == (from, to));
            } else {
                assert(adj[u][k] == resized[u][k]);
                assert(u < prev.len());
                assert(prev_edges.contains((u as nat, prev[u][k])));
                let j = choose|j: int| 0 <= j < prev_edges.len() && prev_edges[j] == (u as nat, prev[u][k]);
                assert(edges[j] == prev_edges[j]);
            }
        }
    }
}

/// When all endpoints lie below `bound` and the targets never decrease along the
/// list, `Graph::from_edges` builds a graph of at most `bound` nodes whose edges
/// all end at nodes.
pub proof fn lemma_edges_adjacency_well_formed(edges: Seq<(nat, nat)>, bound: nat)
    requires
        forall|j: int| 0 <= j < edges.len() ==> (#[trigger] edges[j]).0 < bound && edges[j].1 < bound,
        forall|i: int, j: int| 0 <= i <= j < edges.len() ==> (#[trigger] edges[i]).1 <= (#[trigger] edges[j]).1,
    ensures
        edges_adjacency(edges).len() <= bound,
        adjacency_closed(edges_adjacency(edges)),
{
    lemma_edges_adjacency_entries(edges);
    let adj = edges_adjacency(edges);
    if edges.len() > 0 {
        assert(edges[edges.len() - 1].0 < bound);
        assert forall|u: int, k: int| 0 <= u < adj.len() && 0 <= k < adj[u].len() implies #[trigger] adj[u][k]
            < adj.len() by {
            assert(edges.contains((u as nat, adj[u][k])));
            let j = choose|j: int| 0 <= j < edges.len() && edges[j] == (u as nat, adj[u][k]);
            assert(edges[j].1 <= edges[edges.len() - 1].1);
        }
    }
}

} // verus!
