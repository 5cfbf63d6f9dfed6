//! Directed graphs over pipeline nodes as adjacency lists: building them from
//! edges, listing and reversing edges, and topological orders.

use vstd::prelude::*;

use crate::id::{IncrementalId, NumericId};
use crate::pipeline::bits::{bit_values, bits_get, bits_repeat, bits_set, NodeBits};
use crate::pipeline::NodeId;

verus! {

// ---------------------------------------------------------------------------
// Mathematical model of a directed graph: `g[u]` lists the successors of `u`.
// ---------------------------------------------------------------------------

/// Every successor names a node of the graph.
pub open spec fn adjacency_closed(g: Seq<Seq<nat>>) -> bool {
    forall|u: int, k: int| 0 <= u < g.len() && 0 <= k < g[u].len() ==> #[trigger] g[u][k] < g.len()
}

/// `u -> v` is an edge of `g`.
pub open spec fn is_edge(g: Seq<Seq<nat>>, u: nat, v: nat) -> bool {
    u < g.len() && g[u as int].contains(v)
}

/// Consecutive nodes of `p` are joined by edges.
pub open spec fn is_chain(g: Seq<Seq<nat>>, p: Seq<nat>) -> bool {
    forall|i: int| 0 <= i < p.len() - 1 ==> #[trigger] is_edge(g, p[i], p[i + 1])
}

/// No walk of one or more edges leads from a node back to itself.
pub open spec fn is_acyclic(g: Seq<Seq<nat>>) -> bool {
    forall|p: Seq<nat>| #[trigger] is_chain(g, p) && p.len() >= 2 ==> p[0] != p[p.len() - 1]
}

/// `o` lists every node of `g` exactly once, and every edge goes from an earlier
/// entry of `o` to a later one.
pub open spec fn is_topological_order(g: Seq<Seq<nat>>, o: Seq<nat>) -> bool {
    &&& is_node_permutation(g.len(), o)
    &&& forall|i: int, j: int|
        0 <= i < o.len() && 0 <= j < o.len() && #[trigger] is_edge(g, o[i], o[j]) ==> i < j
}

/// `o` lists each of the nodes `0..n` exactly once.
pub open spec fn is_node_permutation(n: nat, o: Seq<nat>) -> bool {
    &&& o.len() == n
    &&& o.no_duplicates()
    &&& forall|i: int| 0 <= i < o.len() ==> #[trigger] o[i] < n
    &&& forall|v: nat| v < n ==> #[trigger] o.contains(v)
}

/// The positions of a sequence of node ids.
pub open spec fn node_positions(s: Seq<NodeId>) -> Seq<nat> {
    Seq::new(s.len(), |i: int| s[i].position())
}

/// The adjacency lists that `Graph::from_edges` builds: for each edge in turn the
/// lists are resized to one more than the larger endpoint (which may also shorten
/// them) and the target is appended to the list of the source.
pub open spec fn edges_adjacency(edges: Seq<(nat, nat)>) -> Seq<Seq<nat>>
    decreases edges.len(),
{
    if edges.len() == 0 {
        Seq::empty()
    } else {
        let prev = edges_adjacency(edges.drop_last());
        let (from, to) = edges.last();
        let n = if from >= to { from + 1 } else { to + 1 };
        let resized = resize_adjacency(prev, n);
        resized.update(from as int, resized[from as int].push(to))
    }
}

/// `g` cut or padded with empty lists to length `n`.
pub open spec fn resize_adjacency(g: Seq<Seq<nat>>, n: nat) -> Seq<Seq<nat>> {
    Seq::new(n, |i: int| if i < g.len() { g[i] } else { Seq::empty() })
}

/// The positions of adjacency lists given by node ids.
pub open spec fn adjacency_positions(adj: Seq<Vec<NodeId>>) -> Seq<Seq<nat>> {
    Seq::new(adj.len(), |u: int| node_positions(adj[u]@))
}

/// The positions of a sequence of edges given by node ids.
pub open spec fn edge_positions(s: Seq<(NodeId, NodeId)>) -> Seq<(nat, nat)> {
    Seq::new(s.len(), |i: int| (s[i].0.position(), s[i].1.position()))
}

/// How often `v` occurs in `s`.
pub open spec fn occurrences(s: Seq<nat>, v: nat) -> nat
    decreases s.len(),
{
    if s.len() == 0 {
        0
    } else {
        occurrences(s.drop_last(), v) + if s.last() == v {
            1nat
        } else {
            0nat
        }
    }
}

/// The sources of the edges into `v` from the nodes `0..n`, in node order, each
/// repeated once per edge.
pub open spec fn sources_into(g: Seq<Seq<nat>>, v: nat, n: nat) -> Seq<nat>
    decreases n,
{
    if n == 0 {
        Seq::empty()
    } else {
        sources_into(g, v, (n - 1) as nat) + Seq::new(
            occurrences(g[n - 1], v),
            |_i: int| (n - 1) as nat,
        )
    }
}

/// The graph with every edge of `g` reversed.
pub open spec fn transposed(g: Seq<Seq<nat>>) -> Seq<Seq<nat>> {
    Seq::new(g.len(), |v: int| sources_into(g, v as nat, g.len()))
}

/// The edges leaving the nodes `0..n`, in node order and, per node, in list order.
pub open spec fn edge_list(g: Seq<Seq<nat>>, n: nat) -> Seq<(nat, nat)>
    decreases n,
{
    if n == 0 {
        Seq::empty()
    } else {
        edge_list(g, (n - 1) as nat) + Seq::new(
            g[n - 1].len(),
            |k: int| ((n - 1) as nat, g[n - 1][k]),
        )
    }
}

/// The number of edges leaving the nodes `0..n`.
pub open spec fn edge_count(g: Seq<Seq<nat>>, n: nat) -> nat
    decreases n,
{
    if n == 0 {
        0
    } else {
        edge_count(g, (n - 1) as nat) + g[n - 1].len()
    }
}

// ---------------------------------------------------------------------------
// The graph.
// ---------------------------------------------------------------------------

/// A directed graph over the nodes of a pipeline, as adjacency lists.
pub struct Graph {
    adj: Vec<Vec<NodeId>>,
}

impl View for Graph {
    type V = Seq<Seq<nat>>;

    closed spec fn view(&self) -> Seq<Seq<nat>> {
        adjacency_positions(self.adj@)
    }
}

/// A graph that the traversals accept: at most `u32::MAX` nodes, and every edge
/// ends at a node.
pub open spec fn is_well_formed(g: Seq<Seq<nat>>) -> bool {
    g.len() <= u32::MAX && adjacency_closed(g)
}

impl Graph {
    /// A graph with the given adjacency lists: `adj[i]` lists the successors of the
    /// node with index `i`.
    pub fn from_adjacency(adj: Vec<Vec<NodeId>>) -> (r: Graph)
        ensures
            r@ == adjacency_positions(adj@),
    {
        Graph { adj }
    }

    /// The adjacency lists of the graph.
    pub fn into_adjacency(self) -> (r: Vec<Vec<NodeId>>)
        ensures
            adjacency_positions(r@) == self@,
    {
        self.adj
    }

    /// The number of nodes.
    pub fn len(&self) -> (r: usize)
        ensures
            r == self@.len(),
    {
        self.adj.len()
    }

    /// The number of edges.
    pub fn count_edges(&self) -> (r: usize)
        requires
            edge_count(self@, self@.len()) <= usize::MAX,
        ensures
            r == edge_count(self@, self@.len()),
    {
        let n = self.adj.len();
        let mut total: usize = 0;
        for u in 0..n
            invariant
                n == self@.len(),
                edge_count(self@, self@.len()) <= usize::MAX,
                total == edge_count(self@, u as nat),
        {
            proof {
                lemma_edge_count_monotone(self@, (u + 1) as nat, n as nat);
            }
            total = total + self.adj[u].len();
        }
        total
    }

    /// The successors of `node`.
    pub fn neighbors(&self, node: NodeId) -> (r: &Vec<NodeId>)
        requires
            node.position() < self@.len(),
        ensures
            node_positions(r@) == self@[node.position() as int],
    {
        &self.adj[node.as_index()]
    }

    /// Every edge `(from, to)`, by source in node order and per source in list order.
    pub fn edges(&self) -> (r: Vec<(NodeId, NodeId)>)
        requires
            self@.len() <= u32::MAX,
        ensures
            edge_positions(r@) == edge_list(self@, self@.len()),
    {
        let n = self.adj.len();
        let mut out: Vec<(NodeId, NodeId)> = Vec::new();
        for u in 0..n
            invariant
                n == self@.len(),
                n <= u32::MAX,
                edge_positions(out@) == edge_list(self@, u as nat),
        {
            let from = NodeId::from_index(u);
            let list = &self.adj[u];
            let m = list.len();
            let ghost before = out@;
            for k in 0..m
                invariant
                    n == self@.len(),
                    u < n,
                    from.position() == u,
                    m == list@.len(),
                    list@ == self.adj@[u as int]@,
                    out@.len() == before.len() + k,
                    out@.subrange(0, before.len() as int) == before,
                    forall|j: int| 0 <= j < k ==> #[trigger] out@[before.len() + j] == (from, list@[j]),
            {
                out.push((from, list[k]));
            }
            assert(edge_positions(out@) =~= edge_list(self@, (u + 1) as nat)) by {
                assert(edge_positions(before) == edge_list(self@, u as nat));
                assert forall|i: int| 0 <= i < out@.len() implies #[trigger] edge_positions(out@)[i]
                    == edge_list(self@, (u + 1) as nat)[i] by {
                    let g = self@;
                    assert(g[u as int] == node_positions(self.adj@[u as int]@));
                    assert(edge_list(g, (u + 1) as nat) == edge_list(g, u as nat) + Seq::new(
                        g[u as int].len(),
                        |k: int| (u as nat, g[u as int][k]),
                    ));
                    if i < before.len() {
                        assert(out@[i] == before[i]);
                        assert(edge_positions(before)[i] == edge_list(self@, u as nat)[i]);
                    } else {
                        let j = i - before.len();
                        assert(out@[before.len() + j] == (from, list@[j]));
                    }
                }
            }
        }
        out
    }
}

impl Graph {
    /// Builds the adjacency lists from a list of edges, as [`edges_adjacency`] says:
    /// for each edge in turn the lists are resized to one more than its larger
    /// endpoint and the target is appended to the source's list.
    pub fn from_edges(edges: Vec<(NodeId, NodeId)>) -> (r: Graph)
        ensures
            r@ == edges_adjacency(edge_positions(edges@)),
    {
        let mut adj: Vec<Vec<NodeId>> = Vec::new();
        let m = edges.len();
        for i in 0..m
            invariant
                m == edges@.len(),
                adjacency_positions(adj@) == edges_adjacency(edge_positions(edges@).take(i as int)),
        {
            let (from, to) = edges[i];
            let fi = from.as_index();
            let ti = to.as_index();
            let n = if fi >= ti {
                fi + 1
            } else {
                ti + 1
            };
            let ghost prev = adj@;
            let empty: Vec<NodeId> = Vec::new();
            let ghost e = empty;
            adj.resize(n, empty);
            proof {
                assert forall|j: int| prev.len() <= j < n implies (#[trigger] adj@[j])@.len() == 0 by {
                    assert(cloned::<Vec<NodeId>>(e, adj@[j]));
                }
                assert(adj@.len() == n);
                assert forall|j: int| 0 <= j < n implies #[trigger] adjacency_positions(adj@)[j]
                    == resize_adjacency(adjacency_positions(prev), n as nat)[j] by {
                    if j < prev.len() {
                        if n <= prev.len() {
                            assert(adj@[j] == prev.subrange(0, n as int)[j]);
                        } else {
                            assert(adj@[j] == adj@.subrange(0, prev.len() as int)[j]);
                        }
                    } else {
                        assert(node_positions(adj@[j]@) =~= Seq::<nat>::empty());
                    }
                }
                assert(adjacency_positions(adj@) =~= resize_adjacency(adjacency_positions(prev), n as nat));
            }
            let ghost resized = adj@;
            adj[fi].push(to);
            proof {
                let ep = edge_positions(edges@);
                assert(ep.take(i + 1).drop_last() =~= ep.take(i as int));
                assert(ep.take(i + 1).last() == (fi as nat, ti as nat));
                assert(adj@ == resized.update(fi as int, adj@[fi as int]));
                assert(node_positions(adj@[fi as int]@) =~= node_positions(resized[fi as int]@).push(ti as nat));
                assert(adjacency_positions(adj@) =~= edges_adjacency(ep.take(i + 1)));
            }
        }
        proof {
            assert(edge_positions(edges@).take(m as int) =~= edge_positions(edges@));
        }
        Graph { adj }
    }
}

impl Graph {
    /// The graph with every edge reversed: the successors of `v` in the result are
    /// the sources of the edges into `v`, in node order, once per edge.
    pub fn transpose(&self) -> (r: Graph)
        requires
            is_well_formed(self@),
        ensures
            r@ == transposed(self@),
    {
        let ghost g = self@;
        let n = self.adj.len();
        let mut h: Vec<Vec<NodeId>> = Vec::new();
        for v in 0..n
            invariant
                h@.len() == v,
                forall|w: int| 0 <= w < v ==> (#[trigger] h@[w])@.len() == 0,
        {
            h.push(Vec::new());
        }
        for u in 0..n
            invariant
                g == self@,
                n == g.len(),
                is_well_formed(g),
                h@.len() == n,
                forall|v: int|
                    0 <= v < n ==> #[trigger] node_positions(h@[v]@) == sources_into(g, v as nat, u as nat),
        {
            let list = &self.adj[u];
            let m = list.len();
            assert(g[u as int] == node_positions(list@));
            for k in 0..m
                invariant
                    g == self@,
                    n == g.len(),
                    is_well_formed(g),
                    u < n,
                    m == g[u as int].len(),
                    g[u as int] == node_positions(list@),
                    h@.len() == n,
                    forall|v: int|
                        0 <= v < n ==> #[trigger] node_positions(h@[v]@) == sources_into(g, v as nat, u as nat)
                            + Seq::new(occurrences(g[u as int].take(k as int), v as nat), |_i: int| u as nat),
            {
                let w = list[k];
                let wi = w.as_index();
                assert(g[u as int][k as int] == wi);
                let ghost before = h@;
                h[wi].push(NodeId::from_index(u));
                proof {
                    let s = g[u as int];
                    assert(s.take(k + 1).drop_last() =~= s.take(k as int));
                    assert(s.take(k + 1).last() == wi);
                    assert forall|v: int| 0 <= v < n implies #[trigger] node_positions(h@[v]@)
                        == sources_into(g, v as nat, u as nat) + Seq::new(
                        occurrences(s.take(k + 1), v as nat),
                        |_i: int| u as nat,
                    ) by {
                        if v == wi {
                            assert(node_positions(h@[v]@) =~= node_positions(before[v]@).push(u as nat));
                            assert(sources_into(g, v as nat, u as nat) + Seq::new(
                                occurrences(s.take(k + 1), v as nat),
                                |_i: int| u as nat,
                            ) =~= (sources_into(g, v as nat, u as nat) + Seq::new(
                                occurrences(s.take(k as int), v as nat),
                                |_i: int| u as nat,
                            )).push(u as nat));
                        } else {
                            assert(h@[v] == before[v]);
                        }
                    }
                }
            }
            proof {
                assert(g[u as int].take(m as int) =~= g[u as int]);
            }
        }
        proof {
            assert(adjacency_positions(h@) =~= transposed(g));
        }
        Graph { adj: h }
    }
}

// ---------------------------------------------------------------------------
// Depth-first search.
// ---------------------------------------------------------------------------

/// The number of `false` entries of `b`.
pub open spec fn false_count(b: Seq<bool>) -> nat
    decreases b.len(),
{
    if b.len() == 0 {
        0
    } else {
        false_count(b.drop_last()) + if b.last() {
            0nat
        } else {
            1nat
        }
    }
}

/// The bookkeeping of a depth-first search over `g`: `s` holds the finished nodes
/// in the order they finished, `anc` the nodes whose search is under way (from
/// the outermost inward), and `b` marks exactly the nodes of both.
pub open spec fn dfs_state(g: Seq<Seq<nat>>, s: Seq<nat>, b: Seq<bool>, anc: Seq<nat>) -> bool {
    &&& b.len() == g.len()
    &&& s.no_duplicates()
    &&& anc.no_duplicates()
    &&& forall|i: int| 0 <= i < s.len() ==> #[trigger] s[i] < g.len()
    &&& forall|i: int| 0 <= i < anc.len() ==> #[trigger] anc[i] < g.len()
    &&& forall|x: int| 0 <= x < g.len() ==> (#[trigger] b[x] <==> (s.contains(x as nat) || anc.contains(x as nat)))
    &&& forall|i: int, j: int| 0 <= i < s.len() && 0 <= j < anc.len() ==> #[trigger] s[i] != #[trigger] anc[j]
    &&& s.len() + anc.len() + false_count(b) == g.len()
}

/// Every successor of a node of `s` stands in `s` before it.
pub open spec fn stack_closed(g: Seq<Seq<nat>>, s: Seq<nat>) -> bool {
    forall|i: int, k: int|
        0 <= i < s.len() && 0 <= k < g[s[i] as int].len() ==> #[trigger] s.take(i).contains(
            g[s[i] as int][k],
        )
}

proof fn lemma_false_count_update(b: Seq<bool>, i: int)
    requires
        0 <= i < b.len(),
        !b[i],
    ensures
        false_count(b.update(i, true)) + 1 == false_count(b),
    decreases b.len(),
{
    let c = b.update(i, true);
    if i == b.len() - 1 {
        assert(c.drop_last() =~= b.drop_last());
    } else {
        assert(c.drop_last() =~= b.drop_last().update(i, true));
        lemma_false_count_update(b.drop_last(), i);
    }
}

proof fn lemma_false_count_all_true(b: Seq<bool>)
    requires
        forall|i: int| 0 <= i < b.len() ==> b[i],
    ensures
        false_count(b) == 0,
    decreases b.len(),
{
    if b.len() > 0 {
        lemma_false_count_all_true(b.drop_last());
    }
}

proof fn lemma_false_count_all_false(n: nat)
    ensures
        false_count(Seq::new(n, |_i: int| false)) == n,
    decreases n,
{
    if n > 0 {
        assert(Seq::new(n, |_i: int| false).drop_last() =~= Seq::new((n - 1) as nat, |_i: int| false));
        lemma_false_count_all_false((n - 1) as nat);
    }
}

/// A chain that returns to one of its nodes is a cycle.
proof fn lemma_cycle_from_chain(g: Seq<Seq<nat>>, c: Seq<nat>, j: int, w: nat)
    requires
        is_chain(g, c),
        0 <= j < c.len(),
        c[j] == w,
        is_edge(g, c.last(), w),
    ensures
        !is_acyclic(g),
{
    let p = c.subrange(j, c.len() as int).push(w);
    assert forall|i: int| 0 <= i < p.len() - 1 implies #[trigger] is_edge(g, p[i], p[i + 1]) by {
        if i < p.len() - 2 {
            assert(p[i] == c[j + i] && p[i + 1] == c[j + i + 1]);
            assert(is_edge(g, c[j + i], c[j + i + 1]));
        }
    }
    assert(is_chain(g, p));
    assert(p[0] == p[p.len() - 1]);
}

proof fn lemma_positions_push(s: Seq<NodeId>, x: NodeId)
    ensures
        node_positions(s.push(x)) == node_positions(s).push(x.position()),
{
    assert(node_positions(s.push(x)) =~= node_positions(s).push(x.position()));
}

proof fn lemma_positions_prefix(s: Seq<NodeId>, t: Seq<NodeId>)
    requires
        t.len() >= s.len(),
        t.subrange(0, s.len() as int) == s,
    ensures
        node_positions(t).subrange(0, s.len() as int) == node_positions(s),
        forall|x: nat| node_positions(s).contains(x) ==> node_positions(t).contains(x),
        forall|i: int| 0 <= i <= s.len() ==> node_positions(t).take(i) == node_positions(s).take(i),
{
    assert(node_positions(t).subrange(0, s.len() as int) =~= node_positions(s));
    assert forall|x: nat| node_positions(s).contains(x) implies node_positions(t).contains(x) by {
        let i = choose|i: int| 0 <= i < node_positions(s).len() && node_positions(s)[i] == x;
        assert(node_positions(t)[i] == x);
    }
    assert forall|i: int| 0 <= i <= s.len() implies node_positions(t).take(i) == node_positions(s).take(i) by {
        assert(node_positions(t).take(i) =~= node_positions(s).take(i));
    }
}

impl Graph {
    fn toposort_dfs(
        &self,
        stack: &mut Vec<NodeId>,
        vis: &mut NodeBits,
        current: NodeId,
        Ghost(anc): Ghost<Seq<nat>>,
    )
        requires
            is_well_formed(self@),
            current.position() < self@.len(),
            dfs_state(self@, node_positions(old(stack)@), bit_values(*old(vis)), anc),
            is_chain(self@, anc.push(current.position())),
            is_acyclic(self@) ==> stack_closed(self@, node_positions(old(stack)@)),
        ensures
            dfs_state(self@, node_positions(final(stack)@), bit_values(*final(vis)), anc),
            final(stack)@.len() >= old(stack)@.len(),
            final(stack)@.subrange(0, old(stack)@.len() as int) == old(stack)@,
            forall|x: int|
                0 <= x < self@.len() && #[trigger] bit_values(*old(vis))[x] ==> bit_values(
                    *final(vis),
                )[x],
            bit_values(*final(vis))[current.position() as int],
            is_acyclic(self@) ==> stack_closed(self@, node_positions(final(stack)@)),
        decreases false_count(bit_values(*old(vis))),
    {
        let ghost g = self@;
        let ci = current.as_index();
        if bits_get(vis, ci) {
            assert(stack@.subrange(0, stack@.len() as int) =~= stack@);
            return;
        }
        let ghost vis0 = bit_values(*vis);
        assert(vis0 == bit_values(*old(vis)));
        let ghost stack0 = stack@;
        bits_set(vis, ci, true);
        let ghost anc2 = anc.push(ci as nat);
        proof {
            lemma_false_count_update(vis0, ci as int);
            let b = bit_values(*vis);
            let s = node_positions(stack@);
            assert(!s.contains(ci as nat) && !anc.contains(ci as nat));
            assert forall|x: int| 0 <= x < g.len() implies (#[trigger] b[x] <==> (s.contains(x as nat)
                || anc2.contains(x as nat))) by {
                if x == ci {
                    assert(anc2[anc.len() as int] == ci);
                } else {
                    assert(anc2.contains(x as nat) <==> anc.contains(x as nat)) by {
                        if anc2.contains(x as nat) {
                            let j = choose|j: int| 0 <= j < anc2.len() && anc2[j] == x;
                            assert(anc[j] == x);
                        }
                        if anc.contains(x as nat) {
                            let j = choose|j: int| 0 <= j < anc.len() && anc[j] == x;
                            assert(anc2[j] == x);
                        }
                    }
                }
            }
            assert forall|i: int, j: int| 0 <= i < s.len() && 0 <= j < anc2.len() implies #[trigger] s[i]
                != #[trigger] anc2[j] by {
                if j == anc.len() {
                    assert(s.contains(s[i]));
                } else {
                    assert(anc2[j] == anc[j]);
                }
            }
            assert(dfs_state(g, s, b, anc2));
        }
        let list = &self.adj[ci];
        let m = list.len();
        let mut k: usize = 0;
        while k < m
            invariant
                g == self@,
                is_well_formed(g),
                ci < g.len(),
                ci == current.position(),
                m == g[ci as int].len(),
                g[ci as int] == node_positions(list@),
                anc2 == anc.push(ci as nat),
                is_chain(g, anc2),
                0 <= k <= m,
                dfs_state(g, node_positions(stack@), bit_values(*vis), anc2),
                stack@.len() >= stack0.len(),
                stack@.subrange(0, stack0.len() as int) == stack0,
                forall|x: int| 0 <= x < g.len() && #[trigger] vis0[x] ==> bit_values(*vis)[x],
                bit_values(*vis)[ci as int],
                false_count(bit_values(*vis)) < false_count(vis0),
                vis0 == bit_values(*old(vis)),
                stack0.len() + anc.len() + false_count(vis0) == g.len(),
                is_acyclic(g) ==> stack_closed(g, node_positions(stack@)),
                is_acyclic(g) ==> forall|j: int|
                    0 <= j < k ==> #[trigger] node_positions(stack@).contains(g[ci as int][j]),
            decreases m - k,
        {
            let w = list[k];
            let ghost stack1 = stack@;
            let ghost vis1 = bit_values(*vis);
            proof {
                assert(g[ci as int][k as int] == w.position());
                assert(is_edge(g, ci as nat, w.position()));
                assert(anc2.push(w.position()).drop_last() =~= anc2);
                assert forall|i: int| 0 <= i < anc2.push(w.position()).len() - 1 implies #[trigger] is_edge(
                    g,
                    anc2.push(w.position())[i],
                    anc2.push(w.position())[i + 1],
                ) by {
                    if i < anc2.len() - 1 {
                        assert(is_edge(g, anc2[i], anc2[i + 1]));
                    }
                }
            }
            self.toposort_dfs(stack, vis, w, Ghost(anc2));
            proof {
                lemma_positions_prefix(stack1, stack@);
                assert(stack@.subrange(0, stack0.len() as int) =~= stack0) by {
                    assert(stack@.subrange(0, stack1.len() as int) == stack1);
                    assert(stack1.subrange(0, stack0.len() as int) == stack0);
                    assert forall|i: int| 0 <= i < stack0.len() implies stack@[i] == stack0[i] by {
                        assert(stack@[i] == stack@.subrange(0, stack1.len() as int)[i]);
                        assert(stack1[i] == stack1.subrange(0, stack0.len() as int)[i]);
                    }
                }
                lemma_positions_prefix(stack0, stack@);
                if is_acyclic(g) {
                    let s = node_positions(stack@);
                    let wp = w.position();
                    if !s.contains(wp) {
                        assert(bit_values(*vis)[wp as int]);
                        assert(anc2.contains(wp));
                        let j = choose|j: int| 0 <= j < anc2.len() && anc2[j] == wp;
                        assert(anc2.last() == ci);
                        lemma_cycle_from_chain(g, anc2, j, wp);
                    }
                    assert forall|j: int| 0 <= j < k + 1 implies #[trigger] s.contains(g[ci as int][j]) by {
                        if j < k {
                            assert(node_positions(stack1).contains(g[ci as int][j]));
                        }
                    }
                }
            }
            k = k + 1;
        }
        let ghost stack2 = stack@;
        stack.push(current);
        proof {
            let s2 = node_positions(stack2);
            let s = node_positions(stack@);
            lemma_positions_push(stack2, current);
            assert(s == s2.push(ci as nat));
            let b = bit_values(*vis);
            assert(!s2.contains(ci as nat)) by {
                if s2.contains(ci as nat) {
                    let i = choose|i: int| 0 <= i < s2.len() && s2[i] == ci;
                    assert(s2[i] != anc2[anc.len() as int]);
                }
            }
            assert forall|x: int| 0 <= x < g.len() implies (#[trigger] b[x] <==> (s.contains(x as nat)
                || anc.contains(x as nat))) by {
                if x == ci {
                    assert(s[s2.len() as int] == ci);
                } else {
                    if s.contains(x as nat) {
                        let i = choose|i: int| 0 <= i < s.len() && s[i] == x;
                        assert(s2[i] == x);
                    }
                    if s2.contains(x as nat) {
                        let i = choose|i: int| 0 <= i < s2.len() && s2[i] == x;
                        assert(s[i] == x);
                    }
                    if anc2.contains(x as nat) {
                        let j = choose|j: int| 0 <= j < anc2.len() && anc2[j] == x;
                        assert(anc[j] == x);
                    }
                    if anc.contains(x as nat) {
                        let j = choose|j: int| 0 <= j < anc.len() && anc[j] == x;
                        assert(anc2[j] == x);
                    }
                }
            }
            assert forall|i: int, j: int| 0 <= i < s.len() && 0 <= j < anc.len() implies #[trigger] s[i]
                != #[trigger] anc[j] by {
                assert(anc2[j] == anc[j]);
                if i < s2.len() {
                    assert(s[i] == s2[i]);
                } else {
                    assert(anc.no_duplicates() && anc2.no_duplicates());
                    assert(anc2[anc.len() as int] == ci);
                }
            }
            assert(s.no_duplicates()) by {
                assert forall|i: int, j: int| 0 <= i < s.len() && 0 <= j < s.len() && i != j implies s[i]
                    != s[j] by {
                    if i < s2.len() && j < s2.len() {
                        assert(s[i] == s2[i] && s[j] == s2[j]);
                    } else if i < s2.len() {
                        assert(s2.contains(s[i]));
                    } else {
                        assert(s2.contains(s[j]));
                    }
                }
            }
            assert(dfs_state(g, s, b, anc));
            assert(stack@.subrange(0, stack0.len() as int) =~= stack0) by {
                assert forall|i: int| 0 <= i < stack0.len() implies stack@[i] == stack0[i] by {
                    assert(stack2[i] == stack2.subrange(0, stack0.len() as int)[i]);
                }
            }
            if is_acyclic(g) {
                assert forall|i: int, kk: int|
                    0 <= i < s.len() && 0 <= kk < g[s[i] as int].len() implies #[trigger] s.take(i).contains(
                    g[s[i] as int][kk],
                ) by {
                    if i < s2.len() {
                        assert(s.take(i) =~= s2.take(i));
                        assert(s[i] == s2[i]);
                    } else {
                        assert(s.take(i) =~= s2);
                        assert(s2.contains(g[ci as int][kk]));
                    }
                }
            }
        }
    }
}

impl Graph {
    /// Orders the nodes by a depth-first search: each node comes before all nodes
    /// reachable from it, provided the graph has no cycle. Every node appears once
    /// in any case.
    pub fn toposort_acyclic(&self) -> (r: Vec<NodeId>)
        requires
            is_well_formed(self@),
            self@.len() <= usize::MAX / 8,
        ensures
            is_node_permutation(self@.len(), node_positions(r@)),
            is_acyclic(self@) ==> is_topological_order(self@, node_positions(r@)),
    {
        let ghost g = self@;
        let n = self.adj.len();
        let mut stack: Vec<NodeId> = Vec::with_capacity(n);
        let mut vis = bits_repeat(false, n);
        proof {
            lemma_false_count_all_false(n as nat);
            assert(bit_values(vis) =~= Seq::new(n as nat, |_i: int| false));
            assert(node_positions(stack@) =~= Seq::<nat>::empty());
            assert(dfs_state(g, node_positions(stack@), bit_values(vis), Seq::empty()));
        }
        for index in 0..n
            invariant
                g == self@,
                n == g.len(),
                is_well_formed(g),
                n <= usize::MAX / 8,
                dfs_state(g, node_positions(stack@), bit_values(vis), Seq::empty()),
                forall|j: int| 0 <= j < index ==> #[trigger] bit_values(vis)[j],
                is_acyclic(g) ==> stack_closed(g, node_positions(stack@)),
        {
            let node = NodeId::from_index(index);
            proof {
                assert(Seq::<nat>::empty().push(node.position()).len() == 1);
            }
            let ghost before = bit_values(vis);
            self.toposort_dfs(&mut stack, &mut vis, node, Ghost(Seq::empty()));
            proof {
                assert forall|j: int| 0 <= j < index + 1 implies #[trigger] bit_values(vis)[j] by {
                    if j < index {
                        assert(before[j]);
                    }
                }
            }
        }
        let ghost s = node_positions(stack@);
        proof {
            lemma_false_count_all_true(bit_values(vis));
            assert forall|v: nat| v < n implies #[trigger] s.contains(v) by {
                assert(bit_values(vis)[v as int]);
            }
        }
        let mut out: Vec<NodeId> = Vec::with_capacity(n);
        let mut i = n;
        while i > 0
            invariant
                i <= n,
                n == stack@.len(),
                out@.len() == n - i,
                forall|j: int| 0 <= j < n - i ==> #[trigger] out@[j] == stack@[n - 1 - j],
            decreases i,
        {
            i = i - 1;
            out.push(stack[i]);
        }
        proof {
            let o = node_positions(out@);
            assert(o =~= s.reverse());
            assert(o.no_duplicates()) by {
                assert forall|a: int, b: int| 0 <= a < n && 0 <= b < n && a != b implies o[a] != o[b] by {
                    assert(o[a] == s[n - 1 - a] && o[b] == s[n - 1 - b]);
                }
            }
            assert forall|v: nat| v < n implies #[trigger] o.contains(v) by {
                assert(s.contains(v));
                let j = choose|j: int| 0 <= j < s.len() && s[j] == v;
                assert(o[n - 1 - j] == v);
            }
            assert forall|a: int| 0 <= a < o.len() implies #[trigger] o[a] < n by {
                assert(o[a] == s[n - 1 - a]);
            }
            if is_acyclic(g) {
                assert forall|a: int, b: int|
                    0 <= a < o.len() && 0 <= b < o.len() && #[trigger] is_edge(g, o[a], o[b]) implies a < b by {
                    let ia = n - 1 - a;
                    let ib = n - 1 - b;
                    assert(o[a] == s[ia] && o[b] == s[ib]);
                    let kk = choose|kk: int| 0 <= kk < g[s[ia] as int].len() && g[s[ia] as int][kk] == s[ib];
                    assert(s.take(ia).contains(g[s[ia] as int][kk]));
                    let c = choose|c: int| 0 <= c < s.take(ia).len() && s.take(ia)[c] == s[ib];
                    assert(s[c] == s[ib]);
                }
            }
        }
        out
    }

    /// Returns an order of the nodes in which every edge goes forward, or `None`
    /// when the graph has a cycle and no such order exists.
    pub fn toposort(&self) -> (r: Option<Vec<NodeId>>)
        requires
            is_well_formed(self@),
            self@.len() <= usize::MAX / 8,
        ensures
            r is Some <==> is_acyclic(self@),
            r matches Some(o) ==> is_topological_order(self@, node_positions(o@)),
    {
        let ghost g = self@;
        let order = self.toposort_acyclic();
        let n = order.len();
        let ghost o = node_positions(order@);
        let mut node_to_ord_idx: Vec<usize> = Vec::with_capacity(n);
        for j in 0..n
            invariant
                node_to_ord_idx@.len() == j,
        {
            node_to_ord_idx.push(0);
        }
        for i in 0..n
            invariant
                n == order@.len(),
                o == node_positions(order@),
                is_node_permutation(g.len(), o),
                node_to_ord_idx@.len() == n,
                forall|j: int| 0 <= j < i ==> #[trigger] node_to_ord_idx@[o[j] as int] == j,
        {
            let node = order[i];
            let ni = node.as_index();
            assert(o[i as int] == ni);
            node_to_ord_idx.set(ni, i);
            proof {
                assert forall|j: int| 0 <= j < i + 1 implies #[trigger] node_to_ord_idx@[o[j] as int] == j by {
                    if j < i {
                        assert(o[j] != o[i as int]);
                    }
                }
            }
        }
        let edges = self.edges();
        let ghost el = edge_list(g, g.len());
        proof {
            lemma_edge_list_members(g, g.len());
        }
        let m = edges.len();
        for e in 0..m
            invariant
                g == self@,
                n == order@.len(),
                n == g.len(),
                o == node_positions(order@),
                is_node_permutation(g.len(), o),
                node_to_ord_idx@.len() == n,
                forall|j: int| 0 <= j < n ==> #[trigger] node_to_ord_idx@[o[j] as int] == j,
                m == edges@.len(),
                edge_positions(edges@) == el,
                is_well_formed(g),
                forall|i: int| 0 <= i < el.len() ==> is_edge(g, (#[trigger] el[i]).0, el[i].1),
                forall|u: int, k: int|
                    0 <= u < g.len() && 0 <= k < g[u].len() ==> #[trigger] el.contains((u as nat, g[u][k])),
                forall|i: int| 0 <= i < e ==> node_to_ord_idx@[(#[trigger] el[i]).0 as int]
                    < node_to_ord_idx@[el[i].1 as int],
                is_acyclic(g) ==> is_topological_order(g, o),
        {
            let (from, to) = edges[e];
            let fi = from.as_index();
            let ti = to.as_index();
            assert(el[e as int] == (fi as nat, ti as nat));
            assert(is_edge(g, fi as nat, ti as nat));
            assert(ti < n) by {
                let kk = choose|kk: int| 0 <= kk < g[fi as int].len() && g[fi as int][kk] == ti;
                assert(g[fi as int][kk] < g.len());
            }
            if node_to_ord_idx[fi] >= node_to_ord_idx[ti] {
                proof {
                    if is_acyclic(g) {
                        assert(o.contains(fi as nat));
                        assert(o.contains(ti as nat));
                        let a = choose|a: int| 0 <= a < n && o[a] == fi;
                        let b = choose|b: int| 0 <= b < n && o[b] == ti;
                        assert(is_edge(g, o[a], o[b]));
                        assert(node_to_ord_idx@[o[a] as int] == a);
                        assert(node_to_ord_idx@[o[b] as int] == b);
                        assert(is_topological_order(g, o));
                        assert(a < b);
                        assert(node_to_ord_idx@[fi as int] >= node_to_ord_idx@[ti as int]);
                        assert(false);
                    }
                }
                return None;
            }
        }
        proof {
            assert forall|a: int, b: int|
                0 <= a < o.len() && 0 <= b < o.len() && #[trigger] is_edge(g, o[a], o[b]) implies a < b by {
                let ui: int = o[a] as int;
                assert(0 <= ui < g.len());
                let kk = choose|kk: int| 0 <= kk < g[ui].len() && g[ui][kk] == o[b];
                assert(el.contains((ui as nat, g[ui][kk])));
                let i = choose|i: int| 0 <= i < el.len() && el[i] == (ui as nat, g[ui][kk]);
                assert(node_to_ord_idx@[el[i].0 as int] < node_to_ord_idx@[el[i].1 as int]);
            }
            assert(is_topological_order(g, o));
            lemma_topological_order_acyclic(g, o);
        }
        Some(order)
    }
}

/// `Graph::edges` lists exactly the edges: every entry of the edge list is an
/// edge, and every edge is listed.
pub proof fn lemma_edge_list_members(g: Seq<Seq<nat>>, n: nat)
    requires
        n <= g.len(),
    ensures
        forall|i: int| 0 <= i < edge_list(g, n).len() ==> is_edge(
            g,
            (#[trigger] edge_list(g, n)[i]).0,
            edge_list(g, n)[i].1,
        ),
        forall|u: int, k: int|
            0 <= u < n && 0 <= k < g[u].len() ==> #[trigger] edge_list(g, n).contains((u as nat, g[u][k])),
    decreases n,
{
    if n > 0 {
        let m = (n - 1) as nat;
        lemma_edge_list_members(g, m);
        let prev = edge_list(g, m);
        let tail = Seq::new(g[m as int].len(), |k: int| (m, g[m as int][k]));
        assert(edge_list(g, n) == prev + tail);
        assert forall|i: int| 0 <= i < edge_list(g, n).len() implies is_edge(
            g,
            (#[trigger] edge_list(g, n)[i]).0,
            edge_list(g, n)[i].1,
        ) by {
            if i < prev.len() {
                assert(edge_list(g, n)[i] == prev[i]);
                assert(is_edge(g, prev[i].0, prev[i].1));
            } else {
                let k = i - prev.len();
                assert(edge_list(g, n)[i] == (m, g[m as int][k]));
                assert(g[m as int][k] == g[m as int][k]);
                assert(g[m as int].contains(g[m as int][k]));
            }
        }
        assert forall|u: int, k: int|
            0 <= u < n && 0 <= k < g[u].len() implies #[trigger] edge_list(g, n).contains((u as nat, g[u][k])) by {
            if u < m {
                assert(prev.contains((u as nat, g[u][k])));
                let i = choose|i: int| 0 <= i < prev.len() && prev[i] == (u as nat, g[u][k]);
                assert(edge_list(g, n)[i] == prev[i]);
            } else {
                assert(edge_list(g, n)[prev.len() + k] == (u as nat, g[u][k]));
            }
        }
    }
}

/// Positions along a chain strictly increase in a topological order.
proof fn lemma_chain_ascends(g: Seq<Seq<nat>>, o: Seq<nat>, p: Seq<nat>)
    requires
        adjacency_closed(g),
        is_topological_order(g, o),
        is_chain(g, p),
        p.len() >= 2,
    ensures
        o.index_of(p[0]) < o.index_of(p[p.len() - 1]),
        o.contains(p[0]),
        o.contains(p[p.len() - 1]),
    decreases p.len(),
{
    let q = p.drop_last();
    let last = p[p.len() - 1];
    let prev = p[p.len() - 2];
    assert(is_edge(g, p[p.len() - 2], p[p.len() - 2 + 1]));
    assert(prev < g.len());
    assert(o.contains(prev));
    assert(last < g.len()) by {
        let k = choose|k: int| 0 <= k < g[prev as int].len() && g[prev as int][k] == last;
        assert(g[prev as int][k] < g.len());
    }
    assert(o.contains(last));
    o.index_of_first_ensures(prev);
    o.index_of_first_ensures(last);
    let a = o.index_of(prev);
    let b = o.index_of(last);
    assert(is_edge(g, o[a], o[b]));
    if p.len() > 2 {
        assert(is_chain(g, q)) by {
            assert forall|i: int| 0 <= i < q.len() - 1 implies #[trigger] is_edge(g, q[i], q[i + 1]) by {
                assert(is_edge(g, p[i], p[i + 1]));
            }
        }
        lemma_chain_ascends(g, o, q);
    }
}

/// A graph with a topological order has no cycle.
pub(crate) proof fn lemma_topological_order_acyclic(g: Seq<Seq<nat>>, o: Seq<nat>)
    requires
        adjacency_closed(g),
        is_topological_order(g, o),
    ensures
        is_acyclic(g),
{
    assert forall|p: Seq<nat>| #[trigger] is_chain(g, p) && p.len() >= 2 implies p[0] != p[p.len() - 1] by {
        lemma_chain_ascends(g, o, p);
    }
}

/// Counting edges over more nodes never gives fewer.
proof fn lemma_edge_count_monotone(g: Seq<Seq<nat>>, m: nat, n: nat)
    requires
        m <= n <= g.len(),
    ensures
        edge_count(g, m) <= edge_count(g, n),
    decreases n - m,
{
    if m < n {
        lemma_edge_count_monotone(g, m, (n - 1) as nat);
    }
}

/// `v` occurs in `s` exactly when `occurrences` counts it at least once.
proof fn lemma_occurrences_positive(s: Seq<nat>, v: nat)
    ensures
        occurrences(s, v) > 0 <==> s.contains(v),
    decreases s.len(),
{
    if s.len() > 0 {
        let p = s.drop_last();
        lemma_occurrences_positive(p, v);
        if p.contains(v) {
            let i = choose|i: int| 0 <= i < p.len() && p[i] == v;
            assert(s[i] == v);
        }
        if s.contains(v) && s.last() != v {
            let i = choose|i: int| 0 <= i < s.len() && s[i] == v;
            assert(p[i] == v);
        }
    }
}

/// `u` is among the sources of edges into `v` from `0..n` exactly when `u` is
/// below `n` and has an edge to `v`.
proof fn lemma_sources_into_members(g: Seq<Seq<nat>>, v: nat, n: nat, u: nat)
    requires
        n <= g.len(),
    ensures
        sources_into(g, v, n).contains(u) <==> u < n && g[u as int].contains(v),
    decreases n,
{
    if n > 0 {
        let m = (n - 1) as nat;
        lemma_sources_into_members(g, v, m, u);
        lemma_occurrences_positive(g[m as int], v);
        let prev = sources_into(g, v, m);
        let tail = Seq::new(occurrences(g[m as int], v), |_i: int| m);
        let all = sources_into(g, v, n);
        assert(all == prev + tail);
        if prev.contains(u) {
            let i = choose|i: int| 0 <= i < prev.len() && prev[i] == u;
            assert(all[i] == u);
        }
        if u == m && g[u as int].contains(v) {
            assert(all[prev.len() as int] == u);
        }
        if all.contains(u) {
            let i = choose|i: int| 0 <= i < all.len() && all[i] == u;
            if i >= prev.len() {
                assert(tail[i - prev.len()] == m);
            } else {
                assert(prev[i] == u);
            }
        }
    }
}

/// Transposing reverses every edge and adds none: `v -> u` is an edge of the
/// transposed graph exactly when `u -> v` is an edge of the graph.
pub proof fn lemma_transpose_reverses_edges(g: Seq<Seq<nat>>, u: nat, v: nat)
    requires
        adjacency_closed(g),
    ensures
        is_edge(transposed(g), v, u) <==> is_edge(g, u, v),
{
    if u < g.len() && g[u as int].contains(v) {
        let k = choose|k: int| 0 <= k < g[u as int].len() && g[u as int][k] == v;
        assert(g[u as int][k] < g.len());
    }
    if v < g.len() {
        lemma_sources_into_members(g, v, g.len(), u);
        assert(transposed(g)[v as int] == sources_into(g, v, g.len()));
    }
}

/// Counting `x` in two sequences one after the other adds the counts.
proof fn lemma_occurrences_append(a: Seq<nat>, b: Seq<nat>, x: nat)
    ensures
        occurrences(a + b, x) == occurrences(a, x) + occurrences(b, x),
    decreases b.len(),
{
    if b.len() == 0 {
        assert(a + b =~= a);
    } else {
        lemma_occurrences_append(a, b.drop_last(), x);
        assert((a + b).drop_last() =~= a + b.drop_last());
        assert((a + b).last() == b.last());
    }
}

/// `c` copies of `m` hold `x` `c` times when `x` is `m`, and never otherwise.
proof fn lemma_occurrences_repeat(c: nat, m: nat, x: nat)
    ensures
        occurrences(Seq::new(c, |_i: int| m), x) == if x == m {
            c
        } else {
            0
        },
    decreases c,
{
    if c > 0 {
        lemma_occurrences_repeat((c - 1) as nat, m, x);
        assert(Seq::new(c, |_i: int| m).drop_last() =~= Seq::new((c - 1) as nat, |_i: int| m));
    }
}

/// A list whose entries all lie below `n` holds no `x` at or above `n`.
proof fn lemma_occurrences_out_of_range(s: Seq<nat>, n: nat, x: nat)
    requires
        forall|k: int| 0 <= k < s.len() ==> #[trigger] s[k] < n,
        x >= n,
    ensures
        occurrences(s, x) == 0,
{
    lemma_occurrences_positive(s, x);
    if s.contains(x) {
        let k = choose|k: int| 0 <= k < s.len() && s[k] == x;
    }
}

/// The sources of the edges into `v` from `0..n` hold `u` once per edge
/// `u -> v`.
proof fn lemma_sources_into_count(g: Seq<Seq<nat>>, v: nat, n: nat, u: nat)
    requires
        n <= g.len(),
    ensures
        occurrences(sources_into(g, v, n), u) == if u < n {
            occurrences(g[u as int], v)
        } else {
            0
        },
    decreases n,
{
    if n > 0 {
        let m = (n - 1) as nat;
        lemma_sources_into_count(g, v, m, u);
        let tail = Seq::new(occurrences(g[m as int], v), |_i: int| m);
        lemma_occurrences_append(sources_into(g, v, m), tail, u);
        lemma_occurrences_repeat(occurrences(g[m as int], v), m, u);
    }
}

/// The edges `(m, s[k])` of one list hold `(u, v)` once per entry `v` of `s`
/// when `u` is `m`, and never otherwise.
proof fn lemma_list_edges_count(m: nat, s: Seq<nat>, u: nat, v: nat)
    ensures
        Seq::new(s.len(), |k: int| (m, s[k])).to_multiset().count((u, v)) == if u == m {
            occurrences(s, v)
        } else {
            0
        },
    decreases s.len(),
{
    broadcast use vstd::seq_lib::group_to_multiset_ensures;

    let e = Seq::new(s.len(), |k: int| (m, s[k]));
    if s.len() == 0 {
        assert(e =~= Seq::<(nat, nat)>::empty());
    } else {
        let p = s.drop_last();
        lemma_list_edges_count(m, p, u, v);
        let ep = Seq::new(p.len(), |k: int| (m, p[k]));
        assert(e =~= ep.push((m, s.last())));
    }
}

/// The edge list of the nodes `0..n` holds `(u, v)` once per edge `u -> v`
/// leaving one of those nodes.
proof fn lemma_edge_list_count(g: Seq<Seq<nat>>, n: nat, u: nat, v: nat)
    requires
        n <= g.len(),
    ensures
        edge_list(g, n).to_multiset().count((u, v)) == if u < n {
            occurrences(g[u as int], v)
        } else {
            0
        },
    decreases n,
{
    broadcast use vstd::multiset::group_multiset_axioms;
    broadcast use vstd::seq_lib::group_to_multiset_ensures;

    if n == 0 {
        assert(edge_list(g, n).to_multiset().len() == 0);
    } else {
        let m = (n - 1) as nat;
        lemma_edge_list_count(g, m, u, v);
        let tail = Seq::new(g[m as int].len(), |k: int| (m, g[m as int][k]));
        assert(edge_list(g, n) == edge_list(g, m) + tail);
        vstd::seq_lib::lemma_multiset_commutative(edge_list(g, m), tail);
        lemma_list_edges_count(m, g[m as int], u, v);
        assert(edge_list(g, n).to_multiset().count((u, v)) == edge_list(g, m).to_multiset().count((u, v))
            + tail.to_multiset().count((u, v)));
    }
}

/// Transposing keeps the number of nodes, and the edges of the transposed graph
/// hold `(v, u)` exactly as often as the edges of the graph hold `(u, v)`.
proof fn lemma_transpose_edge_count(g: Seq<Seq<nat>>, u: nat, v: nat)
    requires
        adjacency_closed(g),
    ensures
        transposed(g).len() == g.len(),
        edge_list(transposed(g), g.len()).to_multiset().count((v, u)) == edge_list(g, g.len()).to_multiset().count(
            (u, v),
        ),
{
    let n = g.len();
    let h = transposed(g);
    lemma_edge_list_count(h, n, v, u);
    lemma_edge_list_count(g, n, u, v);
    if v < n {
        assert(h[v as int] == sources_into(g, v, n));
        lemma_sources_into_count(g, v, n, u);
    } else if u < n {
        assert forall|k: int| 0 <= k < g[u as int].len() implies #[trigger] g[u as int][k] < n by {}
        lemma_occurrences_out_of_range(g[u as int], n, v);
    }
}

/// The transposed graph of a graph whose edges end at nodes has the same property.
pub proof fn lemma_transpose_closed(g: Seq<Seq<nat>>)
    requires
        adjacency_closed(g),
    ensures
        adjacency_closed(transposed(g)),
{
    let h = transposed(g);
    assert forall|v: int, k: int| 0 <= v < h.len() && 0 <= k < h[v].len() implies #[trigger] h[v][k] < h.len() by {
        assert(h[v] == sources_into(g, v as nat, g.len()));
        assert(h[v].contains(h[v][k]));
        lemma_sources_into_members(g, v as nat, g.len(), h[v][k]);
    }
}

/// Transposing twice keeps the number of nodes and how often each edge occurs.
proof fn lemma_transpose_twice_count(g: Seq<Seq<nat>>, u: nat, v: nat)
    requires
        adjacency_closed(g),
    ensures
        transposed(transposed(g)).len() == g.len(),
        edge_list(transposed(transposed(g)), g.len()).to_multiset().count((u, v)) == edge_list(
            g,
            g.len(),
        ).to_multiset().count((u, v)),
{
    lemma_transpose_closed(g);
    lemma_transpose_edge_count(g, u, v);
    lemma_transpose_edge_count(transposed(g), v, u);
}

/// `Graph::count_edges` counts what `Graph::edges` lists: the number of edges
/// leaving the nodes `0..n` (the sum of their list lengths) is the length of
/// their edge list.
pub proof fn lemma_count_edges_matches_edges(g: Seq<Seq<nat>>, n: nat)
    requires
        n <= g.len(),
    ensures
        edge_count(g, n) == edge_list(g, n).len(),
    decreases n,
{
    if n > 0 {
        lemma_count_edges_matches_edges(g, (n - 1) as nat);
    }
}

/// Each edge `(a, b)` of `s` turned into `(b, a)`.
pub open spec fn reversed_edges(s: Seq<(nat, nat)>) -> Seq<(nat, nat)> {
    Seq::new(s.len(), |i: int| (s[i].1, s[i].0))
}

/// Reversing the edges of a list moves the count of `(a, b)` to `(b, a)`.
proof fn lemma_reversed_edges_count(s: Seq<(nat, nat)>, a: nat, b: nat)
    ensures
        reversed_edges(s).to_multiset().count((b, a)) == s.to_multiset().count((a, b)),
    decreases s.len(),
{
    broadcast use vstd::seq_lib::group_to_multiset_ensures;

    if s.len() == 0 {
        assert(reversed_edges(s) =~= Seq::<(nat, nat)>::empty());
    } else {
        let p = s.drop_last();
        lemma_reversed_edges_count(p, a, b);
        assert(reversed_edges(s) =~= reversed_edges(p).push((s.last().1, s.last().0)));
        assert(s =~= p.push(s.last()));
    }
}

/// `Graph::transpose` keeps the number of nodes and reverses every edge with its
/// multiplicity: as a multiset, the edges that `Graph::edges` lists of the
/// transposed graph are those of the graph, each `(a, b)` turned into `(b, a)`.
pub proof fn lemma_transpose_edges(g: Seq<Seq<nat>>)
    requires
        adjacency_closed(g),
    ensures
        transposed(g).len() == g.len(),
        edge_list(transposed(g), g.len()).to_multiset() =~= reversed_edges(edge_list(g, g.len())).to_multiset(),
{
    let h = transposed(g);
    assert forall|e: (nat, nat)| #[trigger] edge_list(h, g.len()).to_multiset().count(e) == reversed_edges(
        edge_list(g, g.len()),
    ).to_multiset().count(e) by {
        lemma_transpose_edge_count(g, e.1, e.0);
        lemma_reversed_edges_count(edge_list(g, g.len()), e.1, e.0);
    }
}

/// Transposing twice keeps the number of nodes and gives back every edge with
/// its multiplicity.
pub proof fn lemma_transpose_twice(g: Seq<Seq<nat>>)
    requires
        adjacency_closed(g),
    ensures
        transposed(transposed(g)).len() == g.len(),
        edge_list(transposed(transposed(g)), g.len()).to_multiset() =~= edge_list(g, g.len()).to_multiset(),
{
    assert forall|e: (nat, nat)| #[trigger] edge_list(transposed(transposed(g)), g.len()).to_multiset().count(e)
        == edge_list(g, g.len()).to_multiset().count(e) by {
        lemma_transpose_twice_count(g, e.0, e.1);
    }
    lemma_transpose_closed(g);
}

/// Edge counts over the nodes `0..m` only read the lists of those nodes.
proof fn lemma_edge_count_same_lists(g1: Seq<Seq<nat>>, g2: Seq<Seq<nat>>, m: nat)
    requires
        forall|i: int| 0 <= i < m ==> #[trigger] g1[i] == g2[i],
    ensures
        edge_count(g1, m) == edge_count(g2, m),
    decreases m,
{
    if m > 0 {
        lemma_edge_count_same_lists(g1, g2, (m - 1) as nat);
        assert(g1[m - 1] == g2[m - 1]);
    }
}

/// Padding with empty lists adds no edges.
proof fn lemma_edge_count_padded(p: Seq<Seq<nat>>, n: nat)
    requires
        p.len() <= n,
    ensures
        edge_count(resize_adjacency(p, n), n) == edge_count(p, p.len()),
    decreases n,
{
    let r = resize_adjacency(p, n);
    if n == p.len() {
        lemma_edge_count_same_lists(r, p, n);
    } else {
        lemma_edge_count_padded(p, (n - 1) as nat);
        lemma_edge_count_same_lists(r, resize_adjacency(p, (n - 1) as nat), (n - 1) as nat);
        assert(r[n - 1] =~= Seq::<nat>::empty());
    }
}

/// Appending one entry to the list of node `i` adds one edge when `i` is among
/// the nodes counted.
proof fn lemma_edge_count_push(g: Seq<Seq<nat>>, i: int, x: nat, m: nat)
    requires
        0 <= i < g.len(),
        m <= g.len(),
    ensures
        edge_count(g.update(i, g[i].push(x)), m) == edge_count(g, m) + if i < m {
            1nat
        } else {
            0nat
        },
    decreases m,
{
    if m > 0 {
        lemma_edge_count_push(g, i, x, (m - 1) as nat);
    }
}

/// The larger end of an edge.
pub open spec fn edge_end(e: (nat, nat)) -> nat {
    if e.0 >= e.1 {
        e.0
    } else {
        e.1
    }
}

/// `Graph::from_edges` keeps every edge it is given, repeats counted, when the
/// larger ends of the edges never decrease along the list (so no resize cuts a
/// list short): the graph then has as many edges as the list.
pub proof fn lemma_from_edges_counts_every_edge(edges: Seq<(nat, nat)>)
    requires
        forall|i: int, j: int| 0 <= i <= j < edges.len() ==> edge_end(#[trigger] edges[i]) <= edge_end(
            #[trigger] edges[j],
        ),
    ensures
        edge_count(edges_adjacency(edges), edges_adjacency(edges).len()) == edges.len(),
        edges.len() > 0 ==> edges_adjacency(edges).len() == edge_end(edges.last()) + 1,
    decreases edges.len(),
{
    if edges.len() > 0 {
        let prev_edges = edges.drop_last();
        assert forall|i: int, j: int| 0 <= i <= j < prev_edges.len() implies edge_end(#[trigger] prev_edges[i])
            <= edge_end(#[trigger] prev_edges[j]) by {
            assert(prev_edges[i] == edges[i] && prev_edges[j] == edges[j]);
        }
        lemma_from_edges_counts_every_edge(prev_edges);
        let prev = edges_adjacency(prev_edges);
        let (from, to) = edges.last();
        let n = edge_end(edges.last()) + 1;
        if prev_edges.len() > 0 {
            assert(prev_edges.last() == edges[edges.len() - 2]);
            assert(edge_end(edges[edges.len() - 2]) <= edge_end(edges[edges.len() - 1]));
        } else {
            assert(prev =~= Seq::<Seq<nat>>::empty());
        }
        let resized = resize_adjacency(prev, n);
        assert(edges_adjacency(edges) == resized.update(from as int, resized[from as int].push(to)));
        lemma_edge_count_padded(prev, n);
        lemma_edge_count_push(resized, from as int, to, n);
    }
}

} // verus!
