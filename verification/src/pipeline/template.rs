//! Planning a pipeline: checking a builder's layout, ordering its nodes and
//! assigning buffers to its connections, and the runnable pipeline built from
//! such a plan.

use vstd::prelude::*;

use crate::err::AudioError;
use crate::id::{IdContainer, IncrementalId, NumericId};
use crate::pipeline::allocator::{issued_before, placeholder_position, BufferIdAllocator};
use crate::pipeline::graph::{
    adjacency_positions, edge_positions, edges_adjacency, is_acyclic, is_node_permutation,
    is_topological_order, is_well_formed, node_positions, Graph,
};
use crate::pipeline::layout::{
    connection_edges, first_mismatch, input_sources, inputs_in_range, layout_graph,
    lemma_connection_edges_monotone, lemma_connection_edges_shape, lemma_edges_adjacency_entries,
    lemma_edges_adjacency_well_formed, lemma_occurrences_bound, lemma_use_count_bound,
    output_indices_in_range, outputs_match, outputs_used, use_count,
    connection_count,
};
use crate::node::SamplingContext;
use crate::pipeline::wiring::{
    connections_kept, end_event, is_connection, lemma_all_events_sorted, lemma_event_count,
    lemma_events_complete, lemma_events_identify, lemma_events_next_node, lemma_events_push,
    lemma_events_empty, lemma_connection_in_graph, lemma_sweep_done,
    lemma_sweep_empty, lemma_sweep_end, lemma_sweep_start, lemma_turns_of_order, listed, output_buffer,
    output_of, outputs_read_once, fresh_ids_in_order, fresh_state, lemma_fresh_done, lemma_fresh_empty,
    lemma_fresh_end, lemma_fresh_start, order_turns, slots_written, source_of, start_event, peak_live, sweep_context, sweep_state,
    turn_context, events_built, unaliased, wired,
};
use crate::pipeline::slots::{slots_from_elem, slots_get, slots_set};
use crate::pipeline::{
    declared_outputs, node_id_of, node_inputs, node_name_of, BufferAssignment, BufferId, NodeId,
    PipelineAudioNode, PipelineBuilder, PipelineOpts,
};

verus! {

/// A point in time of the buffer sweep, as a tuple ordered the way std orders
/// tuples (lexicographically): `(turn, 0, source, reader, output, input)` is the
/// start of a connection, `(turn, 1, source, output, 0, 0)` the end of one.
pub(crate) type Event = (usize, usize, usize, usize, usize, usize);

/// `a` comes no later than `b` in the lexicographic order of tuples.
pub open spec fn event_le(a: Event, b: Event) -> bool {
    ||| a.0 < b.0
    ||| a.0 == b.0 && a.1 < b.1
    ||| a.0 == b.0 && a.1 == b.1 && a.2 < b.2
    ||| a.0 == b.0 && a.1 == b.1 && a.2 == b.2 && a.3 < b.3
    ||| a.0 == b.0 && a.1 == b.1 && a.2 == b.2 && a.3 == b.3 && a.4 < b.4
    ||| a.0 == b.0 && a.1 == b.1 && a.2 == b.2 && a.3 == b.3 && a.4 == b.4 && a.5 <= b.5
}

/// The events are in ascending order.
pub open spec fn events_sorted(s: Seq<Event>) -> bool {
    forall|i: int, j: int| 0 <= i <= j < s.len() ==> event_le(#[trigger] s[i], #[trigger] s[j])
}

/// `slice::sort_unstable` on event tuples: the same events, in ascending order.
#[verifier::external_body]
fn sort_events(v: &mut Vec<Event>)
    ensures
        final(v)@.to_multiset() == old(v)@.to_multiset(),
        events_sorted(final(v)@),
{
    v.sort_unstable()
}

/// An event names nodes of the layout and slots that their assignments have.
pub open spec fn event_valid(nodes: Seq<PipelineAudioNode>, e: Event) -> bool {
    &&& e.2 < nodes.len()
    &&& if e.1 == 0 {
        &&& e.3 < nodes.len()
        &&& e.4 < declared_outputs(nodes[e.2 as int])
        &&& e.5 < node_inputs(nodes[e.3 as int]).len()
    } else {
        e.3 < declared_outputs(nodes[e.2 as int])
    }
}

/// The assignments have one entry per node, with one slot per input and per
/// declared output.
pub open spec fn assignment_shape(nodes: Seq<PipelineAudioNode>, a: Seq<BufferAssignment>) -> bool {
    &&& a.len() == nodes.len()
    &&& forall|v: int|
        0 <= v < nodes.len() ==> (#[trigger] a[v]).input_slots().len() == node_inputs(nodes[v]).len()
            && a[v].output_slots().len() == declared_outputs(nodes[v])
}

/// Every slot holds the placeholder or a buffer below `count`.
pub open spec fn slots_bounded(a: Seq<BufferAssignment>, count: nat) -> bool {
    &&& forall|v: int, k: int|
        0 <= v < a.len() && 0 <= k < a[v].input_slots().len() ==> issued_before(
            #[trigger] a[v].input_slots()[k],
            count,
        )
    &&& forall|v: int, k: int|
        0 <= v < a.len() && 0 <= k < a[v].output_slots().len() ==> issued_before(
            #[trigger] a[v].output_slots()[k],
            count,
        )
}

struct AssignmentResult {
    assignments: Vec<BufferAssignment>,
    num_buffers: usize,
}

/// Assigns a buffer to every connection.
///
/// Each connection is live from its source's turn in the topological order to
/// its reader's turn; the connections are swept in time order (starts before ends
/// at the same turn), a start takes a buffer from the allocator and writes it into
/// the source's output slot and the reader's input slot, an end gives the buffer
/// of the source's output slot back.
///
/// When the graph has no cycle (so the order is topological), every connection
/// is one of its edges, no output is read twice, and the layout is small enough
/// for the buffer ids, every input reads
/// the buffer its source writes, connections live at once never share a buffer,
/// no more buffers are used than connections are live at the busiest turn, and
/// a start that finds no freed buffer takes the lowest id not handed out yet.
#[verifier::rlimit(60)]
fn assign_buffers(
    graph: &Graph,
    topological_order: &Vec<NodeId>,
    num_outputs: &Vec<usize>,
    nodes: &IdContainer<PipelineAudioNode>,
) -> (r: AssignmentResult)
    requires
        is_well_formed(graph@),
        is_node_permutation(graph@.len(), node_positions(topological_order@)),
        num_outputs@.len() == nodes@.len(),
        forall|u: int| 0 <= u < nodes@.len() ==> #[trigger] num_outputs@[u] == declared_outputs(nodes@[u]),
        inputs_in_range(nodes@),
        output_indices_in_range(nodes@),
        graph@ == layout_graph(nodes@),
        nodes@.len() < usize::MAX,
        is_acyclic(graph@) ==> is_topological_order(graph@, node_positions(topological_order@)),
    ensures
        assignment_shape(nodes@, r.assignments@),
        slots_bounded(r.assignments@, r.num_buffers as nat),
        is_acyclic(graph@) && connections_kept(nodes@) && outputs_read_once(nodes@) && 2 * connection_count(
            nodes@,
        ) < u32::MAX ==> {
            &&& wired(nodes@, r.assignments@, r.num_buffers as nat)
            &&& unaliased(nodes@, node_positions(topological_order@), r.assignments@)
            &&& peak_live(nodes@, node_positions(topological_order@), r.num_buffers as nat)
            &&& fresh_ids_in_order(nodes@, order_turns(node_positions(topological_order@)), r.assignments@)
        },
{
    let ghost g = graph@;
    let ghost ns = nodes@;
    let ghost o = node_positions(topological_order@);
    let ghost h = is_acyclic(g) && connections_kept(ns) && outputs_read_once(ns) && 2 * connection_count(ns)
        < u32::MAX;
    let gl = graph.len();
    let n = nodes.len();
    assert(gl == n);
    let mut node_to_topo_index: Vec<usize> = Vec::new();
    for j in 0..gl
        invariant
            node_to_topo_index@.len() == j,
    {
        node_to_topo_index.push(0);
    }
    let tl = topological_order.len();
    for index in 0..tl
        invariant
            tl == o.len(),
            o == node_positions(topological_order@),
            is_node_permutation(gl as nat, o),
            node_to_topo_index@.len() == gl,
            forall|t: int| 0 <= t < index ==> #[trigger] node_to_topo_index@[o[t] as int] == t,
    {
        let node = topological_order[index];
        assert(o[index as int] == node.position());
        let ghost before = node_to_topo_index@;
        node_to_topo_index.set(node.as_index(), index);
        proof {
            assert forall|t: int| 0 <= t < index + 1 implies #[trigger] node_to_topo_index@[o[t] as int] == t by {
                if t < index {
                    assert(o[t] != o[index as int]);
                    assert(node_to_topo_index@[o[t] as int] == before[o[t] as int]);
                }
            }
        }
    }
    proof {
        if h {
            lemma_turns_of_order(ns, g, o, node_to_topo_index@);
        }
        lemma_events_empty(ns, node_to_topo_index@);
    }
    let ghost tn = node_to_topo_index@;
    let mut intervals: Vec<Event> = Vec::new();
    for v in 0..n
        invariant
            g == graph@,
            ns == nodes@,
            n == ns.len(),
            gl == n,
            node_to_topo_index@.len() == gl,
            tn == node_to_topo_index@,
            inputs_in_range(ns),
            output_indices_in_range(ns),
            forall|i: int| 0 <= i < intervals@.len() ==> event_valid(ns, #[trigger] intervals@[i]),
            h ==> turn_context(ns, g, tn),
            h ==> events_built(ns, tn, intervals@, v as int, 0),
    {
        let inputs = nodes[v].inputs();
        let m = inputs.len();
        for k in 0..m
            invariant
                g == graph@,
                ns == nodes@,
                n == ns.len(),
                gl == n,
                v < n,
                node_to_topo_index@.len() == gl,
                tn == node_to_topo_index@,
                inputs@ == node_inputs(ns[v as int]),
                m == inputs@.len(),
                inputs_in_range(ns),
                output_indices_in_range(ns),
                forall|i: int| 0 <= i < intervals@.len() ==> event_valid(ns, #[trigger] intervals@[i]),
                h ==> turn_context(ns, g, tn),
                h ==> events_built(ns, tn, intervals@, v as int, k as int),
        {
            let src = inputs[k].node.as_index();
            let output_index = inputs[k].output_index;
            assert(node_inputs(ns[v as int])[k as int] == inputs@[k as int]);
            assert(src < n);
            let ghost before = intervals@;
            intervals.push((node_to_topo_index[src], 0, src, v, output_index as usize, k));
            intervals.push((node_to_topo_index[v], 1, src, output_index as usize, 0, 0));
            proof {
                assert forall|i: int| 0 <= i < intervals@.len() implies event_valid(ns, #[trigger] intervals@[i]) by {
                    if i < before.len() {
                        assert(intervals@[i] == before[i]);
                    }
                }
                if h {
                    let vi = v as int;
                    let ki = k as int;
                    assert(input_sources(ns[vi])[ki] == inputs@[ki].node.position());
                    assert(source_of(ns, vi, ki) == src);
                    assert(start_event(ns, tn, vi, ki) == (tn[src as int], 0usize, src, v, output_index as usize, k));
                    assert(end_event(ns, tn, vi, ki) == (tn[vi], 1usize, src, output_index as usize, 0usize, 0usize));
                    lemma_events_push(ns, g, tn, before, vi, ki);
                    assert(intervals@ == before.push(start_event(ns, tn, vi, ki)).push(end_event(ns, tn, vi, ki)));
                }
            }
        }
        proof {
            if h {
                lemma_events_next_node(ns, tn, intervals@, v as int);
            }
        }
    }
    proof {
        if h {
            lemma_events_complete(ns, tn, intervals@);
        }
    }
    let ghost unsorted = intervals@;
    sort_events(&mut intervals);
    proof {
        broadcast use vstd::seq_lib::group_to_multiset_ensures;

        assert forall|i: int| 0 <= i < intervals@.len() implies event_valid(ns, #[trigger] intervals@[i]) by {
            assert(intervals@.to_multiset().count(intervals@[i]) > 0);
            assert(unsorted.contains(intervals@[i]));
            let k = choose|k: int| 0 <= k < unsorted.len() && unsorted[k] == intervals@[i];
        }
        if h {
            lemma_all_events_sorted(ns, tn, unsorted, intervals@);
            lemma_event_count(ns, tn, intervals@);
        }
    }
    let mut buffers: Vec<BufferAssignment> = Vec::new();
    for id in 0..n
        invariant
            n == ns.len(),
            ns == nodes@,
            num_outputs@.len() == ns.len(),
            forall|u: int| 0 <= u < ns.len() ==> #[trigger] num_outputs@[u] == declared_outputs(ns[u]),
            buffers@.len() == id,
            forall|v: int| 0 <= v < id ==> #[trigger] node_inputs(ns[v]).len() <= usize::MAX,
            forall|v: int|
                0 <= v < id ==> (#[trigger] buffers@[v]).input_slots().len() == node_inputs(ns[v]).len()
                    && buffers@[v].output_slots().len() == declared_outputs(ns[v]),
            forall|v: int, k: int|
                0 <= v < id && 0 <= k < buffers@[v].input_slots().len() ==> #[trigger] buffers@[v].input_slots()[k]
                    == placeholder_position(),
            forall|v: int, k: int|
                0 <= v < id && 0 <= k < buffers@[v].output_slots().len() ==> #[trigger] buffers@[v].output_slots()[k]
                    == placeholder_position(),
    {
        let n_inputs = nodes[id].inputs().len();
        let n_outputs = num_outputs[id];
        let dummy_assignment = BufferAssignment {
            inputs: slots_from_elem(BufferId::placeholder(), n_inputs),
            outputs: slots_from_elem(BufferId::placeholder(), n_outputs),
        };
        let ghost before = buffers@;
        buffers.push(dummy_assignment);
        proof {
            assert forall|v: int, k: int|
                0 <= v < id + 1 && 0 <= k < buffers@[v].input_slots().len() implies #[trigger] buffers@[v].input_slots()[k]
                == placeholder_position() by {
                if v < id {
                    assert(buffers@[v] == before[v]);
                }
            }
            assert forall|v: int, k: int|
                0 <= v < id + 1 && 0 <= k < buffers@[v].output_slots().len() implies #[trigger] buffers@[v].output_slots()[k]
                == placeholder_position() by {
                if v < id {
                    assert(buffers@[v] == before[v]);
                }
            }
        }
    }
    let mut buf_alloc = BufferIdAllocator::new();
    proof {
        if h {
            lemma_sweep_empty(ns, g, tn, intervals@, buffers@);
            lemma_fresh_empty(ns, g, tn, intervals@, buffers@);
            assert(buf_alloc.unused_positions().to_set() =~= Set::<nat>::empty());
        }
    }
    let m = intervals.len();
    for i in 0..m
        invariant
            ns == nodes@,
            g == graph@,
            m == intervals@.len(),
            forall|j: int| 0 <= j < intervals@.len() ==> event_valid(ns, #[trigger] intervals@[j]),
            buf_alloc.wf(),
            assignment_shape(ns, buffers@),
            slots_bounded(buffers@, buf_alloc.next_new()),
            forall|v: int| 0 <= v < ns.len() ==> #[trigger] node_inputs(ns[v]).len() <= usize::MAX,
            h ==> sweep_context(ns, g, tn, intervals@),
            h ==> intervals@.len() <= 2 * connection_count(ns),
            h ==> 2 * connection_count(ns) < u32::MAX,
            h ==> sweep_state(
                ns,
                tn,
                intervals@,
                i as int,
                buffers@,
                buf_alloc.unused_positions().to_set(),
                buf_alloc.next_new(),
            ),
            h ==> fresh_state(
                ns,
                tn,
                intervals@,
                i as int,
                buffers@,
                buf_alloc.unused_positions().to_set(),
                buf_alloc.next_new(),
            ),
    {
        let ev = intervals[i];
        assert(event_valid(ns, intervals@[i as int]));
        let ghost free0 = buf_alloc.unused_positions().to_set();
        let ghost next0 = buf_alloc.next_new();
        if ev.1 == 0 {
            let ghost before = buffers@;
            let ghost old_next = buf_alloc.next_new();
            let ghost old_unused = buf_alloc.unused_positions();
            let buf_id = buf_alloc.allocate();
            slots_set(&mut buffers[ev.2].outputs, ev.4, buf_id);
            let ghost middle = buffers@;
            slots_set(&mut buffers[ev.3].inputs, ev.5, buf_id);
            proof {
                let f = buf_alloc.next_new();
                assert(middle[ev.2 as int].output_slots() == before[ev.2 as int].output_slots().update(
                    ev.4 as int,
                    buf_id.position(),
                ));
                assert(middle[ev.2 as int].inputs == before[ev.2 as int].inputs);
                assert forall|v: int| 0 <= v < ns.len() && v != ev.2 implies #[trigger] middle[v] == before[v] by {}
                assert(buffers@[ev.3 as int].input_slots() == middle[ev.3 as int].input_slots().update(
                    ev.5 as int,
                    buf_id.position(),
                ));
                assert(buffers@[ev.3 as int].outputs == middle[ev.3 as int].outputs);
                assert forall|v: int| 0 <= v < ns.len() && v != ev.3 implies #[trigger] buffers@[v] == middle[v] by {}
                assert(issued_before(buf_id.position(), f));
                assert forall|v: int, k: int|
                    0 <= v < buffers@.len() && 0 <= k < buffers@[v].input_slots().len() implies issued_before(
                    #[trigger] buffers@[v].input_slots()[k],
                    f,
                ) by {
                    if v == ev.3 && k == ev.5 {
                    } else {
                        assert(buffers@[v].input_slots()[k] == before[v].input_slots()[k]);
                        assert(issued_before(before[v].input_slots()[k], old_next));
                    }
                }
                assert forall|v: int, k: int|
                    0 <= v < buffers@.len() && 0 <= k < buffers@[v].output_slots().len() implies issued_before(
                    #[trigger] buffers@[v].output_slots()[k],
                    f,
                ) by {
                    if v == ev.2 && k == ev.4 {
                    } else {
                        assert(buffers@[v].output_slots()[k] == before[v].output_slots()[k]);
                        assert(issued_before(before[v].output_slots()[k], old_next));
                    }
                }
                assert(slots_bounded(buffers@, f));
                if h {
                    assert(intervals@.contains(ev));
                    let (v, k) = choose|v: int, k: int|
                        is_connection(ns, v, k) && (ev == start_event(ns, tn, v, k) || ev == end_event(ns, tn, v, k));
                    assert(listed(ns, v, k));
                    lemma_events_identify(ns, g, tn, v, k, v, k);
                    assert(ev == start_event(ns, tn, v, k));
                    let src = source_of(ns, v, k) as int;
                    let out = output_of(ns, v, k) as int;
                    lemma_connection_in_graph(ns, v, k);
                    assert(ev.4 == out);
                    assert(ev.2 == src);
                    assert(ev.3 == v);
                    assert(node_inputs(ns[v]).len() <= usize::MAX);
                    assert(ev.5 == k);
                    assert(slots_written(before, buffers@, v, k, src, out, buf_id.position())) by {
                        assert forall|w: int| 0 <= w < before.len() implies (#[trigger] buffers@[w]).input_slots()
                            == if w == v {
                            before[w].input_slots().update(k, buf_id.position())
                        } else {
                            before[w].input_slots()
                        } by {
                            if w != src {
                                assert(middle[w] == before[w]);
                            }
                            if w != v {
                                assert(buffers@[w] == middle[w]);
                            }
                        }
                        assert forall|w: int| 0 <= w < before.len() implies (#[trigger] buffers@[w]).output_slots()
                            == if w == src {
                            before[w].output_slots().update(out, buf_id.position())
                        } else {
                            before[w].output_slots()
                        } by {
                            if w != src {
                                assert(middle[w] == before[w]);
                            }
                            if w != v {
                                assert(buffers@[w] == middle[w]);
                            }
                        }
                    }
                    if old_unused.len() == 0 {
                        assert(old_unused.to_set() =~= Set::<nat>::empty());
                        assert(buf_alloc.unused_positions().to_set() =~= Set::<nat>::empty());
                    } else {
                        assert(old_unused.to_set().contains(buf_id.position()));
                    }
                    lemma_sweep_start(
                        ns,
                        g,
                        tn,
                        intervals@,
                        i as int,
                        before,
                        buffers@,
                        free0,
                        buf_alloc.unused_positions().to_set(),
                        next0,
                        buf_alloc.next_new(),
                        v,
                        k,
                        buf_id.position(),
                    );
                    lemma_fresh_start(
                        ns,
                        g,
                        tn,
                        intervals@,
                        i as int,
                        before,
                        buffers@,
                        free0,
                        buf_alloc.unused_positions().to_set(),
                        next0,
                        buf_alloc.next_new(),
                        v,
                        k,
                        buf_id.position(),
                    );
                }
            }
        } else {
            let buf_id = slots_get(&buffers[ev.2].outputs, ev.3);
            assert(issued_before(buffers@[ev.2 as int].output_slots()[ev.3 as int], buf_alloc.next_new()));
            buf_alloc.free(buf_id);
            proof {
                if h {
                    assert(intervals@.contains(ev));
                    let (v, k) = choose|v: int, k: int|
                        is_connection(ns, v, k) && (ev == start_event(ns, tn, v, k) || ev == end_event(ns, tn, v, k));
                    assert(listed(ns, v, k));
                    lemma_events_identify(ns, g, tn, v, k, v, k);
                    assert(ev == end_event(ns, tn, v, k));
                    assert(buf_id.position() == output_buffer(ns, buffers@, v, k));
                    lemma_sweep_end(
                        ns,
                        g,
                        tn,
                        intervals@,
                        i as int,
                        buffers@,
                        free0,
                        buf_alloc.unused_positions().to_set(),
                        next0,
                        v,
                        k,
                        buf_id.position(),
                    );
                    lemma_fresh_end(
                        ns,
                        g,
                        tn,
                        intervals@,
                        i as int,
                        buffers@,
                        free0,
                        buf_alloc.unused_positions().to_set(),
                        next0,
                        v,
                        k,
                    );
                }
            }
        }
    }
    let num_buffers = buf_alloc.issued();
    proof {
        if h {
            lemma_sweep_done(
                ns,
                g,
                tn,
                intervals@,
                buffers@,
                buf_alloc.unused_positions().to_set(),
                buf_alloc.next_new(),
                o,
            );
            lemma_fresh_done(
                ns,
                g,
                tn,
                intervals@,
                buffers@,
                buf_alloc.unused_positions().to_set(),
                buf_alloc.next_new(),
            );
            assert(order_turns(o) =~= tn);
        }
    }
    AssignmentResult { assignments: buffers, num_buffers }
}

/// What checking and planning the layout `nodes` with options `opts` gives: the
/// first node read from other than as often as it declared outputs makes it fail
/// with `MismatchedChannels`; otherwise the template holds the layout, the order
/// of a depth-first search over the connections, naming every node once (a
/// topological one when they form no cycle), and an assignment with a slot per
/// input and declared output, each holding the placeholder or a buffer below the
/// buffer count. When the layout graph has no cycle and holds every connection
/// (both hold when every node reads only from nodes added before it) and no
/// output is read twice, every input reads the buffer its source writes that output into, connections live
/// at the same time use different buffers, the buffer count is the greatest
/// number of connections live at one turn, and a connection that starts before
/// any buffer is given back takes the lowest id not handed out yet.
pub open spec fn planned_from(
    nodes: Seq<PipelineAudioNode>,
    opts: PipelineOpts,
    r: Result<PipelineTemplate, AudioError>,
) -> bool {
    &&& r is Err <==> !outputs_match(nodes)
    &&& r matches Err(e) ==> exists|i: int|
        first_mismatch(nodes, i) && e == (AudioError::MismatchedChannels {
            node_name: node_name_of(nodes[i]),
            got: use_count(nodes, i as nat, nodes.len()) as usize,
            expected: declared_outputs(nodes[i]) as usize,
        })
    &&& r matches Ok(t) ==> {
        &&& t.wf()
        &&& t.layout() == nodes
        &&& t.options() == opts
        &&& is_node_permutation(nodes.len(), t.order())
        &&& is_acyclic(layout_graph(nodes)) ==> is_topological_order(layout_graph(nodes), t.order())
        &&& assignment_shape(nodes, t.assignments())
        &&& slots_bounded(t.assignments(), t.buffer_count())
        &&& is_acyclic(layout_graph(nodes)) && connections_kept(nodes) && outputs_read_once(nodes) && 2
            * connection_count(nodes) < u32::MAX ==> {
            &&& wired(nodes, t.assignments(), t.buffer_count())
            &&& unaliased(nodes, t.order(), t.assignments())
            &&& peak_live(nodes, t.order(), t.buffer_count())
            &&& fresh_ids_in_order(nodes, order_turns(t.order()), t.assignments())
        }
    }
}

/// What constructing a pipeline from template `t` gives: the nodes in the order
/// they run, for every node id its place in that order (`usize::MAX` for nodes
/// outside the order), and the template's options and buffers, at offset 0.
pub open spec fn constructed_from(t: PipelineTemplate, p: Pipeline) -> bool {
    &&& p.options() == t.options()
    &&& p.running_nodes() == Seq::new(t.order().len(), |i: int| t.layout()[t.order()[i] as int])
    &&& p.index_map().len() == t.layout().len()
    &&& forall|i: int| 0 <= i < t.order().len() ==> #[trigger] p.index_map()[t.order()[i] as int] == i
    &&& forall|q: int|
        0 <= q < t.layout().len() && !t.order().contains(q as nat) ==> #[trigger] p.index_map()[q]
            == usize::MAX
    &&& p.assignments() == t.assignments()
    &&& p.buffer_count() == t.buffer_count()
    &&& p.offset() == 0
}

/// A pipeline layout that has been checked: every node is read from as often as
/// it declared outputs. It holds the order in which the nodes run and the
/// buffers their inputs and outputs use, and can be turned into a [`Pipeline`]
/// with different [`PipelineOpts`].
#[derive(Debug, Clone)]
pub struct PipelineTemplate {
    pub(crate) opts: PipelineOpts,
    pub(crate) topological_order: Vec<NodeId>,
    pub(crate) nodes: IdContainer<PipelineAudioNode>,
    pub(crate) buffer_assignments: Vec<BufferAssignment>,
    pub(crate) num_buffers: usize,
}

impl PipelineTemplate {
    /// Node ids match their indices, the order names distinct nodes, and every
    /// node has an assignment.
    pub closed spec fn wf(&self) -> bool {
        &&& forall|i: int|
            0 <= i < self.nodes@.len() ==> (#[trigger] node_id_of(self.nodes@[i])).position() == i
        &&& node_positions(self.topological_order@).no_duplicates()
        &&& forall|i: int|
            0 <= i < self.topological_order@.len() ==> (#[trigger] self.topological_order@[i]).position()
                < self.nodes@.len()
        &&& self.buffer_assignments@.len() == self.nodes@.len()
    }

    pub closed spec fn options(&self) -> PipelineOpts {
        self.opts
    }

    /// The positions of the nodes in the order they run.
    pub closed spec fn order(&self) -> Seq<nat> {
        node_positions(self.topological_order@)
    }

    /// The nodes, by id.
    pub closed spec fn layout(&self) -> Seq<PipelineAudioNode> {
        self.nodes@
    }

    /// The buffer assignment of every node, by id.
    pub closed spec fn assignments(&self) -> Seq<BufferAssignment> {
        self.buffer_assignments@
    }

    /// The number of buffers the assignments use.
    pub closed spec fn buffer_count(&self) -> nat {
        self.num_buffers as nat
    }

    /// Checks a builder's layout and plans its execution.
    ///
    /// Fails with `MismatchedChannels` for the first node that is not read from
    /// exactly as often as it declared outputs. Otherwise orders the nodes by a
    /// depth-first search over the connections (each node before its readers when
    /// the connections form no cycle) and assigns the buffers.
    pub fn try_from_builder(builder: PipelineBuilder) -> (r: Result<Self, AudioError>)
        requires
            inputs_in_range(builder@),
            outputs_match(builder@) ==> output_indices_in_range(builder@),
            connection_count(builder@) < usize::MAX,
        ensures
            planned_from(builder@, builder.options(), r),
    {
        proof {
            use_type_invariant(&builder);
            PipelineBuilder::lemma_fields(&builder);
        }
        let ghost ns = builder@;
        let n = builder.nodes.len();
        let mut edges: Vec<(NodeId, NodeId)> = Vec::new();
        let mut num_outputs: Vec<usize> = Vec::new();
        for j in 0..n
            invariant
                num_outputs@.len() == j,
                forall|u: int| 0 <= u < j ==> #[trigger] num_outputs@[u] == 0,
        {
            num_outputs.push(0);
        }
        proof {
            assert forall|u: int| 0 <= u < n implies #[trigger] num_outputs@[u] == use_count(ns, u as nat, 0) by {}
            assert(edge_positions(edges@) =~= connection_edges(ns, 0));
        }
        for i in 0..n
            invariant
                ns == builder@,
                ns == builder.nodes@,
                n == ns.len(),
                n <= crate::pipeline::builder::node_limit(),
                inputs_in_range(ns),
                connection_count(ns) < usize::MAX,
                num_outputs@.len() == n,
                edge_positions(edges@) == connection_edges(ns, i as nat),
                forall|u: int| 0 <= u < n ==> #[trigger] num_outputs@[u] == use_count(ns, u as nat, i as nat),
        {
            let id = NodeId::from_index(i);
            let node = builder.nodes.get(i).unwrap();
            let ins = node.inputs();
            let m = ins.len();
            let ghost base = edges@;
            let ghost srcs = input_sources(ns[i as int]);
            proof {
                lemma_connection_edges_monotone(ns, (i + 1) as nat, n as nat);
                assert(connection_edges(ns, (i + 1) as nat) == connection_edges(ns, i as nat) + Seq::new(
                    srcs.len(),
                    |k: int| (srcs[k], i as nat),
                ));
            }
            for k in 0..m
                invariant
                    ns == builder@,
                    ns == builder.nodes@,
                    n == ns.len(),
                    i < n,
                    inputs_in_range(ns),
                    m == srcs.len(),
                    srcs == input_sources(ns[i as int]),
                    ins@ == node_inputs(ns[i as int]),
                    id.position() == i,
                    num_outputs@.len() == n,
                    base == edges@.subrange(0, base.len() as int),
                    edge_positions(base) == connection_edges(ns, i as nat),
                    edges@.len() == base.len() + k,
                    forall|j: int| 0 <= j < k ==> #[trigger] edge_positions(edges@)[base.len() + j] == (srcs[j], i as nat),
                    base.len() + m <= connection_count(ns),
                    connection_count(ns) < usize::MAX,
                    forall|u: int|
                        0 <= u < n ==> #[trigger] num_outputs@[u] == use_count(ns, u as nat, i as nat)
                            + crate::pipeline::graph::occurrences(srcs.take(k as int), u as nat),
            {
                let out = ins[k];
                let src = out.node.as_index();
                assert(srcs[k as int] == src);
                assert(src < n);
                proof {
                    lemma_use_count_bound(ns, src as nat, i as nat);
                    lemma_occurrences_bound(srcs.take(k as int), src as nat);
                }
                num_outputs.set(src, num_outputs[src] + 1);
                let ghost before_push = edges@;
                edges.push((out.node, id));
                proof {
                    assert(edge_positions(edges@)[base.len() + k] == (srcs[k as int], i as nat));
                    assert forall|j: int| 0 <= j < k + 1 implies #[trigger] edge_positions(edges@)[base.len() + j]
                        == (srcs[j], i as nat) by {
                        if j < k {
                            assert(edges@[base.len() + j] == before_push[base.len() + j]);
                            assert(edge_positions(before_push)[base.len() + j] == (srcs[j], i as nat));
                        }
                    }
                    assert(srcs.take(k + 1).drop_last() =~= srcs.take(k as int));
                    assert(edges@.subrange(0, base.len() as int) =~= base);
                }
            }
            proof {
                assert(srcs.take(m as int) =~= srcs);
                assert(edge_positions(edges@) =~= connection_edges(ns, (i + 1) as nat)) by {
                    assert forall|j: int| 0 <= j < edges@.len() implies #[trigger] edge_positions(edges@)[j]
                        == connection_edges(ns, (i + 1) as nat)[j] by {
                        if j < base.len() {
                            assert(edges@[j] == base[j]);
                            assert(edge_positions(base)[j] == connection_edges(ns, i as nat)[j]);
                        } else {
                            assert(edge_positions(edges@)[base.len() + (j - base.len())] == (
                                srcs[j - base.len()],
                                i as nat,
                            ));
                        }
                    }
                }
            }
        }
        for i in 0..n
            invariant
                ns == builder@,
                ns == builder.nodes@,
                n == ns.len(),
                num_outputs@.len() == n,
                forall|u: int| 0 <= u < n ==> #[trigger] num_outputs@[u] == use_count(ns, u as nat, n as nat),
                forall|j: int| 0 <= j < i ==> #[trigger] outputs_used(ns, j),
        {
            let node = builder.nodes.get(i).unwrap();
            let expected_outputs = node.num_outputs();
            if expected_outputs != num_outputs[i] {
                let err = AudioError::MismatchedChannels {
                    node_name: node.name().clone(),
                    got: num_outputs[i],
                    expected: expected_outputs,
                };
                proof {
                    assert(first_mismatch(ns, i as int));
                }
                return Err(err);
            }
        }
        proof {
            assert forall|u: int| 0 <= u < n implies #[trigger] outputs_used(ns, u) by {}
            assert forall|u: int| 0 <= u < n implies #[trigger] num_outputs@[u] == declared_outputs(ns[u]) by {
                assert(outputs_used(ns, u));
            }
            assert(edge_positions(edges@) == connection_edges(ns, n as nat));
            lemma_connection_edges_shape(ns, n as nat);
            let ce = connection_edges(ns, n as nat);
            assert forall|j: int| 0 <= j < ce.len() implies (#[trigger] ce[j]).0 < n && ce[j].1 < n by {
                let e = ce[j];
                let k = choose|k: int|
                    0 <= k < node_inputs(ns[e.1 as int]).len() && input_sources(ns[e.1 as int])[k] == e.0;
                assert(node_inputs(ns[e.1 as int])[k].node.position() < n);
            }
            lemma_edges_adjacency_well_formed(ce, n as nat);
            lemma_edges_adjacency_entries(ce);
        }
        let built = Graph::from_edges(edges);
        let ghost g0 = built@;
        // Nodes that no connection touches still get a (childless) place in the graph.
        let mut adj = built.into_adjacency();
        while adj.len() < n
            invariant
                adjacency_positions(adj@).len() == adj@.len(),
                g0.len() <= adj@.len() <= n,
                forall|u: int| 0 <= u < adj@.len() ==> #[trigger] adjacency_positions(adj@)[u] == if u < g0.len() {
                    g0[u]
                } else {
                    Seq::<nat>::empty()
                },
            decreases n - adj@.len(),
        {
            let ghost before = adj@;
            adj.push(Vec::new());
            proof {
                assert forall|u: int| 0 <= u < adj@.len() implies #[trigger] adjacency_positions(adj@)[u] == if u
                    < g0.len() {
                    g0[u]
                } else {
                    Seq::<nat>::empty()
                } by {
                    if u < before.len() {
                        assert(adj@[u] == before[u]);
                        assert(adjacency_positions(before)[u] == node_positions(before[u]@));
                    } else {
                        assert(node_positions(adj@[u]@) =~= Seq::<nat>::empty());
                    }
                }
            }
        }
        let graph = Graph::from_adjacency(adj);
        proof {
            let g = graph@;
            let ce = connection_edges(ns, n as nat);
            assert(g0 == edges_adjacency(ce));
            assert(g =~= layout_graph(ns));
            assert(g.len() == n);
            assert forall|u: int, k: int| 0 <= u < g.len() && 0 <= k < g[u].len() implies #[trigger] g[u][k] < g.len() by {
                if u < g0.len() {
                    assert(g[u] == g0[u]);
                }
            }
        }
        let topological_order = graph.toposort_acyclic();
        let result = assign_buffers(&graph, &topological_order, &num_outputs, &builder.nodes);
        let t = PipelineTemplate {
            nodes: builder.nodes,
            opts: builder.opts,
            buffer_assignments: result.assignments,
            num_buffers: result.num_buffers,
            topological_order,
        };
        proof {
            assert(t.layout() == ns);
            assert(t.options() == builder.options());
            assert(is_node_permutation(ns.len(), t.order()));
            assert(assignment_shape(ns, t.assignments()));
            assert(slots_bounded(t.assignments(), t.buffer_count()));
            assert forall|i: int| 0 <= i < t.topological_order@.len() implies (#[trigger] t.topological_order@[i]).position()
                < t.nodes@.len() by {
                assert(node_positions(t.topological_order@)[i] < graph@.len());
            }
            assert(t.wf());
        }
        Ok(t)
    }
}

impl PipelineTemplate {
    /// Constructs a pipeline from this template: the nodes in the order they run,
    /// and for every node id its place in that order.
    pub fn construct(self) -> (r: Pipeline)
        requires
            self.wf(),
        ensures
            constructed_from(self, r),
    {
        let ghost ns = self.nodes@;
        let ghost o = self.order();
        let n = self.nodes.len();
        let mut inner = self.nodes.into_inner();
        let mut reversed: Vec<PipelineAudioNode> = Vec::new();
        while inner.len() > 0
            invariant
                inner@.len() + reversed@.len() == n,
                n == ns.len(),
                inner@ == ns.take(inner@.len() as int),
                forall|j: int| 0 <= j < reversed@.len() ==> #[trigger] reversed@[j] == ns[n - 1 - j],
            decreases inner@.len(),
        {
            let x = inner.pop().unwrap();
            reversed.push(x);
            assert(inner@ =~= ns.take(inner@.len() as int));
        }
        let mut unordered: Vec<Option<PipelineAudioNode>> = Vec::new();
        while reversed.len() > 0
            invariant
                reversed@.len() + unordered@.len() == n,
                n == ns.len(),
                forall|j: int| 0 <= j < reversed@.len() ==> #[trigger] reversed@[j] == ns[n - 1 - j],
                forall|j: int| 0 <= j < unordered@.len() ==> #[trigger] unordered@[j] == Some(ns[j]),
            decreases reversed@.len(),
        {
            let x = reversed.pop().unwrap();
            unordered.push(Some(x));
        }
        let tl = self.topological_order.len();
        let mut ordered: Vec<PipelineAudioNode> = Vec::new();
        for i in 0..tl
            invariant
                n == ns.len(),
                tl == o.len(),
                o == node_positions(self.topological_order@),
                o.no_duplicates(),
                forall|j: int| 0 <= j < tl ==> #[trigger] o[j] < n,
                unordered@.len() == n,
                ordered@.len() == i,
                forall|j: int| 0 <= j < i ==> #[trigger] ordered@[j] == ns[o[j] as int],
                forall|p: int|
                    0 <= p < n ==> #[trigger] unordered@[p] == if o.take(i as int).contains(p as nat) {
                        None
                    } else {
                        Some(ns[p])
                    },
        {
            let id = self.topological_order[i];
            let p = id.as_index();
            assert(o[i as int] == p);
            assert(!o.take(i as int).contains(p as nat)) by {
                let t0 = o.take(i as int);
                if t0.contains(p as nat) {
                    let j = choose|j: int| 0 <= j < t0.len() && t0[j] == p;
                    assert(o[j] == o[i as int]);
                }
            }
            let mut taken: Option<PipelineAudioNode> = None;
            std::mem::swap(&mut taken, &mut unordered[p]);
            let node = taken.unwrap();
            ordered.push(node);
            proof {
                let t0 = o.take(i as int);
                let t1 = o.take(i + 1);
                assert forall|q: int|
                    0 <= q < n implies #[trigger] unordered@[q] == if t1.contains(q as nat) {
                    None
                } else {
                    Some(ns[q])
                } by {
                    if t1.contains(q as nat) {
                        let j = choose|j: int| 0 <= j < t1.len() && t1[j] == q;
                        if j < i {
                            assert(t0[j] == q);
                        }
                    } else {
                        assert(q != p) by {
                            assert(t1[i as int] == p);
                        }
                        assert(!t0.contains(q as nat)) by {
                            if t0.contains(q as nat) {
                                let j = choose|j: int| 0 <= j < t0.len() && t0[j] == q;
                                assert(t1[j] == q);
                            }
                        }
                    }
                }
            }
        }
        let mut index_map: Vec<usize> = Vec::new();
        for j in 0..n
            invariant
                index_map@.len() == j,
                forall|q: int| 0 <= q < j ==> #[trigger] index_map@[q] == usize::MAX,
        {
            index_map.push(usize::MAX);
        }
        for i in 0..tl
            invariant
                n == ns.len(),
                tl == o.len(),
                o.no_duplicates(),
                forall|j: int| 0 <= j < tl ==> #[trigger] o[j] < n,
                forall|q: int| 0 <= q < n ==> (#[trigger] node_id_of(ns[q])).position() == q,
                ordered@.len() == tl,
                forall|j: int| 0 <= j < tl ==> #[trigger] ordered@[j] == ns[o[j] as int],
                index_map@.len() == n,
                forall|j: int| 0 <= j < i ==> #[trigger] index_map@[o[j] as int] == j,
                forall|q: int| 0 <= q < n && !o.take(i as int).contains(q as nat) ==> #[trigger] index_map@[q]
                    == usize::MAX,
        {
            let node_id = ordered[i].id();
            assert(ordered@[i as int] == ns[o[i as int] as int]);
            assert(node_id.position() == o[i as int]);
            index_map.set(node_id.as_index(), i);
            proof {
                assert forall|j: int| 0 <= j < i + 1 implies #[trigger] index_map@[o[j] as int] == j by {
                    if j < i {
                        assert(o[j] != o[i as int]);
                    }
                }
                let t0 = o.take(i as int);
                let t1 = o.take(i + 1);
                assert forall|q: int| 0 <= q < n && !t1.contains(q as nat) implies #[trigger] index_map@[q]
                    == usize::MAX by {
                    assert(t1[i as int] == o[i as int]);
                    assert(!t0.contains(q as nat)) by {
                        if t0.contains(q as nat) {
                            let j = choose|j: int| 0 <= j < t0.len() && t0[j] == q;
                            assert(t1[j] == q);
                        }
                    }
                }
            }
        }
        proof {
            assert(o.take(tl as int) =~= o);
            assert(ordered@ =~= Seq::new(o.len(), |i: int| ns[o[i] as int]));
        }
        Pipeline {
            opts: self.opts,
            nodes: ordered,
            id_to_node_index: IdContainer::new(index_map),
            buffer_assignments: self.buffer_assignments,
            num_buffers: self.num_buffers,
            current_sample_offset: 0,
        }
    }

    pub fn get_opts(&self) -> (r: &PipelineOpts)
        ensures
            *r == self.options(),
    {
        &self.opts
    }

    pub fn set_opts(&mut self, opts: PipelineOpts)
        ensures
            final(self).options() == opts,
            final(self).layout() == old(self).layout(),
            final(self).order() == old(self).order(),
            final(self).assignments() == old(self).assignments(),
            final(self).buffer_count() == old(self).buffer_count(),
            old(self).wf() ==> final(self).wf(),
    {
        self.opts = opts;
    }

    /// The number of buffers the assignments use.
    pub fn num_buffers(&self) -> (r: usize)
        ensures
            r == self.buffer_count(),
    {
        self.num_buffers
    }

    /// The buffer assignment of every node, by id.
    pub fn buffer_assignments(&self) -> (r: &Vec<BufferAssignment>)
        ensures
            r@ == self.assignments(),
    {
        &self.buffer_assignments
    }

    /// The nodes in the order they run.
    pub fn topological_order(&self) -> (r: &Vec<NodeId>)
        ensures
            node_positions(r@) == self.order(),
    {
        &self.topological_order
    }

    /// The nodes, by id.
    pub fn nodes(&self) -> (r: &IdContainer<PipelineAudioNode>)
        ensures
            r@ == self.layout(),
    {
        &self.nodes
    }
}

/// A pipeline ready to run: its nodes in the order they run, the buffers their
/// inputs and outputs use, and the number of samples produced so far.
#[derive(Debug)]
pub struct Pipeline {
    opts: PipelineOpts,
    nodes: Vec<PipelineAudioNode>,
    id_to_node_index: IdContainer<usize>,
    buffer_assignments: Vec<BufferAssignment>,
    num_buffers: usize,
    current_sample_offset: u64,
}

impl Pipeline {
    pub closed spec fn options(&self) -> PipelineOpts {
        self.opts
    }

    /// The nodes in the order they run.
    pub closed spec fn running_nodes(&self) -> Seq<PipelineAudioNode> {
        self.nodes@
    }

    /// For every node id, its place in the running order (`usize::MAX` when it
    /// does not run).
    pub closed spec fn index_map(&self) -> Seq<usize> {
        self.id_to_node_index@
    }

    /// The buffer assignments (listed by node id).
    pub closed spec fn assignments(&self) -> Seq<BufferAssignment> {
        self.buffer_assignments@
    }

    /// The number of buffers the assignments use.
    pub closed spec fn buffer_count(&self) -> nat {
        self.num_buffers as nat
    }

    /// The number of samples produced so far.
    pub closed spec fn offset(&self) -> nat {
        self.current_sample_offset as nat
    }

    pub fn opts(&self) -> (r: &PipelineOpts)
        ensures
            *r == self.options(),
    {
        &self.opts
    }

    /// The nodes in the order they run.
    pub fn nodes(&self) -> (r: &Vec<PipelineAudioNode>)
        ensures
            r@ == self.running_nodes(),
    {
        &self.nodes
    }

    /// The buffer assignments (listed by node id).
    pub fn buffer_assignments(&self) -> (r: &Vec<BufferAssignment>)
        ensures
            r@ == self.assignments(),
    {
        &self.buffer_assignments
    }

    /// The number of buffers the assignments use.
    pub fn num_buffers(&self) -> (r: usize)
        ensures
            r == self.buffer_count(),
    {
        self.num_buffers
    }

    /// The number of samples produced so far.
    pub fn current_sample_offset(&self) -> (r: u64)
        ensures
            r == self.offset(),
    {
        self.current_sample_offset
    }

    /// The place of the node `id` in the running order, as recorded for its id:
    /// `None` when the id names no node.
    pub fn node_index(&self, id: NodeId) -> (r: Option<usize>)
        ensures
            id.position() < self.index_map().len() ==> r == Some(self.index_map()[id.position() as int]),
            id.position() >= self.index_map().len() ==> r is None,
    {
        match self.id_to_node_index.get(id.as_index()) {
            Some(i) => Some(*i),
            None => None,
        }
    }

    /// The node `id`, or `None` when the id names no node.
    pub fn get_node(&self, id: NodeId) -> (r: Option<&PipelineAudioNode>)
        requires
            id.position() < self.index_map().len() ==> self.index_map()[id.position() as int]
                < self.running_nodes().len(),
        ensures
            id.position() < self.index_map().len() ==> r == Some(
                &self.running_nodes()[self.index_map()[id.position() as int] as int],
            ),
            id.position() >= self.index_map().len() ==> r is None,
    {
        match self.node_index(id) {
            Some(idx) => Some(&self.nodes[idx]),
            None => None,
        }
    }

    /// The timing of the next batch of `n_samples` samples.
    pub fn batch_context(&self, n_samples: u32) -> (r: SamplingContext)
        requires
            n_samples <= self.options().rate(),
        ensures
            r.rate() == self.options().rate(),
            r.start() == self.offset(),
            r.count() == n_samples,
    {
        SamplingContext::new(self.opts.sample_rate(), self.current_sample_offset, n_samples)
    }

    /// Records that a batch of `n_samples` samples was produced.
    pub fn advance(&mut self, n_samples: u32)
        requires
            old(self).offset() + n_samples <= u64::MAX,
        ensures
            final(self).offset() == old(self).offset() + n_samples,
            final(self).options() == old(self).options(),
            final(self).running_nodes() == old(self).running_nodes(),
            final(self).index_map() == old(self).index_map(),
            final(self).assignments() == old(self).assignments(),
            final(self).buffer_count() == old(self).buffer_count(),
    {
        self.current_sample_offset = self.current_sample_offset + n_samples as u64;
    }
}

/// What sampling a batch does next.
#[derive(Debug, Clone, Copy, PartialEq, Eq, Structural)]
pub enum BatchStep {
    /// Run the node at this place of the running order.
    Run(usize),
    /// A node failed: stop, leaving the sample offset where it was.
    Abort,
    /// Every node ran: the batch is done and the offset has moved past it.
    Done,
}

impl Pipeline {
    /// The step of a batch of `n_samples` samples after the first `ran` nodes
    /// of the running order have run, the last of them with outcome `last_ok`:
    /// a failure aborts the batch, otherwise the next node runs, and after the
    /// last one the sample offset moves on by `n_samples`.
    pub fn batch_step(&mut self, ran: usize, last_ok: bool, n_samples: u32) -> (r: BatchStep)
        requires
            ran <= old(self).running_nodes().len(),
            last_ok && ran == old(self).running_nodes().len() ==> old(self).offset() + n_samples <= u64::MAX,
        ensures
            !last_ok ==> r == BatchStep::Abort,
            last_ok && ran < old(self).running_nodes().len() ==> r == BatchStep::Run(ran),
            last_ok && ran == old(self).running_nodes().len() ==> r == BatchStep::Done,
            final(self).offset() == if r == BatchStep::Done {
                old(self).offset() + n_samples
            } else {
                old(self).offset() as int
            },
            final(self).options() == old(self).options(),
            final(self).running_nodes() == old(self).running_nodes(),
            final(self).index_map() == old(self).index_map(),
            final(self).assignments() == old(self).assignments(),
            final(self).buffer_count() == old(self).buffer_count(),
    {
        if !last_ok {
            BatchStep::Abort
        } else if ran < self.nodes.len() {
            BatchStep::Run(ran)
        } else {
            self.advance(n_samples);
            BatchStep::Done
        }
    }
}

} // verus!
