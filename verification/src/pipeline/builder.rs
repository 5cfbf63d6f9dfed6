//! Collecting the nodes of a pipeline and their connections.

use vstd::prelude::*;

use crate::err::AudioError;
use crate::id::{IdContainer, IncrementalId, NumericId};
use crate::node::{
    AudioProcessorCfg, AudioProcessorInfo, AudioSinkCfg, AudioSinkInfo, AudioSourceCfg,
    AudioSourceInfo,
};
use crate::pipeline::graph::occurrences;
use crate::pipeline::layout::{
    connection_count, connection_edges, input_sources, inputs_in_range, lemma_connection_edges_monotone,
    lemma_occurrences_bound, lemma_use_count_bound, output_indices_in_range, outputs_match, outputs_used,
    use_count,
};
use crate::pipeline::template::{constructed_from, planned_from};
use crate::pipeline::{
    declared_outputs, node_id_of, node_inputs, NodeId, NodeOutput, Pipeline, PipelineAudioNode, PipelineTemplate,
};

verus! {

/// Converts a value into the list of outputs a node reads from.
pub trait NodeInputs {
    /// Converts the value into a list of node outputs.
    fn get_inputs(self) -> Vec<NodeOutput>;
}

impl NodeInputs for Vec<NodeOutput> {
    fn get_inputs(self) -> (r: Vec<NodeOutput>)
        ensures
            r@ == self@,
    {
        self
    }
}

impl NodeInputs for &[NodeOutput] {
    fn get_inputs(self) -> (r: Vec<NodeOutput>)
        ensures
            r@ == self@,
    {
        let mut out: Vec<NodeOutput> = Vec::new();
        for i in 0..self.len()
            invariant
                out@ == self@.take(i as int),
        {
            out.push(self[i]);
            assert(out@ =~= self@.take(i + 1));
        }
        assert(self@.take(self@.len() as int) =~= self@);
        out
    }
}

impl<const N: usize> NodeInputs for [NodeOutput; N] {
    fn get_inputs(self) -> (r: Vec<NodeOutput>)
        ensures
            r@ == self@,
    {
        let mut out: Vec<NodeOutput> = Vec::new();
        for i in 0..N
            invariant
                self@.len() == N,
                out@ == self@.take(i as int),
        {
            out.push(self[i]);
            assert(out@ =~= self@.take(i + 1));
        }
        assert(self@.take(N as int) =~= self@);
        out
    }
}

impl<const N: usize> NodeInputs for &[NodeOutput; N] {
    fn get_inputs(self) -> (r: Vec<NodeOutput>)
        ensures
            r@ == self@,
    {
        let mut out: Vec<NodeOutput> = Vec::new();
        for i in 0..N
            invariant
                self@.len() == N,
                out@ == self@.take(i as int),
        {
            out.push(self[i]);
            assert(out@ =~= self@.take(i + 1));
        }
        assert(self@.take(N as int) =~= self@);
        out
    }
}

/// The configurable aspects of a pipeline which don't depend on its nodes.
#[derive(Debug, Clone, Copy)]
#[non_exhaustive]
pub struct PipelineOpts {
    sample_rate: u32,
}

impl PipelineOpts {
    #[verifier::type_invariant]
    spec fn rate_non_zero(&self) -> bool {
        self.sample_rate > 0
    }

    /// Samples per second.
    pub closed spec fn rate(&self) -> nat {
        self.sample_rate as nat
    }

    /// Options with the given sample rate, or `None` when the rate is 0.
    pub fn new(sample_rate: u32) -> (r: Option<Self>)
        ensures
            sample_rate == 0 <==> r is None,
            r matches Some(o) ==> o.rate() == sample_rate,
    {
        if sample_rate == 0 {
            None
        } else {
            Some(PipelineOpts { sample_rate })
        }
    }

    pub fn sample_rate(&self) -> (r: u32)
        ensures
            r == self.rate(),
            r > 0,
    {
        proof {
            use_type_invariant(self);
        }
        self.sample_rate
    }
}

impl Default for PipelineOpts {
    fn default() -> (r: Self)
        ensures
            r.rate() == 44100,
    {
        PipelineOpts { sample_rate: 44100 }
    }
}

/// The largest number of nodes a builder can hold: ids are `u32` numbers, and
/// the search over the nodes keeps one bit per node.
pub open spec fn node_limit() -> nat {
    if usize::MAX / 8 < u32::MAX {
        (usize::MAX / 8) as nat
    } else {
        u32::MAX as nat
    }
}

/// Collects the nodes of a pipeline and how they are connected.
///
/// A node is added together with what it reported when it joined (`setup`), and
/// gets the next id; its inputs cannot change later.
#[derive(Debug)]
pub struct PipelineBuilder {
    pub(crate) nodes: IdContainer<PipelineAudioNode>,
    pub(crate) opts: PipelineOpts,
}

impl View for PipelineBuilder {
    type V = Seq<PipelineAudioNode>;

    closed spec fn view(&self) -> Seq<PipelineAudioNode> {
        self.nodes@
    }
}

impl PipelineBuilder {
    #[verifier::type_invariant]
    pub(crate) closed spec fn ids_match_indices(&self) -> bool {
        &&& self.nodes@.len() <= node_limit()
        &&& forall|i: int| 0 <= i < self.nodes@.len() ==> (#[trigger] node_id_of(self.nodes@[i])).position() == i
    }

    /// The view is the node list, and the invariant holds of it.
    pub(crate) proof fn lemma_fields(b: &PipelineBuilder)
        requires
            b.ids_match_indices(),
        ensures
            b@ == b.nodes@,
            b.options() == b.opts,
            b@.len() <= node_limit(),
            forall|i: int| 0 <= i < b@.len() ==> (#[trigger] node_id_of(b@[i])).position() == i,
    {
    }

    /// The options the pipeline is built with.
    pub closed spec fn options(&self) -> PipelineOpts {
        self.opts
    }

    pub fn new(opts: PipelineOpts) -> (r: Self)
        ensures
            r@ == Seq::<PipelineAudioNode>::empty(),
            r.options() == opts,
    {
        PipelineBuilder { nodes: IdContainer::new(Vec::new()), opts }
    }

    pub fn opts(&self) -> (r: PipelineOpts)
        ensures
            r == self.options(),
    {
        self.opts
    }

    /// The number of nodes added so far.
    pub fn len(&self) -> (r: usize)
        ensures
            r == self@.len(),
    {
        self.nodes.len()
    }

    /// The nodes added so far, by id.
    pub fn nodes(&self) -> (r: &IdContainer<PipelineAudioNode>)
        ensures
            r@ == self@,
    {
        &self.nodes
    }

    /// Whether the builder holds as many nodes as it can.
    pub fn is_full(&self) -> (r: bool)
        ensures
            r == (self@.len() >= node_limit()),
    {
        proof {
            use_type_invariant(self);
        }
        let n = self.nodes.len();
        n >= usize::MAX / 8 || n >= 4294967295
    }

    /// The configuration a new source is set up with.
    pub fn source_cfg(&self) -> (r: AudioSourceCfg)
        ensures
            r.sample_rate == self.options().rate(),
    {
        AudioSourceCfg { sample_rate: self.opts.sample_rate() }
    }

    /// The configuration a new processor with `num_inputs` inputs is set up with.
    pub fn processor_cfg(&self, num_inputs: usize) -> (r: AudioProcessorCfg)
        ensures
            r.sample_rate == self.options().rate(),
            r.num_inputs == num_inputs,
    {
        AudioProcessorCfg { sample_rate: self.opts.sample_rate(), num_inputs }
    }

    /// The configuration a new sink with `num_inputs` inputs is set up with.
    pub fn sink_cfg(&self, num_inputs: usize) -> (r: AudioSinkCfg)
        ensures
            r.sample_rate == self.options().rate(),
            r.num_inputs == num_inputs,
    {
        AudioSinkCfg { num_inputs, sample_rate: self.opts.sample_rate() }
    }

    /// Adds a source, given the name it reports and the result of its setup.
    ///
    /// A failed setup is passed on and adds nothing; otherwise the source gets the
    /// next id.
    pub fn add_source(&mut self, name: String, setup: Result<AudioSourceInfo, AudioError>) -> (r:
        Result<NodeId, AudioError>)
        requires
            old(self)@.len() < node_limit(),
        ensures
            final(self).options() == old(self).options(),
            setup matches Err(e) ==> r == Err::<NodeId, AudioError>(e) && final(self)@ == old(self)@,
            setup matches Ok(info) ==> {
                r matches Ok(id) && id.position() == old(self)@.len() && final(self)@
                    == old(self)@.push(PipelineAudioNode::Source { id, name, src_info: info })
            },
    {
        proof {
            use_type_invariant(&*self);
        }
        let src_info = match setup {
            Ok(info) => info,
            Err(e) => return Err(e),
        };
        let id: NodeId = self.nodes.next_id();
        let mut nodes = IdContainer::default();
        std::mem::swap(&mut nodes, &mut self.nodes);
        let r: NodeId = nodes.push_id(PipelineAudioNode::Source { id, name, src_info });
        self.nodes = nodes;
        proof {
            NodeId::lemma_position_injective(r, id);
        }
        Ok(r)
    }

    /// Adds a processor reading from `inputs`, given the name it reports and the
    /// result of its setup.
    ///
    /// A failed setup is passed on and adds nothing; otherwise the processor gets
    /// the next id.
    pub fn add_processor(
        &mut self,
        inputs: Vec<NodeOutput>,
        name: String,
        setup: Result<AudioProcessorInfo, AudioError>,
    ) -> (r: Result<NodeId, AudioError>)
        requires
            old(self)@.len() < node_limit(),
        ensures
            final(self).options() == old(self).options(),
            setup matches Err(e) ==> r == Err::<NodeId, AudioError>(e) && final(self)@ == old(self)@,
            setup matches Ok(info) ==> {
                r matches Ok(id) && id.position() == old(self)@.len() && final(self)@
                    == old(self)@.push(
                    PipelineAudioNode::Processor { id, name, inputs, proc_info: info },
                )
            },
    {
        proof {
            use_type_invariant(&*self);
        }
        let proc_info = match setup {
            Ok(info) => info,
            Err(e) => return Err(e),
        };
        let id: NodeId = self.nodes.next_id();
        let mut nodes = IdContainer::default();
        std::mem::swap(&mut nodes, &mut self.nodes);
        let r: NodeId = nodes.push_id(PipelineAudioNode::Processor { id, name, inputs, proc_info });
        self.nodes = nodes;
        proof {
            NodeId::lemma_position_injective(r, id);
        }
        Ok(r)
    }

    /// Adds a sink reading from `inputs`, given the name it reports and the result
    /// of its setup.
    ///
    /// A failed setup is passed on and adds nothing; otherwise the sink gets the
    /// next id.
    pub fn add_sink(
        &mut self,
        inputs: Vec<NodeOutput>,
        name: String,
        setup: Result<AudioSinkInfo, AudioError>,
    ) -> (r: Result<NodeId, AudioError>)
        requires
            old(self)@.len() < node_limit(),
        ensures
            final(self).options() == old(self).options(),
            setup matches Err(e) ==> r == Err::<NodeId, AudioError>(e) && final(self)@ == old(self)@,
            setup matches Ok(info) ==> {
                r matches Ok(id) && id.position() == old(self)@.len() && final(self)@
                    == old(self)@.push(PipelineAudioNode::Sink { id, name, inputs, sink_info: info })
            },
    {
        proof {
            use_type_invariant(&*self);
        }
        let sink_info = match setup {
            Ok(info) => info,
            Err(e) => return Err(e),
        };
        let id: NodeId = self.nodes.next_id();
        let mut nodes = IdContainer::default();
        std::mem::swap(&mut nodes, &mut self.nodes);
        let r: NodeId = nodes.push_id(PipelineAudioNode::Sink { id, name, inputs, sink_info });
        self.nodes = nodes;
        proof {
            NodeId::lemma_position_injective(r, id);
        }
        Ok(r)
    }
}

/// What building the layout `nodes` with options `opts` gives: the error of
/// [`planned_from`], or the pipeline constructed from the template it plans.
pub open spec fn built_from(
    nodes: Seq<PipelineAudioNode>,
    opts: PipelineOpts,
    r: Result<Pipeline, AudioError>,
) -> bool {
    match r {
        Ok(p) => exists|t: PipelineTemplate|
            #![trigger constructed_from(t, p)]
            planned_from(nodes, opts, Ok(t)) && constructed_from(t, p),
        Err(e) => planned_from(nodes, opts, Err(e)),
    }
}

/// Every node added to a builder has a place in the pipeline built from it: the
/// index map sends the node's id to a place in the running order, and the node
/// runs there.
pub proof fn lemma_built_nodes_resolve(nodes: Seq<PipelineAudioNode>, opts: PipelineOpts, p: Pipeline, q: int)
    requires
        built_from(nodes, opts, Ok(p)),
        0 <= q < nodes.len(),
    ensures
        q < p.index_map().len(),
        p.index_map()[q] < p.running_nodes().len(),
        p.running_nodes()[p.index_map()[q] as int] == nodes[q],
{
    let t = choose|t: PipelineTemplate|
        #![trigger constructed_from(t, p)]
        planned_from(nodes, opts, Ok(t)) && constructed_from(t, p);
    let o = t.order();
    assert(o.contains(q as nat));
    let i = choose|i: int| 0 <= i < o.len() && o[i] == q as nat;
    assert(p.index_map()[o[i] as int] == i);
}

impl PipelineBuilder {
    /// Whether planning this layout stays within its nodes and outputs: every
    /// input names a node of the layout and, when every node is read from as
    /// often as it declared outputs, an output that its node declared.
    pub fn layout_in_range(&self) -> (r: bool)
        requires
            connection_count(self@) < usize::MAX,
        ensures
            r == (inputs_in_range(self@) && (outputs_match(self@) ==> output_indices_in_range(self@))),
    {
        proof {
            use_type_invariant(self);
            PipelineBuilder::lemma_fields(self);
        }
        let ghost ns = self@;
        let n = self.nodes.len();
        for v in 0..n
            invariant
                ns == self.nodes@,
                n == ns.len(),
                forall|w: int, k: int|
                    0 <= w < v && 0 <= k < node_inputs(ns[w]).len() ==> (#[trigger] node_inputs(
                        ns[w],
                    )[k]).node.position() < n,
        {
            let ins = self.nodes.get(v).unwrap().inputs();
            let m = ins.len();
            for k in 0..m
                invariant
                    ns == self.nodes@,
                    n == ns.len(),
                    v < n,
                    ins@ == node_inputs(ns[v as int]),
                    m == ins@.len(),
                    forall|w: int, kk: int|
                        0 <= w < v && 0 <= kk < node_inputs(ns[w]).len() ==> (#[trigger] node_inputs(
                            ns[w],
                        )[kk]).node.position() < n,
                    forall|kk: int| 0 <= kk < k ==> (#[trigger] node_inputs(ns[v as int])[kk]).node.position() < n,
            {
                if ins[k].node.as_index() >= n {
                    proof {
                        assert(node_inputs(ns[v as int])[k as int] == ins@[k as int]);
                    }
                    return false;
                }
            }
        }
        let mut uses: Vec<usize> = Vec::new();
        for j in 0..n
            invariant
                uses@.len() == j,
                forall|u: int| 0 <= u < j ==> #[trigger] uses@[u] == 0,
        {
            uses.push(0);
        }
        proof {
            assert forall|u: int| 0 <= u < n implies #[trigger] uses@[u] == use_count(ns, u as nat, 0) by {}
        }
        for v in 0..n
            invariant
                ns == self.nodes@,
                n == ns.len(),
                inputs_in_range(ns),
                connection_count(ns) < usize::MAX,
                uses@.len() == n,
                forall|u: int| 0 <= u < n ==> #[trigger] uses@[u] == use_count(ns, u as nat, v as nat),
        {
            let ins = self.nodes.get(v).unwrap().inputs();
            let m = ins.len();
            let ghost srcs = input_sources(ns[v as int]);
            proof {
                lemma_connection_edges_monotone(ns, (v + 1) as nat, n as nat);
                assert(connection_edges(ns, (v + 1) as nat) == connection_edges(ns, v as nat) + Seq::new(
                    srcs.len(),
                    |k: int| (srcs[k], v as nat),
                ));
            }
            for k in 0..m
                invariant
                    ns == self.nodes@,
                    n == ns.len(),
                    v < n,
                    inputs_in_range(ns),
                    ins@ == node_inputs(ns[v as int]),
                    m == ins@.len(),
                    srcs == input_sources(ns[v as int]),
                    connection_edges(ns, v as nat).len() + m <= connection_count(ns),
                    connection_count(ns) < usize::MAX,
                    uses@.len() == n,
                    forall|u: int|
                        0 <= u < n ==> #[trigger] uses@[u] == use_count(ns, u as nat, v as nat) + occurrences(
                            srcs.take(k as int),
                            u as nat,
                        ),
            {
                let src = ins[k].node.as_index();
                assert(srcs[k as int] == src);
                assert(src < n);
                proof {
                    lemma_use_count_bound(ns, src as nat, v as nat);
                    lemma_occurrences_bound(srcs.take(k as int), src as nat);
                    assert(srcs.take(k + 1).drop_last() =~= srcs.take(k as int));
                }
                uses.set(src, uses[src] + 1);
            }
            proof {
                assert(srcs.take(m as int) =~= srcs);
            }
        }
        for u in 0..n
            invariant
                ns == self.nodes@,
                n == ns.len(),
                inputs_in_range(ns),
                uses@.len() == n,
                forall|w: int| 0 <= w < n ==> #[trigger] uses@[w] == use_count(ns, w as nat, n as nat),
                forall|w: int| 0 <= w < u ==> #[trigger] outputs_used(ns, w),
        {
            if self.nodes.get(u).unwrap().num_outputs() != uses[u] {
                proof {
                    assert(!outputs_used(ns, u as int));
                }
                return true;
            }
        }
        proof {
            assert forall|w: int| 0 <= w < n implies #[trigger] outputs_used(ns, w) by {}
        }
        for v in 0..n
            invariant
                ns == self.nodes@,
                n == ns.len(),
                inputs_in_range(ns),
                outputs_match(ns),
                forall|w: int, k: int|
                    0 <= w < v && 0 <= k < node_inputs(ns[w]).len() ==> (#[trigger] node_inputs(ns[w])[k]).output_index
                        < declared_outputs(ns[node_inputs(ns[w])[k].node.position() as int]),
        {
            let ins = self.nodes.get(v).unwrap().inputs();
            let m = ins.len();
            for k in 0..m
                invariant
                    ns == self.nodes@,
                    n == ns.len(),
                    v < n,
                    inputs_in_range(ns),
                    outputs_match(ns),
                    ins@ == node_inputs(ns[v as int]),
                    m == ins@.len(),
                    forall|w: int, kk: int|
                        0 <= w < v && 0 <= kk < node_inputs(ns[w]).len() ==> (#[trigger] node_inputs(
                            ns[w],
                        )[kk]).output_index < declared_outputs(ns[node_inputs(ns[w])[kk].node.position() as int]),
                    forall|kk: int|
                        0 <= kk < k ==> (#[trigger] node_inputs(ns[v as int])[kk]).output_index < declared_outputs(
                            ns[node_inputs(ns[v as int])[kk].node.position() as int],
                        ),
            {
                let out = ins[k];
                assert(node_inputs(ns[v as int])[k as int] == out);
                let declared = self.nodes.get(out.node.as_index()).unwrap().num_outputs();
                if out.output_index as usize >= declared {
                    proof {
                        assert(node_inputs(ns[v as int])[k as int].output_index >= declared_outputs(
                            ns[node_inputs(ns[v as int])[k as int].node.position() as int],
                        ));
                    }
                    return false;
                }
            }
        }
        true
    }
}

impl PipelineBuilder {
    /// Checks the layout and plans its execution; see [`planned_from`].
    pub fn into_template(self) -> (r: Result<PipelineTemplate, AudioError>)
        requires
            inputs_in_range(self@),
            outputs_match(self@) ==> output_indices_in_range(self@),
            connection_count(self@) < usize::MAX,
        ensures
            planned_from(self@, self.options(), r),
    {
        PipelineTemplate::try_from_builder(self)
    }

    /// Checks the layout, plans its execution and constructs the pipeline.
    pub fn build(self) -> (r: Result<Pipeline, AudioError>)
        requires
            inputs_in_range(self@),
            outputs_match(self@) ==> output_indices_in_range(self@),
            connection_count(self@) < usize::MAX,
        ensures
            r is Err <==> !outputs_match(self@),
            built_from(self@, self.options(), r),
    {
        let ghost nodes = self@;
        let ghost opts = self.options();
        match self.into_template() {
            Ok(t) => {
                let ghost tt = t;
                let p = t.construct();
                assert(planned_from(nodes, opts, Ok(tt)) && constructed_from(tt, p));
                assert(exists|t: PipelineTemplate|
                    #![trigger constructed_from(t, p)]
                    planned_from(nodes, opts, Ok(t)) && constructed_from(t, p));
                let ghost rr: Result<Pipeline, AudioError> = Ok(p);
                assert(rr matches Ok(pp) && pp == p);
                assert(built_from(nodes, opts, rr));
                Ok(p)
            },
            Err(e) => Err(e),
        }
    }
}

impl Default for PipelineBuilder {
    fn default() -> (r: Self)
        ensures
            r@ == Seq::<PipelineAudioNode>::empty(),
            r.options().rate() == 44100,
    {
        PipelineBuilder::new(PipelineOpts::default())
    }
}

} // verus!
