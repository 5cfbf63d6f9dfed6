//! Graph based audio processing pipelines: the layout of nodes and connections,
//! its topological order and the buffers that carry samples between nodes.

use vstd::prelude::*;

use std::marker::PhantomData;

use crate::id::IncrementalId;
use crate::node::{AudioProcessorInfo, AudioSinkInfo, AudioSourceInfo};

pub mod allocator;
mod bits;
mod builder;
pub mod graph;
mod ids;
pub mod layout;
mod slots;
pub mod template;
pub mod wiring;

pub use bits::NodeBits;
pub use builder::{NodeInputs, PipelineBuilder, PipelineOpts};

pub use graph::Graph;
pub use ids::{BufferId, NodeId};
pub use slots::BufferSlots;
pub use template::{BatchStep, Pipeline, PipelineTemplate};


verus! {

/// Handle to a node's specific output channel.
#[derive(Debug, Clone, Copy, PartialEq, Eq, Structural)]
pub struct NodeOutput {
    pub node: NodeId,
    pub output_index: u32,
}

impl NodeId {
    /// Returns a handle for the given output of a node.
    pub fn output(self, n: u32) -> (r: NodeOutput)
        ensures
            r == (NodeOutput { node: self, output_index: n }),
    {
        NodeOutput { node: self, output_index: n }
    }
}

/// Description of how a port is mapped to a channel index.
pub trait IntoNodeOutputIndex<T> {
    /// Maps the represented port of the value to a channel index.
    fn into_node_output_index(self) -> u32;
}

/// Typed handle to a node in a pipeline.
#[derive(Debug)]
pub struct NodeHandle<T> {
    id: NodeId,
    _marker: PhantomData<T>,
}

impl<T> NodeHandle<T> {
    /// The node this handle refers to.
    pub closed spec fn node(&self) -> NodeId {
        self.id
    }

    pub fn new(id: NodeId) -> (r: Self)
        ensures
            r.node() == id,
    {
        NodeHandle { id, _marker: PhantomData }
    }

    pub fn id(&self) -> (r: NodeId)
        ensures
            r == self.node(),
    {
        self.id
    }

    /// Get a handle to an output of this node, named by a port of the node type.
    pub fn port<P: IntoNodeOutputIndex<T>>(&self, output: P) -> (r: NodeOutput)
        ensures
            r.node == self.node(),
            call_ensures(P::into_node_output_index, (output,), r.output_index),
    {
        self.id.output(output.into_node_output_index())
    }
}

/// A node of a pipeline as the layout sees it: its id, the name it reports, the
/// outputs it reads from and what it reported when it joined.
#[derive(Debug, Clone)]
pub enum PipelineAudioNode {
    Source { id: NodeId, name: String, src_info: AudioSourceInfo },
    Processor {
        id: NodeId,
        name: String,
        inputs: Vec<NodeOutput>,
        proc_info: AudioProcessorInfo,
    },
    Sink { id: NodeId, name: String, inputs: Vec<NodeOutput>, sink_info: AudioSinkInfo },
}

/// The outputs that node `n` reads from, in input order.
pub open spec fn node_inputs(n: PipelineAudioNode) -> Seq<NodeOutput> {
    match n {
        PipelineAudioNode::Source { .. } => Seq::empty(),
        PipelineAudioNode::Processor { inputs, .. } => inputs@,
        PipelineAudioNode::Sink { inputs, .. } => inputs@,
    }
}

/// The number of outputs that node `n` declared.
pub open spec fn declared_outputs(n: PipelineAudioNode) -> nat {
    match n {
        PipelineAudioNode::Source { src_info, .. } => src_info.num_outputs as nat,
        PipelineAudioNode::Processor { proc_info, .. } => proc_info.num_outputs as nat,
        PipelineAudioNode::Sink { .. } => 0,
    }
}

/// The id of node `n`.
pub open spec fn node_id_of(n: PipelineAudioNode) -> NodeId {
    match n {
        PipelineAudioNode::Source { id, .. } => id,
        PipelineAudioNode::Processor { id, .. } => id,
        PipelineAudioNode::Sink { id, .. } => id,
    }
}

/// The name node `n` reported.
pub open spec fn node_name_of(n: PipelineAudioNode) -> String {
    match n {
        PipelineAudioNode::Source { name, .. } => name,
        PipelineAudioNode::Processor { name, .. } => name,
        PipelineAudioNode::Sink { name, .. } => name,
    }
}

impl PipelineAudioNode {
    pub fn inputs(&self) -> (r: &[NodeOutput])
        ensures
            r@ == node_inputs(*self),
    {
        match self {
            PipelineAudioNode::Source { .. } => &[],
            PipelineAudioNode::Processor { inputs, .. } => inputs.as_slice(),
            PipelineAudioNode::Sink { inputs, .. } => inputs.as_slice(),
        }
    }

    pub fn id(&self) -> (r: NodeId)
        ensures
            r == node_id_of(*self),
    {
        match self {
            PipelineAudioNode::Source { id, .. } => *id,
            PipelineAudioNode::Processor { id, .. } => *id,
            PipelineAudioNode::Sink { id, .. } => *id,
        }
    }

    pub fn name(&self) -> (r: &String)
        ensures
            *r == node_name_of(*self),
    {
        match self {
            PipelineAudioNode::Source { name, .. } => name,
            PipelineAudioNode::Processor { name, .. } => name,
            PipelineAudioNode::Sink { name, .. } => name,
        }
    }

    /// The number of outputs the node declared.
    pub fn num_outputs(&self) -> (r: usize)
        ensures
            r == declared_outputs(*self),
    {
        match self {
            PipelineAudioNode::Source { src_info, .. } => src_info.num_outputs,
            PipelineAudioNode::Processor { proc_info, .. } => proc_info.num_outputs,
            PipelineAudioNode::Sink { .. } => 0,
        }
    }
}

/// The buffers a node reads its inputs from and writes its outputs into.
#[derive(Debug, Clone)]
pub struct BufferAssignment {
    pub inputs: BufferSlots,
    pub outputs: BufferSlots,
}

impl BufferAssignment {
    /// Positions of the input buffers, in input order.
    pub open spec fn input_slots(&self) -> Seq<nat> {
        slots::slot_positions(self.inputs)
    }

    /// Positions of the output buffers, in output order.
    pub open spec fn output_slots(&self) -> Seq<nat> {
        slots::slot_positions(self.outputs)
    }

    pub fn inputs(&self) -> (r: &[BufferId])
        ensures
            slots::buffer_positions(r@) == self.input_slots(),
    {
        slots::slots_as_slice(&self.inputs)
    }

    pub fn outputs(&self) -> (r: &[BufferId])
        ensures
            slots::buffer_positions(r@) == self.output_slots(),
    {
        slots::slots_as_slice(&self.outputs)
    }
}

} // verus!
