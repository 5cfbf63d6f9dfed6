//! Verified core of an audio processing pipeline: numeric ids and id-indexed
//! containers, the pipeline graph with its topological order, the buffer
//! assignment of a pipeline template, and the byte layout of wave files.

pub mod dupe;
pub mod err;
pub mod id;
pub mod node;
pub mod pipeline;
pub mod sample;
pub mod sinks;
pub mod wav;
