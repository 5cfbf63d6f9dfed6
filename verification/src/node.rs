//! What nodes are configured with and report when they join a pipeline, and
//! the timing of a batch of samples.

use vstd::prelude::*;

verus! {

/// Configuration handed to a source when it joins a pipeline.
#[derive(Debug)]
pub struct AudioSourceCfg {
    pub sample_rate: u32,
}

/// What a source reports about itself when it joins a pipeline.
#[derive(Debug, Clone)]
pub struct AudioSourceInfo {
    pub num_outputs: usize,
}

/// Configuration handed to a sink when it joins a pipeline.
#[derive(Debug)]
pub struct AudioSinkCfg {
    pub num_inputs: usize,
    pub sample_rate: u32,
}

/// What a sink reports about itself when it joins a pipeline.
#[derive(Debug, Clone)]
pub struct AudioSinkInfo {}

/// Configuration handed to a processor when it joins a pipeline.
#[derive(Debug)]
pub struct AudioProcessorCfg {
    pub sample_rate: u32,
    pub num_inputs: usize,
}

/// What a processor reports about itself when it joins a pipeline.
#[derive(Debug, Clone)]
pub struct AudioProcessorInfo {
    pub num_outputs: usize,
}

/// The timing of one batch of samples.
#[derive(Debug, Clone, Copy)]
pub struct SamplingContext {
    pub(crate) sample_rate: u32,
    pub(crate) batch_begin: u64,
    pub(crate) num_samples: u32,
}

impl SamplingContext {
    /// Samples per second.
    pub closed spec fn rate(&self) -> nat {
        self.sample_rate as nat
    }

    /// The global index of the first sample of the batch.
    pub closed spec fn start(&self) -> nat {
        self.batch_begin as nat
    }

    /// The number of samples in the batch.
    pub closed spec fn count(&self) -> nat {
        self.num_samples as nat
    }

    pub fn new(sample_rate: u32, batch_begin: u64, num_samples: u32) -> (r: Self)
        ensures
            r.rate() == sample_rate,
            r.start() == batch_begin,
            r.count() == num_samples,
    {
        SamplingContext { sample_rate, batch_begin, num_samples }
    }

    pub fn get_samples_per_second(&self) -> (r: u32)
        ensures
            r == self.rate(),
    {
        self.sample_rate
    }

    /// Returns the index of the sample of the batch start.
    pub fn get_batch_start(&self) -> (r: u64)
        ensures
            r == self.start(),
    {
        self.batch_begin
    }

    /// Returns the number of samples in this batch.
    pub fn batch_size(&self) -> (r: usize)
        ensures
            r == self.count(),
    {
        self.num_samples as usize
    }
}

} // verus!
