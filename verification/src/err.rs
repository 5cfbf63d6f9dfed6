//! Errors of the pipeline, and checking a channel count against a range.

use vstd::prelude::*;

verus! {

/// Errors of the audio pipeline.
#[derive(Debug)]
#[non_exhaustive]
pub enum AudioError {
    InvalidSampleRate(u32),
    TooFewChannels { got: u32, min: u32 },
    TooManyChannels { got: u32, max: u32 },
    Cycle,
    MismatchedChannels { node_name: String, got: usize, expected: usize },
}

/// One end of a range of channel counts.
#[derive(Debug, Clone, Copy, PartialEq, Eq, Structural)]
pub enum ChannelBound {
    Included(u32),
    Excluded(u32),
    Unbounded,
}

/// A range of accepted channel counts, given by its two ends.
#[derive(Debug, Clone, Copy, PartialEq, Eq, Structural)]
pub struct ChannelRange {
    pub start: ChannelBound,
    pub end: ChannelBound,
}

/// Whether `got` is not below the lower end `b`.
pub open spec fn above_start(b: ChannelBound, got: u32) -> bool {
    match b {
        ChannelBound::Included(v) => v <= got,
        ChannelBound::Excluded(v) => v < got,
        ChannelBound::Unbounded => true,
    }
}

/// Whether `got` is not above the upper end `b`.
pub open spec fn below_end(b: ChannelBound, got: u32) -> bool {
    match b {
        ChannelBound::Included(v) => got <= v,
        ChannelBound::Excluded(v) => got < v,
        ChannelBound::Unbounded => true,
    }
}

/// The least count a lower end admits.
pub open spec fn least_admitted(b: ChannelBound) -> int {
    match b {
        ChannelBound::Included(v) => v as int,
        ChannelBound::Excluded(v) => v + 1,
        ChannelBound::Unbounded => 0,
    }
}

/// The greatest count an upper end admits.
pub open spec fn greatest_admitted(b: ChannelBound) -> int {
    match b {
        ChannelBound::Included(v) => v as int,
        ChannelBound::Excluded(v) => v - 1,
        ChannelBound::Unbounded => u32::MAX as int,
    }
}

impl ChannelRange {
    /// Whether the range holds `got`.
    pub open spec fn holds(self, got: u32) -> bool {
        above_start(self.start, got) && below_end(self.end, got)
    }

    /// Whether the count that would be reported for `got` fits in a `u32`:
    /// the lower end is not "above `u32::MAX`", and the upper end is not
    /// "below 0" where `got` gets past the lower end.
    pub open spec fn ends_fit(self, got: u32) -> bool {
        &&& self.start != ChannelBound::Excluded(u32::MAX)
        &&& self.end == ChannelBound::Excluded(0) ==> !above_start(self.start, got)
    }
}

/// Each kind of end admits exactly the counts its name says: `Excluded(v)` as
/// an upper end admits the counts below `v` and `Included(v)` those up to `v`;
/// as a lower end, `Excluded(v)` admits the counts above `v` and `Included(v)`
/// those from `v` on; `Unbounded` admits every count. So `expect_channels`
/// answers `Ok` exactly on the counts that the two ends admit.
pub proof fn lemma_range_ends_admit(v: u32, got: u32)
    ensures
        (ChannelRange { start: ChannelBound::Unbounded, end: ChannelBound::Excluded(v) }).holds(got) <==> got < v,
        (ChannelRange { start: ChannelBound::Unbounded, end: ChannelBound::Included(v) }).holds(got) <==> got <= v,
        (ChannelRange { start: ChannelBound::Excluded(v), end: ChannelBound::Unbounded }).holds(got) <==> v < got,
        (ChannelRange { start: ChannelBound::Included(v), end: ChannelBound::Unbounded }).holds(got) <==> v <= got,
        (ChannelRange { start: ChannelBound::Unbounded, end: ChannelBound::Unbounded }).holds(got),
        forall|r: ChannelRange|
            #![trigger r.holds(got)]
            r.holds(got) <==> (ChannelRange { start: r.start, end: ChannelBound::Unbounded }).holds(got)
                && (ChannelRange { start: ChannelBound::Unbounded, end: r.end }).holds(got),
{
}

/// The counts a range reports in its errors are its edges: the greatest count
/// an upper end admits is accepted by it and the next one is not, and the least
/// count a lower end admits is accepted by it and the one before is not.
pub proof fn lemma_reported_counts_are_edges(start: ChannelBound, end: ChannelBound)
    ensures
        0 <= greatest_admitted(end) <= u32::MAX ==> below_end(end, greatest_admitted(end) as u32),
        0 <= greatest_admitted(end) < u32::MAX ==> !below_end(end, (greatest_admitted(end) + 1) as u32),
        0 <= least_admitted(start) <= u32::MAX ==> above_start(start, least_admitted(start) as u32),
        0 < least_admitted(start) <= u32::MAX ==> !above_start(start, (least_admitted(start) - 1) as u32),
{
}

impl AudioError {
    /// `Ok` when `got` lies in `expected`; `TooFewChannels` with the least
    /// accepted count when it lies below the range; otherwise
    /// `TooManyChannels` with the greatest accepted count.
    pub fn expect_channels(expected: ChannelRange, got: u32) -> (r: Result<(), AudioError>)
        requires
            expected.ends_fit(got),
        ensures
            r is Ok <==> expected.holds(got),
            !above_start(expected.start, got) ==> (r matches Err(
                AudioError::TooFewChannels { got: g, min },
            ) && g == got && min == least_admitted(expected.start)),
            above_start(expected.start, got) && !below_end(expected.end, got) ==> (r matches Err(
                AudioError::TooManyChannels { got: g, max },
            ) && g == got && max == greatest_admitted(expected.end)),
    {
        match expected.start {
            ChannelBound::Included(v) => {
                if got < v {
                    return Err(AudioError::TooFewChannels { got, min: v });
                }
            },
            ChannelBound::Excluded(v) => {
                if got <= v {
                    return Err(AudioError::TooFewChannels { got, min: v + 1 });
                }
            },
            ChannelBound::Unbounded => {},
        }
        match expected.end {
            ChannelBound::Included(v) => {
                if got > v {
                    return Err(AudioError::TooManyChannels { got, max: v });
                }
            },
            ChannelBound::Excluded(v) => {
                if got >= v {
                    return Err(AudioError::TooManyChannels { got, max: v - 1 });
                }
            },
            ChannelBound::Unbounded => {},
        }
        Ok(())
    }
}

} // verus!
