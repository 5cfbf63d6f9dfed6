//! Sample formats and the number of bytes each takes.

use vstd::prelude::*;

verus! {

/// Little-endian, 8 bit signed integer sample.
#[derive(Debug, Clone, Copy)]
pub struct Int8;

/// Little-endian, 16 bit signed integer sample.
#[derive(Debug, Clone, Copy)]
pub struct Int16;

/// Little-endian, 32 bit signed integer sample.
#[derive(Debug, Clone, Copy)]
pub struct Int32;

/// Little-endian, 32 bit floating point sample.
#[derive(Debug, Clone, Copy)]
pub struct Float32;

/// Runtime determined sample.
#[derive(Debug, Clone, Copy, PartialEq, Eq, PartialOrd, Ord, Structural)]
pub struct Dyn(pub SampleType);

/// The sample formats a `Dyn` sample can take.
#[derive(Debug, Clone, Copy, PartialEq, Eq, PartialOrd, Ord, Hash, Structural)]
#[non_exhaustive]
pub enum SampleType {
    Int8,
    Int16,
    Int32,
    Float32,
}

/// The number of bytes one sample of the given type takes.
pub open spec fn width_of(t: SampleType) -> nat {
    match t {
        SampleType::Int8 => 1,
        SampleType::Int16 => 2,
        SampleType::Int32 => 4,
        SampleType::Float32 => 4,
    }
}

/// The sample formats of this crate, and the byte width of each.
pub trait Sealed: Sized + Clone {
    /// The number of bytes one sample takes.
    spec fn width(&self) -> nat;

    /// Returns the number of bytes one sample of this format is written as.
    fn size_of(&self) -> (r: usize)
        ensures
            r == self.width(),
    ;
}

impl Sealed for Int8 {
    open spec fn width(&self) -> nat {
        width_of(SampleType::Int8)
    }

    fn size_of(&self) -> (r: usize) {
        1
    }
}

impl Sealed for Int16 {
    open spec fn width(&self) -> nat {
        width_of(SampleType::Int16)
    }

    fn size_of(&self) -> (r: usize) {
        2
    }
}

impl Sealed for Int32 {
    open spec fn width(&self) -> nat {
        width_of(SampleType::Int32)
    }

    fn size_of(&self) -> (r: usize) {
        4
    }
}

impl Sealed for Float32 {
    open spec fn width(&self) -> nat {
        width_of(SampleType::Float32)
    }

    fn size_of(&self) -> (r: usize) {
        4
    }
}

impl Sealed for Dyn {
    open spec fn width(&self) -> nat {
        width_of(self.0)
    }

    fn size_of(&self) -> (r: usize) {
        match self.0 {
            SampleType::Int8 => Int8.size_of(),
            SampleType::Int16 => Int16.size_of(),
            SampleType::Int32 => Int32.size_of(),
            SampleType::Float32 => Float32.size_of(),
        }
    }
}

} // verus!
