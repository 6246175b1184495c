use vstd::prelude::*;

verus! {

/// One audio sample, carried as the bit pattern of an IEEE 754 single-precision
/// number. The engine stores and routes samples without ever interpreting
/// them; driving code converts to and from its numeric representation at the
/// edge.
#[derive(Clone, Copy, PartialEq, Eq, Structural, Debug)]
pub struct Sample {
    /// The raw 32-bit pattern of the sample.
    pub bits: u32,
}

impl Sample {
    /// The silent sample: the bit pattern of positive zero.
    pub open spec fn silent() -> Sample {
        Sample { bits: 0 }
    }

    /// Build a sample from a raw bit pattern.
    pub fn new(bits: u32) -> (s: Sample)
        ensures
            s.bits == bits,
    {
        Sample { bits }
    }

    /// The silent sample, executable form.
    pub fn silence() -> (s: Sample)
        ensures
            s == Sample::silent(),
    {
        Sample { bits: 0 }
    }
}

} // verus!
