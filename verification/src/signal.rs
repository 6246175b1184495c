use crate::sample::Sample;
use vstd::prelude::*;

verus! {

/// A read-side reference to a sample value.
///
/// A signal either reads from a patchbay point set by another module, carries
/// a fixed value of its own, or is silent (an unconnected input).
#[derive(Clone, Copy)]
pub enum Signal {
    /// Read the sample stored at the given patchbay point.
    PatchPoint(usize),
    /// A fixed sample value, independent of any patchbay.
    Fixed(Sample),
    /// No signal: reads as silence and is always fresh.
    Silence,
}

impl Signal {
    /// Every patchbay index this signal refers to lies below `cap`.
    pub open spec fn in_range(self, cap: nat) -> bool {
        match self {
            Signal::PatchPoint(i) => i < cap,
            Signal::Fixed(_) => true,
            Signal::Silence => true,
        }
    }
}

} // verus!
