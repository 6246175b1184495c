use crate::module::Module;
use crate::patchbay::{BayView, Patchbay};
use vstd::prelude::*;

verus! {

/// Placeholder module: always ready, does nothing when processed. Useful to
/// reserve a slot or to instantiate a processor in tests and examples.
#[derive(Clone, Copy, PartialEq, Debug)]
pub struct Dummy;

impl<const SAMPLE_RATE: usize> Module<SAMPLE_RATE> for Dummy {
    open spec fn ready_model(&self, bay: BayView) -> bool {
        true
    }

    open spec fn state_model(&self, bay: BayView) -> Dummy {
        Dummy
    }

    open spec fn bay_model(&self, bay: BayView) -> BayView {
        bay
    }

    fn is_ready<const P: usize>(&self, patchbay: &Patchbay<P>) -> (r: bool) {
        true
    }

    fn process<const P: usize>(&mut self, patchbay: &mut Patchbay<P>) {
    }
}

} // verus!
