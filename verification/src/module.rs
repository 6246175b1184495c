use crate::patchbay::{BayView, Patchbay};
use vstd::prelude::*;

verus! {

/// The contract every processing unit satisfies: a readiness predicate over
/// the patchbay, and an in-place one-sample computation.
///
/// Each implementation describes itself with three model functions. The
/// readiness model says when the module considers its inputs fresh; the state
/// and patchbay models say, as a function of the module and the patchbay
/// state, exactly what one `process` call produces. The processor's own
/// contract is stated as a fold of these models over its modules, so whatever
/// is proved about a tick holds for every module set whose implementations
/// meet this contract.
///
/// A module must not write the patchbay from `is_ready` (the shared borrow
/// enforces this), and both methods must depend on the patchbay only through
/// its state, which the model functions' signatures enforce. Readiness should
/// hold exactly when every signal the next `process` call consults reads
/// fresh; a module with no inputs reports ready unconditionally. Feedback is
/// expressed by reading a point that is not yet fresh this tick: the value
/// seen is then the previous tick's.
pub trait Module<const SAMPLE_RATE: usize>: Sized {
    /// Model of `is_ready`: whether the module's inputs are fresh in `bay`.
    /// The default models a module with no inputs, which is always ready.
    open spec fn ready_model(&self, bay: BayView) -> bool {
        true
    }

    /// Model of `process`: the module state after one sample computed on
    /// `bay`. The default models a module with no internal state change.
    open spec fn state_model(&self, bay: BayView) -> Self {
        *self
    }

    /// Model of `process`: the patchbay state after one sample computed on
    /// `bay`. The default models a module that writes nothing.
    open spec fn bay_model(&self, bay: BayView) -> BayView {
        bay
    }

    /// Report whether every input signal the next `process` call will consult
    /// is currently fresh. Must not mutate anything.
    fn is_ready<const P: usize>(&self, patchbay: &Patchbay<P>) -> (r: bool)
        requires
            patchbay.wf(),
        ensures
            r == self.ready_model(patchbay@),
    ;

    /// Advance the module by one sample: update internal state and write zero
    /// or more patch points.
    fn process<const P: usize>(&mut self, patchbay: &mut Patchbay<P>)
        requires
            old(patchbay).wf(),
        ensures
            final(patchbay).wf(),
            *final(self) == old(self).state_model(old(patchbay)@),
            final(patchbay)@ == old(self).bay_model(old(patchbay)@),
    ;
}

} // verus!
