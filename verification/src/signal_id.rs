use vstd::prelude::*;

verus! {

/// Names one output of one sound source by the source's numeric id and a
/// textual signal name. Used by driving code that keeps track of wiring
/// outside the engine.
#[derive(Debug, PartialEq, Clone, Copy)]
pub struct SignalId {
    source_id: usize,
    signal_id: &'static str,
}

impl SignalId {
    /// The id of the source the signal belongs to.
    pub closed spec fn spec_source_id(&self) -> usize {
        self.source_id
    }

    /// The name of the signal.
    pub closed spec fn spec_signal_id(&self) -> Seq<char> {
        self.signal_id@
    }

    /// Create a new signal identifier.
    pub fn new(source_id: usize, signal_id: &'static str) -> (r: SignalId)
        ensures
            r.spec_source_id() == source_id,
            r.spec_signal_id() == signal_id@,
    {
        SignalId { source_id, signal_id }
    }

    /// Get a reference to the source id of the signal.
    pub fn get_source_id(&self) -> (r: &usize)
        ensures
            *r == self.spec_source_id(),
    {
        &self.source_id
    }

    /// Get the name of the signal.
    pub fn get_signal_id(&self) -> (r: &'static str)
        ensures
            r@ == self.spec_signal_id(),
    {
        self.signal_id
    }
}

/// Names one output of one sound source by two numeric ids: the source and
/// the index of the signal within it.
#[derive(Debug, PartialEq, Clone, Copy)]
pub struct ExternalSignal {
    source_id: usize,
    signal_id: usize,
}

impl ExternalSignal {
    /// The id of the source the signal belongs to.
    pub closed spec fn spec_source_id(&self) -> usize {
        self.source_id
    }

    /// The index of the signal within its source.
    pub closed spec fn spec_signal_id(&self) -> usize {
        self.signal_id
    }

    /// Create a new external signal identifier.
    pub fn new(source_id: usize, signal_id: usize) -> (r: ExternalSignal)
        ensures
            r.spec_source_id() == source_id,
            r.spec_signal_id() == signal_id,
    {
        ExternalSignal { source_id, signal_id }
    }

    /// Get a reference to the source id of the external signal.
    pub fn get_source_id(&self) -> (r: &usize)
        ensures
            *r == self.spec_source_id(),
    {
        &self.source_id
    }

    /// Get a reference to the signal id of the external signal.
    pub fn get_signal_id(&self) -> (r: &usize)
        ensures
            *r == self.spec_signal_id(),
    {
        &self.signal_id
    }
}

} // verus!
