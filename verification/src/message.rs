use vstd::prelude::*;

verus! {

/// An event tagged with the buffer position at which it occurred, so one
/// source can tell another that something happened at a specific moment —
/// for example a control message raised at buffer position 42.
pub struct Message<T> {
    /// Buffer position the event occurred at.
    pub position: usize,
    /// Application-defined payload.
    pub data: T,
}

impl<T> Message<T> {
    /// Wrap a payload with the buffer position it belongs to.
    pub fn new(position: usize, data: T) -> (r: Message<T>)
        ensures
            r.position == position,
            r.data == data,
    {
        Message { position, data }
    }
}

} // verus!
