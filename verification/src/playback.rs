use vstd::prelude::*;

verus! {

/// How driving code plays back a recorded stretch of audio it feeds through
/// the engine.
#[derive(Debug, PartialEq, Clone)]
pub enum PlayStyle {
    /// One time playback.
    OneShot,
    /// Return to start after playback is finished.
    Loop,
}

} // verus!
