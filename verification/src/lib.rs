//! A fixed-capacity real-time audio engine: modules wired together through a
//! patchbay of sample points, advanced one sample per tick by a processor that
//! discovers a dependency-correct execution order from readiness observations.
//!
//! Samples are carried as raw 32-bit patterns the engine never interprets;
//! driving code converts to and from its numeric representation at the edge.
//! Every module describes itself with model functions (its readiness
//! predicate and the effect of one `process` call), and the processor's
//! contract pins a whole tick down as a fold of those models: the cached-hot
//! path as a straight pass over the slots, the discovery path as greedy
//! rounds, a residual pass for feedback cycles, and a compaction into the
//! discovered order. The laws proved in [`processor`] — one `process` call
//! per stored module per tick, readiness honoured at the moment of
//! processing, acyclic wirings scheduled entirely by the greedy phase, and
//! the discovered order replaying to the same values — all rest on that
//! contract.

mod message;
mod module;
pub mod modules;
pub mod patchbay;
mod playback;
pub mod processor;
mod sample;
mod signal;
mod signal_id;

pub use message::Message;
pub use module::Module;
pub use patchbay::{BayView, PatchPoint, Patchbay};
pub use playback::PlayStyle;
pub use processor::Processor;
pub use sample::Sample;
pub use signal::Signal;
pub use signal_id::{ExternalSignal, SignalId};
