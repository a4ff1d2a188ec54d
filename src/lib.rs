//! A small generic discrete-event simulation engine.
//!
//! A model's data lives in a [`State`] handle together with the simulated clock and the
//! queue of pending events. An [`Engine`] owns that handle and drives it: it repeatedly
//! takes the earliest pending event, moves the clock to its firing time, logs it, lets
//! it run (it may change the data and schedule further events) and records a snapshot.
//!
//! Time is an integer count of ticks; what one tick stands for is the model's choice.
use vstd::prelude::*;

pub mod queue;
pub mod state;
pub mod engine;
pub mod laws;

pub use queue::EventQueue;
pub use state::State;
pub use engine::Engine;

verus! {

/// Simulated time, in ticks of the model's choosing.
pub type Timestamp = u64;

/// An event of a simulation: plain data that knows when it fires and what it does.
///
/// An event is one-shot: running it consumes it, and any continuation is a new event
/// that it schedules through the handle.
pub trait Event<S>: Sized {
    /// The time at which this event fires, fixed when the event is made.
    fn time(&self) -> Timestamp;

    /// Runs the event. Through `state` it may read the clock, read and change the
    /// model's data, and schedule further events.
    fn execute(self, state: &mut State<S, Self>);
}

} // verus!
