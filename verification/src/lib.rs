//! The reactive core of a dice roller with a single window.
//!
//! The window raises events; a dispatcher applies them, one at a time, to
//! the model that it owns, and answers each with the commands that bring
//! the window back in line with the model. A submitted expression is rolled
//! by a task of its own, whose completion comes back as one more event.
//!
//! - [`event`]: the events and the commands.
//! - [`model`]: the entry text and the history of rolls.
//! - [`dispatcher`]: what each event does to the model, and the commands it
//!   gives rise to.
//! - [`laws`]: what holds over whole runs of events.
//! - [`roll`]: the roll of one expression.
//! - [`notation`]: what the pieces of a formula write, and whether a
//!   formula can be carried out.

pub mod dispatcher;
pub mod event;
pub mod laws;
pub mod model;
pub mod notation;
pub mod roll;
