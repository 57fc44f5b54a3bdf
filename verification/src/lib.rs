//! A simulator of digital logic circuits: components wired pin to pin, over the three signals
//! `Low`, `High` and `Invalid`.
//!
//! The host builds a circuit in a [`Simulator`]: it inserts [`Component`]s, connects their
//! pins, which are addressed by [`RegisteredPin`], and sets the signals of the inputs. A
//! [`Simulator::tick`] then pulls the signal of every output back through the wires, and the
//! host reads what has settled.
//!
//! What a circuit is and what settles on each of its pins is defined in [`circuit`], on the
//! mathematical model [`Circuit`]; [`gates`] and [`refresh`] hold what follows from it for
//! single components and for a whole tick. The contracts of the simulator are stated over
//! that model.

pub mod cache;
pub mod circuit;
pub mod component;
pub mod error;
pub mod gates;
pub mod lists;
pub mod pin;
pub mod pin_map;
pub mod refresh;
pub mod signal;
pub mod simulator;

pub use cache::PinCache;
pub use circuit::Circuit;
pub use component::Component;
pub use error::SimError;
pub use pin::{ComponentHandle, RegisteredPin};
pub use pin_map::PinMap;
pub use signal::State;
pub use simulator::Simulator;
