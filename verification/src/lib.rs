//! Vector clocks: logical time for events that several independent hosts
//! produce, and the causal order between two such times.

pub mod clock;
pub mod laws;
pub mod model;

pub use clock::{valid_host, TemporalRelation, VectorClock};
