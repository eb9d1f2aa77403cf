//! A deterministic discrete-event simulation kernel.
//!
//! A simulation is described by *events* (discrete state mutations at chosen
//! times) and *predictions* (events scheduled by other events as they become
//! inevitable). The steward advances simulated time by executing the earliest
//! pending event, answers queries from stable snapshots of any past or present
//! moment, and yields identical results whenever it is fed identical inputs.

pub mod api;
pub mod bouncy;
pub mod common;
pub mod ids;
pub mod integer_math;
pub mod serialization;
pub mod simple_full;
pub mod simple_timeline;
