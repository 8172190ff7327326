//! Power draw of an AMD CPU's package and physical cores, from the energy
//! counters of its model-specific registers sampled twice over an interval.
pub mod msr;
pub mod power;
pub mod text;
pub mod topology;
