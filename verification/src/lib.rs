//! A low-overhead measurement instrument: a streaming approximate histogram
//! of unsigned integer samples (microsecond latencies in practice) with a
//! fixed memory footprint, together with a measurement loop that feeds it one
//! timed interval per step and stops on an iteration-count or wall-clock
//! condition.

pub mod hist;
pub mod laws;
pub mod bench;
pub mod strfmt;

pub use hist::Data;
pub use bench::Benchy;
