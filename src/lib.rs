//! A discrete-time simulator of a uniprocessor scheduling a fixed population of
//! processes across one compute device and two I/O devices.

pub mod process;
pub mod scheduler;
pub mod laws;
pub mod driver;
pub mod workload;
