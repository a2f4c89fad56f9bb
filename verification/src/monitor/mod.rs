pub mod metrics;
pub mod process;
