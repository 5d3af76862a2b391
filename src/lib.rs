pub mod config;
pub mod model;
pub mod affinity;
pub mod solution;
pub mod laws;
