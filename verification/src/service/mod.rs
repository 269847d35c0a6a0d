pub mod controller;
pub mod invocation;
pub mod orchestrator;
pub mod process;
