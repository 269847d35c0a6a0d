//! A small dispatcher that runs WebAssembly services in runner processes.

pub mod guest;
pub mod module_queue;
pub mod network;
pub mod runner;
pub mod service;
pub mod storage;
pub mod text;
pub mod wasm;
pub mod wire;
