pub mod control;
pub mod invocation;
pub mod module_cache;
pub mod request;
pub mod serving;
pub mod wasm_run;
