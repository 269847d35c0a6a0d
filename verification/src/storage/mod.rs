pub mod object_path;
pub mod storage;
