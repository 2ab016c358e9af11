pub mod api;
pub mod codec;
pub mod errors;
pub mod index;
pub mod kv;
pub mod kv_log;
pub mod protocol;
pub mod segname;
