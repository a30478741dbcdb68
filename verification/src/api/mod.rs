pub mod config;
pub mod context;
pub mod rate;
pub mod by_gop;
pub mod channel;
pub mod pool;
