pub mod arena;
pub mod limiter;
