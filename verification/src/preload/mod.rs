pub mod cache;
pub mod engine;
