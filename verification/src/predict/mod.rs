pub mod autoscan;
pub mod convert;
