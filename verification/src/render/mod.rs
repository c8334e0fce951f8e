pub mod map;
pub mod skewt;
pub mod warnings;
