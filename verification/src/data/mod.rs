pub mod alerts;
pub mod aws;
pub mod packs;
pub mod sounding;
