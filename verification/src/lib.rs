//! Radar viewer core: verified data handling for the NexView NEXRAD viewer.

pub mod controls;
pub mod data;
pub mod export;
pub mod nexrad;
pub mod predict;
pub mod preload;
pub mod render;
pub mod text;
pub mod timeline;
pub mod viewer;
