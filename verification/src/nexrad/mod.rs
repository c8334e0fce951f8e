pub mod detection;
