//! The decision logic of a small content delivery network.

pub mod binary64;
pub mod cache;
pub mod control;
pub mod dns;
pub mod edge;
pub mod edge_laws;
pub mod metric_id;
pub mod origin;
pub mod singleflight;
pub mod steering;
pub mod steering_laws;
pub mod telemetry;
pub mod text;
pub mod traffic;
pub mod wait;
