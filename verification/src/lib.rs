//! A single-host scheduler for GPU and Ascend devices.
pub mod auth;
pub mod cli;
pub mod daemon;
pub mod device;
pub mod display;
pub mod error;
pub mod executor;
pub mod model;
pub mod places;
pub mod scheduler;
pub mod storage;
pub mod table;
pub mod text;
pub mod tick;
