//! State and rules of a peer-to-peer file sharing application.

pub mod application;
pub mod bandwidth;
pub mod dialog;
pub mod display;
pub mod download;
pub mod message;
pub mod port;
pub mod server;
pub mod shared;
pub mod stamp;
pub mod transfer;
pub mod tree;
