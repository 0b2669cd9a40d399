//! A packed world record with in-place list resizing, and the relay protocol
//! that fans a system's output out to component programs.

pub mod admin;
pub mod bytes;
pub mod error;
pub mod fee;
pub mod key;
pub mod layout;
pub mod relay;
pub mod state;
pub mod world;
