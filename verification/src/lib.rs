//! Decision core of a Wiegand-based door access controller.
//!
//! The crate verifies the logic of the device: the signal decoder that
//! turns captured line transitions into classified packets, the access
//! session that assembles PIN entries and decides on entry, the credential
//! store, and the door controller that coalesces unlock triggers.

pub mod config;
pub mod door;
pub mod network;
pub mod remote;
pub mod session;
pub mod user;
pub mod wiegand;
