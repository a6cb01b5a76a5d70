//! Capabilities: who may do what with which object, and where that authority came from.
pub mod exit;
pub mod laws;
pub mod node;
pub mod ops;
pub mod revoke;
pub mod sharing_laws;
pub mod transfer;
pub mod tree;
pub mod types;
