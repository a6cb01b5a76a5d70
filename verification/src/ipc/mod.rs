//! Kernel objects and the messages and memory that processes share through them.
pub mod access_laws;
pub mod channel;
pub mod handle;
pub mod laws;
pub mod object;
pub mod shm;
pub mod space;
pub mod types;
pub mod wait;
