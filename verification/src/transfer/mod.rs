//! Typed, chunked transfers on top of the acoustic link frames.

pub mod codec;
pub mod delivery;
pub mod digest;
pub mod geometry;
pub mod metadata;
pub mod packet;
pub mod receiver;
pub mod receiver_laws;
pub mod sender;
pub mod types;
