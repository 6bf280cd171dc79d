//! Safe, verified core of a wrapper around a native virtual network adapter
//! driver for an encrypted tunnel: the binary configuration codec, the
//! adapter lifecycle rules and the log record bridge.

pub mod adapter;
pub mod codec;
pub mod log;
