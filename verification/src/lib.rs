//! Exchange of short text commands with another local process over a
//! kernel-managed, capability-based message channel.
//!
//! The core is the protocol engine: the wire codec (nul-separated tokens,
//! double-nul terminated), the service registry with its process-wide cached
//! endpoint, the synchronous request/reply messenger over ephemeral reply
//! endpoints, and the server receive loop.  The engine is verified against an
//! in-process model of the host's channel facility; the thin process edge
//! drives the same decisions against the host's real facility.

pub mod codec;
pub mod env;
pub mod messenger;
pub mod ports;
pub mod registry;
pub mod server;
