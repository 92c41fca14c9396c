//! Peer session and message-broadcast engine of a clipboard synchroniser.
//!
//! The crate holds the decisions of the engine as verified functions on plain
//! values: the identity of a peer, the registry of live sessions, the fan-out
//! of one clipboard change and the pruning of peers that failed, the handling
//! of inbound bytes, the reaction to discovery events, and the polling state
//! machine that decides when a local change is worth a broadcast. Transport,
//! clipboard access and notification delivery are left to the caller, which
//! performs the actions these functions return and reports back what happened.

pub mod content;
pub mod detector;
pub mod hex;
pub mod inbound;
pub mod json;
pub mod manager;
pub mod peer;
pub mod registry;
pub mod text;
pub mod ticket;
pub mod wire;
