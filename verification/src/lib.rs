//! An I/O-free engine for a message-oriented, multi-streamed transport
//! protocol in the style of SCTP.
//!
//! Nothing in this crate owns a socket or reads a clock. Datagrams, timestamps
//! and user requests flow in through method calls; datagrams, timer deadlines
//! and events flow out through `poll_*` methods. Every executable function is
//! verified against the contract written in its signature, but for the few in
//! `buffer`, `random` and `tables` that call into other crates: their
//! contracts are believed, and each says what it takes on trust.

pub mod association;
pub mod buffer;
pub mod chunk;
pub mod config;
pub mod congestion;
pub mod endpoint;
pub mod error;
pub mod inflight;
pub mod model;
pub mod packet;
pub mod param;
pub mod random;
pub mod reassembly;
pub mod receiver;
pub mod round_trip;
pub mod rto;
pub mod serial;
pub mod shared;
pub mod state;
pub mod stream;
pub mod tables;
pub mod timer;
pub mod wire;
