//! A small request/response TCP service: the wire format of its two envelopes,
//! the handling of one request, and the decisions of the accept loop, the
//! connection workers and the start/stop lifecycle.

pub mod wire;
pub mod message;
pub mod lifecycle;
pub mod service;
