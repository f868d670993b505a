//! A covert data channel tunneled through DNS queries.
//!
//! A payload is split into chunks, each chunk is rendered as a DNS label in a
//! case-insensitive alphabet, and the labels travel inside dot-separated query
//! names that carry a small verb protocol (upload / download / close).  An
//! authoritative responder keeps a per-session fragment store, answers tunnel
//! queries, and forwards everything else upstream.
//!
//! The crate holds the protocol logic: the label codec, the query naming
//! scheme, the session store, the request router, and the client transfer
//! engine.  Network and file I/O stay outside, handing plain byte vectors in
//! and out.

pub mod codec;
pub mod engine;
pub mod naming;
pub mod router;
pub mod store;
pub mod text;
