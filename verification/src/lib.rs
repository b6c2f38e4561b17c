//! The peer-to-peer networking backend of a blockchain node, as a library of
//! decisions: what the backend does with each thing that reaches it, with
//! the proof that it keeps its books straight. Sockets, tasks and channels
//! are left to the caller.
//!
//! - `backend`: the books of the event loop and its steps.
//! - `lifecycle`, `ordering`: what holds of every run of the backend.
//! - `request_manager`: ephemeral ids for inbound requests.
//! - `service`: the two handles of the upper layers.
//! - `peer`, `framing`, `wire`: one connection; length-prefixed frames;
//!   messages as bytes.
//! - `types`, `message`, `error`: identifiers, messages, events, errors.
//! - `vrf`: key material of the Schnorr scheme over Ristretto.
//! - `transaction_verifier`, `tokens`, `consensus_data`, `primitives`:
//!   amounts moved by transactions, and block consensus data.

pub mod backend;
pub mod consensus_data;
pub mod error;
pub mod framing;
pub mod lifecycle;
pub mod message;
pub mod ordering;
pub mod peer;
pub mod primitives;
pub mod request_manager;
pub mod service;
pub mod tokens;
pub mod transaction_verifier;
pub mod types;
pub mod vrf;
pub mod wire;
