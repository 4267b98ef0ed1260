//! A minimal DNS client core: domain-name wire encoding and decoding with
//! compression pointers, construction of single-question A-record queries,
//! validation and decoding of response messages, and the decisions of a
//! one-request resolver. Sockets, timers and terminals are left to the caller.
//!
//! The modules whose names end in `_laws` hold no code that runs: they state
//! and prove what holds of the others for every input.

pub mod buffer;
pub mod error;
pub mod exchange_laws;
pub mod message;
pub mod name;
pub mod name_laws;
pub mod pending;
pub mod query;
pub mod resolver;
pub mod response;
pub mod response_laws;
pub mod scheme;
