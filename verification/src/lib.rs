//! An event-driven automation runtime: inbound events are routed through an
//! ordered, dynamically reconfigurable set of named rules; rules mutate a
//! small persistent key/value memory and emit outbound messages, which are
//! fanned out to independent consumers.

#![verifier::loop_isolation(false)]

pub mod broadcast;
pub mod bytestr;
pub mod codec;
pub mod data;
pub mod engine;
pub mod memory;
pub mod registry;
pub mod ruleset;
pub mod runtime;
