//! A single participant in a gossip-style broadcast protocol: the node keeps
//! a set of delivered values, a neighbor topology, and per-peer knowledge of
//! which values each peer has already seen, and answers every inbound
//! envelope with a fully specified list of outbound envelopes.

pub mod broadcast;
pub mod collections;
pub mod echo;
pub mod id_generator;
pub mod json;
pub mod laws;
pub mod message_processor;
pub mod msg_protocol;
