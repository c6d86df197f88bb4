//! Peer-discovery and transport-resilience layer of an identity-addressed
//! overlay network: signed `Locator` records that say where a node can be
//! reached, and per-endpoint `Path` state that reassembles fragmented
//! packets under adversarial load and classifies link liveness.

pub mod address;
pub mod codec;
pub mod endpoint;
pub mod fragment;
pub mod hasher;
pub mod identity;
pub mod locator;
pub mod path;
