//! Reversal of text lines over a session protocol that runs on datagrams.

pub mod behaviour;
pub mod client;
pub mod message;
pub mod server;
pub mod spelling;
