//! Enforcement of average speed limits: cameras report number plates, and dispatchers get tickets.

pub mod client;
pub mod dispatchers;
pub mod history;
pub mod message;
pub mod ticketing;
