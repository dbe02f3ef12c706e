//! Verified cores of a family of small network services.

pub mod addresses;
pub mod bytes;
pub mod chat;
pub mod database;
pub mod insecure_sockets;
pub mod integers;
pub mod line_reversal;
pub mod prices;
pub mod primes;
pub mod speed_daemon;
pub mod text;
