//! A toy shop behind an improvised cipher: each connection says first how its bytes are disguised.

pub mod cipher;
pub mod session;
pub mod toys;
