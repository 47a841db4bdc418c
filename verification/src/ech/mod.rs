//! Key material for Encrypted Client Hello (ECH): the wire format of
//! configurations, PEM key files and the output of key generation.

pub mod config;
pub mod key;
pub mod keydir;
pub mod keygen;
pub mod pem;
