//! The decision core of a MASQUE CONNECT-UDP proxy and client.

pub mod addr;
pub mod authority;
pub mod base64;
pub mod batch;
pub mod bytemap;
pub mod bytes;
pub mod client;
pub mod dgram;
pub mod ech;
pub mod endpoint;
pub mod flow;
pub mod quic;
pub mod random;
pub mod relay;
pub mod reload;
pub mod request;
pub mod rules;
pub mod server;
pub mod template;
pub mod text;
pub mod timer;
pub mod tunnel;
pub mod util;
pub mod varint;
