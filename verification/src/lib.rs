//! Datagram encryption for voice traffic: AES-128 in offset codebook mode, a
//! nonce that is transmitted as a single byte, and the bookkeeping that goes
//! with datagrams which get lost, delayed or repeated.

pub mod block;
pub mod buffer;
pub mod cipher;
pub mod clock;
pub mod crypt;
pub mod entropy;
pub mod error;
pub mod laws;
pub mod metrics;
pub mod model;
pub mod ocb;
pub mod order;
pub mod window;
