//! Encoder for multi-step token-swap arbitrage routes.
//!
//! The library turns a structured request (an initial amount, a minimum-profit
//! threshold, and an ordered list of swap steps) into the fixed-layout byte
//! payload that the on-chain consumer expects: two 16-byte big-endian integer
//! fields followed by one 21-byte record per step (a selector byte and a
//! 20-byte pool address).

pub mod address;
pub mod encoder;

pub use address::decode_address;
pub use address::AddressError;
pub use encoder::encode_arbitrage_request;
