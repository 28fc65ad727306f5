//! Phyllotaxis: the integer and text logic of a polyphonic instrument, verified.

pub mod tuning;
pub mod gcd;
pub mod signature;
pub mod text;
pub mod word;
pub mod phi;
pub mod delays;
pub mod patch;
pub mod chat;
pub mod relay;
pub mod pool;
pub mod leading;
pub mod engine;
