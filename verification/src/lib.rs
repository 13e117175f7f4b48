//! Table-driven coding of byte sequences as unbounded integer keys.
pub mod key;
pub mod spread;
pub mod alphabet;
pub mod encoding;
pub mod probability;
pub mod laws;
pub mod rendering;
