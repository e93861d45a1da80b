//! Recovery of plaintexts for a 32-bit FNV-1 hash by exhaustive enumeration
//! of a structured candidate space: a fixed lowercased prefix, one alphabet
//! entry, and a zero-padded decimal suffix of fixed width.
//!
//! `hash` holds the streaming hash and its continuation law, `digits` the
//! fixed-width decimal rendering, `space` the configuration and the derived
//! enumeration bounds, and `search` the enumerator itself.

pub mod digits;
pub mod hash;
pub mod search;
pub mod space;
