//! Reversible text obfuscation by chunk shuffling: a text becomes a set of
//! fixed-length hexadecimal strings that look like hash digests, and a key
//! puts them back together.

pub mod pcg;
pub mod text;
pub mod codec;

pub use codec::{Bananapeel, DecodeFailure, Key};
pub use pcg::Pcg;
