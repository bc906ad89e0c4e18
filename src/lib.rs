//! Base-116 text encoding of binary data: blocks of six bytes become seven
//! symbols of a 116-character alphabet, with an optional marker pair that
//! frames an encoded payload.
pub mod alphabet;
pub mod block;
pub mod codec;
pub mod lemmas;
pub mod stream;
