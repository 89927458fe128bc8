//! A small layout language for reading the bytes of a buffer as typed values.
//!
//! Text such as `20b5Bb B` is parsed into a list of field descriptors, each a scalar kind with a
//! repeat count; the list is rendered back to text, and decoded against a byte buffer into the
//! decimal text of each value.
pub mod kind;
pub mod text;
pub mod grammar;
pub mod hexdump;
pub mod decoder;
