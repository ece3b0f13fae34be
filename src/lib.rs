//! A columnar binary codec for sequences, with a bit-packed codec for booleans.
//!
//! Every encoder keeps a model of what it holds (`values`) and of the bytes it
//! will emit (`pending`); every decoder keeps a model of what is left to read
//! (`remaining`). The contracts of the traits in [`coder`] tie these together,
//! and [`laws`] proves that decoding what was encoded gives the values back.

mod error;
pub mod coder;
pub mod cow;
pub mod pack;
pub mod length;
pub mod primitive;
pub mod bool;
pub mod vec;
pub mod laws;

pub use error::Error;
pub use coder::{Buffer, Encoder, View, Decoder, MAX_VECTORED_CHUNK};
pub use bool::{BoolEncoder, BoolDecoder};
pub use vec::{VecEncoder, VecDecoder, copy_nonoverlapping_unaligned};
pub use primitive::{U8Encoder, U8Decoder};
pub use length::{LengthEncoder, LengthDecoder};
