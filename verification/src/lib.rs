//! Encode and decode sequences of `u32` with the Stream VByte format.
//!
//! The format keeps, for each number, only its low-order bytes (one to four of
//! them, little-endian), and stores the per-number byte counts apart from the
//! value bytes: one control byte per group of four numbers (a *quad*), each of
//! its four two-bit lanes holding `length - 1`. An encoded stream is the
//! control bytes followed by the value bytes; the element count travels out of
//! band.

pub mod model;
pub mod decode;
pub mod encode;
pub mod scalar;
pub mod tables;

pub use decode::cursor::DecodeCursor;
pub use decode::decode;
pub use decode::Decoder;
pub use encode::encode;
pub use encode::Encoder;
pub use scalar::Scalar;

use vstd::prelude::*;

verus! {

/// How `count` numbers are laid out in an encoded stream.
#[derive(Debug, PartialEq, Eq, Structural)]
pub struct EncodedShape {
    /// One control byte per quad, the trailing partial quad included.
    pub control_bytes_len: usize,
    /// Control bytes whose four lanes are all used.
    pub complete_control_bytes_len: usize,
    /// Numbers in the trailing partial quad: 0 to 3.
    pub leftover_numbers: usize,
}

/// Compute the layout of the encoding of `count` numbers.
pub fn encoded_shape(count: usize) -> (shape: EncodedShape)
    requires
        count + 3 <= usize::MAX,
    ensures
        shape.control_bytes_len == model::control_len(count as int),
        shape.complete_control_bytes_len == count as int / 4,
        shape.leftover_numbers == count as int % 4,
        shape.control_bytes_len <= count,
{
    EncodedShape {
        control_bytes_len: (count + 3) / 4,
        complete_control_bytes_len: count / 4,
        leftover_numbers: count % 4,
    }
}

/// Total number of value bytes that the given control bytes describe.
pub fn cumulative_encoded_len(control_bytes: &[u8]) -> (len: usize)
    requires
        model::ctrl_prefix_len(control_bytes@, control_bytes@.len() as int) <= usize::MAX,
    ensures
        len == model::ctrl_prefix_len(control_bytes@, control_bytes@.len() as int),
{
    let n = control_bytes.len();
    let mut total: usize = 0;
    let mut i: usize = 0;
    while i < n
        invariant
            0 <= i <= n,
            n == control_bytes@.len(),
            total == model::ctrl_prefix_len(control_bytes@, i as int),
            model::ctrl_prefix_len(control_bytes@, n as int) <= usize::MAX,
        decreases n - i,
    {
        proof {
            model::lemma_ctrl_prefix_mono(control_bytes@, i + 1, n as int);
        }
        let c = control_bytes[i];
        total = total + tables::decode_length_per_quad(c);
        i = i + 1;
    }
    total
}

} // verus!
