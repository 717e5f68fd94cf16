//! The always-available backend: one byte at a time, on every platform.

use crate::decode::decode_quads_scalar;
use crate::decode::Decoder;
use crate::decode::WriteQuadToSlice;
use crate::encode::encode_quads_scalar;
use crate::encode::Encoder;
use vstd::prelude::*;

verus! {

/// Encoder/decoder that works byte by byte on every platform, at the cost of
/// speed compared to the accelerated backends.
pub struct Scalar;

/// The scalar decoder hands numbers out one by one, so there is no quad to
/// unbundle; a quad of this type never reaches a sink.
pub struct UnusedQuad;

impl Decoder for Scalar {
    type DecodedQuad = UnusedQuad;

    open spec fn quad_nums(quad: Self::DecodedQuad) -> Seq<u32> {
        Seq::empty()
    }

    // Besides the trait's promises: every requested quad is decoded, up to
    // the cap — there is no safety margin here.
    fn decode_quads(
        control_bytes: &[u8],
        encoded_nums: &[u8],
        output: &mut Vec<u32>,
        out_start: usize,
        max_control_bytes: usize,
    ) -> (r: (usize, usize))
        ensures
            r.0 == 4 * (if max_control_bytes <= control_bytes@.len() {
                max_control_bytes as int
            } else {
                control_bytes@.len() as int
            }),
    {
        decode_quads_scalar(control_bytes, encoded_nums, output, out_start, max_control_bytes)
    }
}

impl WriteQuadToSlice for Scalar {
    // The scalar decoder produces no quads, so there is nothing to write.
    fn write_quad_to_slice(_quad: Self::DecodedQuad, _output: &mut Vec<u32>, _at: usize) {
    }
}

impl Encoder for Scalar {
    // Besides the trait's promises: every provided quad is encoded, never
    // fewer.
    fn encode_quads(
        input: &[u32],
        out: &mut Vec<u8>,
        control_start: usize,
        control_count: usize,
        values_start: usize,
    ) -> (r: (usize, usize))
        ensures
            r.0 == 4 * control_count,
    {
        let ilen = input.len();
        proof {
            assert(4 * control_count <= ilen);
        }
        let bytes_written = encode_quads_scalar(
            input,
            0,
            control_count,
            out,
            control_start,
            values_start,
        );
        proof {
            vstd::arithmetic::div_mod::lemma_fundamental_div_mod_converse(
                4 * control_count as int,
                4,
                control_count as int,
                0,
            );
        }
        (4 * control_count, bytes_written)
    }
}

} // verus!
