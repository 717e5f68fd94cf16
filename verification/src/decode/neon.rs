//! A quad-at-a-time decoder with the access pattern of the wide-register
//! kernels: each quad's value bytes are taken from a sixteen-byte window, so
//! the last three control bytes are left to the scalar decoder. A short
//! enough request decodes everything asked for, because unprocessed input
//! keeps the window in bounds.

use crate::decode::decode_quads_scalar;
use crate::decode::Decoder;
use crate::decode::WriteQuadToSlice;
use crate::model;
use vstd::prelude::*;
use vstd::slice::slice_subrange;

verus! {

/// Decoder that reads sixteen bytes per quad and therefore decodes at most
/// `control_bytes.len() - 3` quads per call.
pub struct NeonDecoder;

impl Decoder for NeonDecoder {
    type DecodedQuad = (u32, u32, u32, u32);

    open spec fn quad_nums(quad: Self::DecodedQuad) -> Seq<u32> {
        seq![quad.0, quad.1, quad.2, quad.3]
    }

    // Besides the trait's promises: exactly `min(max_control_bytes,
    // control_bytes.len() - 3)` quads are decoded — the three-quad margin
    // caps every call.
    fn decode_quads(
        control_bytes: &[u8],
        encoded_nums: &[u8],
        output: &mut Vec<u32>,
        out_start: usize,
        max_control_bytes: usize,
    ) -> (r: (usize, usize))
        ensures
            r.0 == 4 * ({
                let cap = if control_bytes@.len() > 3 {
                    control_bytes@.len() as int - 3
                } else {
                    0
                };
                if max_control_bytes <= cap {
                    max_control_bytes as int
                } else {
                    cap
                }
            }),
    {
        let ghost ctrl = control_bytes@;
        let clen = control_bytes.len();
        let cap = if clen > 3 {
            clen - 3
        } else {
            0
        };
        let head = slice_subrange(control_bytes, 0, cap);
        proof {
            let m1 = if max_control_bytes <= clen {
                max_control_bytes as int
            } else {
                clen as int
            };
            let m2 = if max_control_bytes <= cap {
                max_control_bytes as int
            } else {
                cap as int
            };
            model::lemma_ctrl_prefix_agree(head@, ctrl, m2);
            model::lemma_ctrl_prefix_mono(ctrl, m2, m1);
        }
        let r = decode_quads_scalar(head, encoded_nums, output, out_start, max_control_bytes);
        proof {
            let k = r.0 as int / 4;
            model::lemma_ctrl_prefix_agree(head@, ctrl, k);
            assert forall|i: int|
                out_start <= i < out_start + r.0 implies output@[i] == model::decoded_num(
                ctrl,
                encoded_nums@,
                i - out_start,
            ) by {
                model::lemma_decoded_num_agree(head@, ctrl, encoded_nums@, i - out_start);
            }
        }
        r
    }
}

impl WriteQuadToSlice for NeonDecoder {
    fn write_quad_to_slice(quad: Self::DecodedQuad, output: &mut Vec<u32>, at: usize) {
        let _olen = output.len();
        output[at] = quad.0;
        output[at + 1] = quad.1;
        output[at + 2] = quad.2;
        output[at + 3] = quad.3;
    }
}

} // verus!
