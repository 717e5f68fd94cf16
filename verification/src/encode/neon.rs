//! A quad-at-a-time encoder with the access pattern of the wide-register
//! kernels: one sixteen-byte store per quad (payload first, zeros after), so
//! it stops three control bytes before the end and leaves the rest to the
//! scalar encoder.

use crate::encode::encode_quads_scalar;
use crate::encode::Encoder;
use crate::model;
use vstd::prelude::*;

verus! {

/// Encoder that stores sixteen bytes per quad and therefore encodes only
/// `control_count - 3` quads (none when three or fewer are asked for).
pub struct NeonEncoder;

/// Write zeroes at `start..end`.
fn zero_fill(out: &mut Vec<u8>, start: usize, end: usize)
    requires
        start <= end <= old(out)@.len(),
    ensures
        final(out)@.len() == old(out)@.len(),
        forall|i: int| start <= i < end ==> final(out)@[i] == 0u8,
        forall|i: int|
            0 <= i < old(out)@.len() && !(start <= i < end) ==> final(out)@[i] == old(out)@[i],
{
    let mut z = start;
    while z < end
        invariant
            start <= z <= end <= out@.len(),
            out@.len() == old(out)@.len(),
            forall|i: int| start <= i < z ==> out@[i] == 0u8,
            forall|i: int|
                0 <= i < old(out)@.len() && !(start <= i < z) ==> out@[i] == old(out)@[i],
        decreases end - z,
    {
        out[z] = 0;
        z = z + 1;
    }
}

impl Encoder for NeonEncoder {
    // Besides the trait's promises: exactly `control_count - 3` quads are
    // encoded (none when three or fewer are asked for).
    fn encode_quads(
        input: &[u32],
        out: &mut Vec<u8>,
        control_start: usize,
        control_count: usize,
        values_start: usize,
    ) -> (r: (usize, usize))
        ensures
            r.0 == 4 * (if control_count > 3 {
                control_count - 3
            } else {
                0
            }),
    {
        let ghost xs = input@;
        let ilen = input.len();
        let olen = out.len();
        let limit = if control_count > 3 {
            control_count - 3
        } else {
            0
        };
        let mut bytes_written: usize = 0;
        let mut q: usize = 0;
        proof {
            model::lemma_value_range_bounds(xs, 0, 4 * control_count as int);
        }
        while q < limit
            invariant
                0 <= q <= limit,
                limit <= control_count,
                control_count > 3 ==> limit == control_count - 3,
                control_count <= 3 ==> limit == 0,
                xs == input@,
                4 * control_count <= xs.len(),
                xs.len() == ilen,
                control_start + control_count <= values_start,
                values_start + 16 * control_count <= out@.len(),
                out@.len() == old(out)@.len(),
                out@.len() == olen,
                bytes_written == model::value_range(xs, 0, 4 * q).len(),
                bytes_written <= 16 * q,
                forall|i: int|
                    control_start <= i < control_start + q ==> out@[i] == model::quad_control(
                        xs,
                        i - control_start,
                    ),
                forall|i: int|
                    values_start <= i < values_start + bytes_written ==> out@[i]
                        == model::value_range(xs, 0, 4 * q)[i - values_start],
                forall|i: int|
                    0 <= i < old(out)@.len() && !(control_start <= i < control_start + q) && !(
                    values_start <= i < values_start + model::value_range(
                        xs,
                        0,
                        4 * control_count as int,
                    ).len()) ==> out@[i] == old(out)@[i],
            decreases limit - q,
        {
            proof {
                model::lemma_value_window(xs, q as int, control_count as int);
                model::lemma_value_range_concat(xs, 0, 4 * q, 4 * q + 4);
                model::lemma_value_range_concat(
                    xs,
                    0,
                    4 * q + 4,
                    4 * control_count as int,
                );
                model::lemma_value_range_bounds(xs, 0, 4 * q);
                model::lemma_value_range_bounds(xs, 4 * q, 4 * q + 4);
                vstd::arithmetic::div_mod::lemma_fundamental_div_mod_converse(4 * q as int, 4, q as int, 0);
            }
            let b = encode_quads_scalar(
                input,
                4 * q,
                1,
                out,
                control_start + q,
                values_start + bytes_written,
            );
            zero_fill(
                out,
                values_start + bytes_written + b,
                values_start + bytes_written + 16,
            );
            bytes_written = bytes_written + b;
            q = q + 1;
        }
        proof {
            vstd::arithmetic::div_mod::lemma_fundamental_div_mod_converse(
                4 * limit as int,
                4,
                limit as int,
                0,
            );
        }
        (4 * limit, bytes_written)
    }
}

} // verus!
