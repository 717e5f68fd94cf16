//! Per-control-byte length information: the lane lengths and the quad total
//! that a control byte describes.

use crate::model;
use vstd::prelude::*;

verus! {

/// The four lane lengths of control byte `c`, each between 1 and 4.
pub fn decode_length_per_num(c: u8) -> (r: (usize, usize, usize, usize))
    ensures
        r.0 == model::lane_len(c, 0),
        r.1 == model::lane_len(c, 1),
        r.2 == model::lane_len(c, 2),
        r.3 == model::lane_len(c, 3),
        1 <= r.0 <= 4 && 1 <= r.1 <= 4 && 1 <= r.2 <= 4 && 1 <= r.3 <= 4,
{
    ((c % 4 + 1) as usize, (c / 4 % 4 + 1) as usize, (c / 16 % 4 + 1) as usize, (c / 64 % 4
        + 1) as usize)
}

/// Total value bytes of the quad of control byte `c`: between 4 and 16.
pub fn decode_length_per_quad(c: u8) -> (r: usize)
    ensures
        r == model::quad_len(c),
        4 <= r <= 16,
{
    let (l0, l1, l2, l3) = decode_length_per_num(c);
    l0 + l1 + l2 + l3
}

} // verus!
