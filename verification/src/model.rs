//! The mathematical model of the wire format: what the encoded bytes of a
//! sequence of numbers are, and what numbers a (control bytes, value bytes)
//! pair decodes to.

use vstd::arithmetic::div_mod::lemma_fundamental_div_mod;
use vstd::arithmetic::div_mod::lemma_fundamental_div_mod_converse;
use vstd::prelude::*;

verus! {

/// Number of low-order bytes kept for `v`: between 1 and 4, at least one even
/// for zero.
pub open spec fn byte_len(v: u32) -> int {
    if v < 0x100 {
        1
    } else if v < 0x10000 {
        2
    } else if v < 0x1000000 {
        3
    } else {
        4
    }
}

/// Byte `i` of the little-endian representation of `v`.
pub open spec fn le_byte(v: u32, i: int) -> u8 {
    if i == 0 {
        (v & 0xff) as u8
    } else if i == 1 {
        ((v >> 8) & 0xff) as u8
    } else if i == 2 {
        ((v >> 16) & 0xff) as u8
    } else {
        ((v >> 24) & 0xff) as u8
    }
}

/// The value bytes one number contributes to the stream: its low `byte_len(v)`
/// bytes, little-endian.
pub open spec fn num_bytes(v: u32) -> Seq<u8> {
    Seq::new(byte_len(v) as nat, |i: int| le_byte(v, i))
}

/// Two-bit code of the lane for number `i`: `byte_len - 1`, and zero for lanes
/// past the end of the sequence.
pub open spec fn lane_code(xs: Seq<u32>, i: int) -> int {
    if 0 <= i < xs.len() {
        byte_len(xs[i]) - 1
    } else {
        0
    }
}

/// Control byte of quad `q`: four two-bit lane codes, lane 0 in the two least
/// significant bits.
pub open spec fn quad_control(xs: Seq<u32>, q: int) -> u8 {
    (lane_code(xs, 4 * q) + 4 * lane_code(xs, 4 * q + 1) + 16 * lane_code(xs, 4 * q + 2) + 64
        * lane_code(xs, 4 * q + 3)) as u8
}

/// Number of control bytes for `count` numbers: one per quad, rounded up.
pub open spec fn control_len(count: int) -> int {
    (count + 3) / 4
}

/// The control region of the encoding of `xs`.
pub open spec fn control_seq(xs: Seq<u32>) -> Seq<u8> {
    Seq::new(control_len(xs.len() as int) as nat, |q: int| quad_control(xs, q))
}

/// The value region of the encoding of `xs`: each number's kept bytes,
/// concatenated without padding.
pub open spec fn value_seq(xs: Seq<u32>) -> Seq<u8>
    decreases xs.len(),
{
    if xs.len() == 0 {
        Seq::empty()
    } else {
        num_bytes(xs[0]) + value_seq(xs.skip(1))
    }
}

/// The whole encoding: control region followed by value region.
pub open spec fn encoded(xs: Seq<u32>) -> Seq<u8> {
    control_seq(xs) + value_seq(xs)
}

/// Length (1 to 4) stored in lane `lane` of control byte `c`.
pub open spec fn lane_len(c: u8, lane: int) -> int {
    (c as int / if lane == 0 {
        1
    } else if lane == 1 {
        4
    } else if lane == 2 {
        16
    } else {
        64
    }) % 4 + 1
}

/// Total value bytes of the quad with control byte `c`: between 4 and 16.
pub open spec fn quad_len(c: u8) -> int {
    lane_len(c, 0) + lane_len(c, 1) + lane_len(c, 2) + lane_len(c, 3)
}

/// Total value bytes of the first `k` control bytes.
pub open spec fn ctrl_prefix_len(ctrl: Seq<u8>, k: int) -> int
    decreases k,
{
    if k <= 0 {
        0
    } else {
        ctrl_prefix_len(ctrl, k - 1) + quad_len(ctrl[k - 1])
    }
}

/// Value bytes of lanes `0..lane` of control byte `c`.
pub open spec fn lane_prefix(c: u8, lane: int) -> int
    decreases lane,
{
    if lane <= 0 {
        0
    } else {
        lane_prefix(c, lane - 1) + lane_len(c, lane - 1)
    }
}

/// Offset into the value region at which the bytes of number `n` start; for
/// `n == count` this is the total length of the value region.
pub open spec fn num_offset(ctrl: Seq<u8>, n: int) -> int {
    ctrl_prefix_len(ctrl, n / 4) + lane_prefix(ctrl[n / 4], n % 4)
}

/// A `u32` assembled from four little-endian bytes.
pub open spec fn u32_from_bytes(b0: u8, b1: u8, b2: u8, b3: u8) -> u32 {
    (b0 as u32) | (b1 as u32) << 8 | (b2 as u32) << 16 | (b3 as u32) << 24
}

/// Byte `i` of `s`, or zero out of range.
pub open spec fn byte_at(s: Seq<u8>, i: int) -> u8 {
    if 0 <= i < s.len() {
        s[i]
    } else {
        0
    }
}

/// The number encoded by the `len` bytes at `off`, zero-extended to 32 bits.
pub open spec fn le_num(vals: Seq<u8>, off: int, len: int) -> u32 {
    u32_from_bytes(
        if len >= 1 {
            byte_at(vals, off)
        } else {
            0
        },
        if len >= 2 {
            byte_at(vals, off + 1)
        } else {
            0
        },
        if len >= 3 {
            byte_at(vals, off + 2)
        } else {
            0
        },
        if len >= 4 {
            byte_at(vals, off + 3)
        } else {
            0
        },
    )
}

/// Number `n` of the stream described by `ctrl` and `vals`.
pub open spec fn decoded_num(ctrl: Seq<u8>, vals: Seq<u8>, n: int) -> u32 {
    le_num(vals, num_offset(ctrl, n), lane_len(ctrl[n / 4], n % 4))
}

/// The first `count` numbers of the stream described by `ctrl` and `vals`.
pub open spec fn decoded(ctrl: Seq<u8>, vals: Seq<u8>, count: int) -> Seq<u32> {
    Seq::new(count as nat, |n: int| decoded_num(ctrl, vals, n))
}

/// Sum of the byte lengths of the numbers of `xs`.
pub open spec fn total_byte_len(xs: Seq<u32>) -> int
    decreases xs.len(),
{
    if xs.len() == 0 {
        0
    } else {
        byte_len(xs[0]) + total_byte_len(xs.skip(1))
    }
}

/// Four two-bit codes packed into one byte read back unchanged.
proof fn lemma_pack_unpack(a0: int, a1: int, a2: int, a3: int)
    requires
        0 <= a0 < 4,
        0 <= a1 < 4,
        0 <= a2 < 4,
        0 <= a3 < 4,
    ensures
        ({
            let c = a0 + 4 * a1 + 16 * a2 + 64 * a3;
            &&& 0 <= c < 256
            &&& c % 4 == a0
            &&& (c / 4) % 4 == a1
            &&& (c / 16) % 4 == a2
            &&& (c / 64) % 4 == a3
        }),
{
    let c = a0 + 4 * a1 + 16 * a2 + 64 * a3;
    lemma_fundamental_div_mod_converse(c, 4, a1 + 4 * a2 + 16 * a3, a0);
    lemma_fundamental_div_mod_converse(a1 + 4 * a2 + 16 * a3, 4, a2 + 4 * a3, a1);
    lemma_fundamental_div_mod_converse(c, 16, a2 + 4 * a3, a0 + 4 * a1);
    lemma_fundamental_div_mod_converse(a2 + 4 * a3, 4, a3, a2);
    lemma_fundamental_div_mod_converse(c, 64, a3, a0 + 4 * a1 + 16 * a2);
    lemma_fundamental_div_mod_converse(a3, 4, 0, a3);
}

/// Each lane of a quad's control byte stores that number's byte length.
pub proof fn lemma_control_lanes(xs: Seq<u32>, q: int, r: int)
    requires
        0 <= q,
        0 <= r < 4,
    ensures
        lane_len(quad_control(xs, q), r) == lane_code(xs, 4 * q + r) + 1,
{
    let a0 = lane_code(xs, 4 * q);
    let a1 = lane_code(xs, 4 * q + 1);
    let a2 = lane_code(xs, 4 * q + 2);
    let a3 = lane_code(xs, 4 * q + 3);
    lemma_pack_unpack(a0, a1, a2, a3);
}

/// The value region of a concatenation is the concatenation of the value
/// regions.
pub proof fn lemma_value_seq_concat(a: Seq<u32>, b: Seq<u32>)
    ensures
        value_seq(a + b) == value_seq(a) + value_seq(b),
    decreases a.len(),
{
    if a.len() == 0 {
        assert(a + b =~= b);
        assert(value_seq(a) + value_seq(b) =~= value_seq(b));
    } else {
        assert((a + b).skip(1) =~= a.skip(1) + b);
        lemma_value_seq_concat(a.skip(1), b);
        assert((a + b)[0] == a[0]);
        assert(num_bytes(a[0]) + (value_seq(a.skip(1)) + value_seq(b)) =~= (num_bytes(a[0])
            + value_seq(a.skip(1))) + value_seq(b));
    }
}

/// Extending a prefix by one number appends that number's bytes.
pub proof fn lemma_value_seq_snoc(xs: Seq<u32>, n: int)
    requires
        0 <= n < xs.len(),
    ensures
        value_seq(xs.take(n + 1)) == value_seq(xs.take(n)) + num_bytes(xs[n]),
{
    assert(xs.take(n + 1) =~= xs.take(n) + seq![xs[n]]);
    lemma_value_seq_concat(xs.take(n), seq![xs[n]]);
    assert(seq![xs[n]].skip(1) =~= Seq::<u32>::empty());
    assert(value_seq(Seq::<u32>::empty()) == Seq::<u8>::empty());
    assert(value_seq(seq![xs[n]]) == num_bytes(xs[n]) + Seq::<u8>::empty());
    assert(num_bytes(xs[n]) + Seq::<u8>::empty() =~= num_bytes(xs[n]));
}

/// The value region takes between one and four bytes per number.
pub proof fn lemma_value_len_bounds(xs: Seq<u32>)
    ensures
        xs.len() <= value_seq(xs).len() <= 4 * xs.len(),
    decreases xs.len(),
{
    if xs.len() > 0 {
        lemma_value_len_bounds(xs.skip(1));
    }
}

/// The value region's length is the sum of the numbers' byte lengths.
pub proof fn lemma_value_len_is_total(xs: Seq<u32>)
    ensures
        value_seq(xs).len() == total_byte_len(xs),
    decreases xs.len(),
{
    if xs.len() > 0 {
        lemma_value_len_is_total(xs.skip(1));
    }
}

/// Consuming one more number advances the value offset by that lane's length.
pub proof fn lemma_num_offset_step(ctrl: Seq<u8>, n: int)
    requires
        0 <= n < 4 * ctrl.len(),
    ensures
        num_offset(ctrl, n + 1) == num_offset(ctrl, n) + lane_len(ctrl[n / 4], n % 4),
{
    lemma_fundamental_div_mod(n, 4);
    let q = n / 4;
    let r = n % 4;
    if r < 3 {
        lemma_fundamental_div_mod_converse(n + 1, 4, q, r + 1);
        assert(lane_prefix(ctrl[q], r + 1) == lane_prefix(ctrl[q], r) + lane_len(ctrl[q], r));
    } else {
        lemma_fundamental_div_mod_converse(n + 1, 4, q + 1, 0);
        let c = ctrl[q];
        assert(lane_prefix(c, 0) == 0);
        assert(lane_prefix(c, 1) == lane_len(c, 0));
        assert(lane_prefix(c, 2) == lane_prefix(c, 1) + lane_len(c, 1));
        assert(lane_prefix(c, 3) == lane_prefix(c, 2) + lane_len(c, 2));
        assert(ctrl_prefix_len(ctrl, q + 1) == ctrl_prefix_len(ctrl, q) + quad_len(ctrl[q]));
    }
}

/// Every lane length is between 1 and 4.
pub proof fn lemma_lane_len_bounds(c: u8, lane: int)
    ensures
        1 <= lane_len(c, lane) <= 4,
{
}

/// The value offset grows by one to four bytes per number.
pub proof fn lemma_num_offset_mono(ctrl: Seq<u8>, a: int, b: int)
    requires
        0 <= a <= b <= 4 * ctrl.len(),
    ensures
        num_offset(ctrl, a) + (b - a) <= num_offset(ctrl, b) <= num_offset(ctrl, a) + 4 * (b - a),
    decreases b - a,
{
    if a < b {
        lemma_num_offset_mono(ctrl, a, b - 1);
        lemma_num_offset_step(ctrl, b - 1);
        lemma_lane_len_bounds(ctrl[(b - 1) / 4], (b - 1) % 4);
    }
}

/// At quad boundaries the value offset is the control-prefix sum.
pub proof fn lemma_num_offset_quad(ctrl: Seq<u8>, k: int)
    requires
        0 <= k,
    ensures
        num_offset(ctrl, 4 * k) == ctrl_prefix_len(ctrl, k),
{
    lemma_fundamental_div_mod_converse(4 * k, 4, k, 0);
}

/// In the encoding of `xs`, number `n` starts right after the bytes of the
/// numbers before it.
pub proof fn lemma_num_offset_correct(xs: Seq<u32>, n: int)
    requires
        0 <= n <= xs.len(),
    ensures
        num_offset(control_seq(xs), n) == value_seq(xs.take(n)).len(),
    decreases n,
{
    let ctrl = control_seq(xs);
    if n == 0 {
        lemma_fundamental_div_mod_converse(0, 4, 0, 0);
        assert(value_seq(xs.take(0)) =~= Seq::<u8>::empty());
    } else {
        lemma_num_offset_correct(xs, n - 1);
        assert(4 * ctrl.len() >= xs.len()) by {
            lemma_fundamental_div_mod(xs.len() as int + 3, 4);
        }
        lemma_num_offset_step(ctrl, n - 1);
        lemma_fundamental_div_mod(n - 1, 4);
        lemma_control_lanes(xs, (n - 1) / 4, (n - 1) % 4);
        lemma_value_seq_snoc(xs, n - 1);
    }
}

/// Reassembling the little-endian bytes of `v` gives `v` back; bytes past its
/// byte length are zero.
proof fn lemma_le_bytes_rebuild(v: u32)
    ensures
        u32_from_bytes(le_byte(v, 0), le_byte(v, 1), le_byte(v, 2), le_byte(v, 3)) == v,
        byte_len(v) < 2 ==> le_byte(v, 1) == 0,
        byte_len(v) < 3 ==> le_byte(v, 2) == 0,
        byte_len(v) < 4 ==> le_byte(v, 3) == 0,
{
    let b0 = le_byte(v, 0);
    let b1 = le_byte(v, 1);
    let b2 = le_byte(v, 2);
    let b3 = le_byte(v, 3);
    assert(((b0 as u32) | (b1 as u32) << 8 | (b2 as u32) << 16 | (b3 as u32) << 24) == v && (v
        < 0x100 ==> b1 == 0) && (v < 0x10000 ==> b2 == 0) && (v < 0x1000000 ==> b3 == 0))
        by (bit_vector)
        requires
            b0 == (v & 0xff) as u8,
            b1 == ((v >> 8) & 0xff) as u8,
            b2 == ((v >> 16) & 0xff) as u8,
            b3 == ((v >> 24) & 0xff) as u8,
    ;
}

/// Decoding the encoding of `xs` at position `n` yields `xs[n]`.
proof fn lemma_decoded_num_of_encoding(xs: Seq<u32>, n: int)
    requires
        0 <= n < xs.len(),
    ensures
        decoded_num(control_seq(xs), value_seq(xs), n) == xs[n],
{
    let ctrl = control_seq(xs);
    let vals = value_seq(xs);
    let v = xs[n];
    let l = byte_len(v);
    lemma_fundamental_div_mod(n, 4);
    let q = n / 4;
    let r = n % 4;
    assert(q < ctrl.len()) by {
        lemma_fundamental_div_mod(xs.len() as int + 3, 4);
    }
    lemma_control_lanes(xs, q, r);
    assert(lane_len(ctrl[q], r) == l);
    lemma_num_offset_correct(xs, n);
    let off = num_offset(ctrl, n);
    // the bytes of `v` sit at `off`
    lemma_value_seq_snoc(xs, n);
    assert(xs.take(n + 1) + xs.skip(n + 1) =~= xs);
    lemma_value_seq_concat(xs.take(n + 1), xs.skip(n + 1));
    assert forall|i: int| 0 <= i < l implies byte_at(vals, off + i) == le_byte(v, i) by {
        assert(vals == (value_seq(xs.take(n)) + num_bytes(v)) + value_seq(xs.skip(n + 1)));
        assert(vals[off + i] == num_bytes(v)[i]);
    }
    lemma_le_bytes_rebuild(v);
}

/// The round-trip law: decoding an encoded sequence gives the sequence back.
pub proof fn lemma_round_trip(xs: Seq<u32>)
    ensures
        decoded(control_seq(xs), value_seq(xs), xs.len() as int) == xs,
{
    let d = decoded(control_seq(xs), value_seq(xs), xs.len() as int);
    assert forall|n: int| 0 <= n < xs.len() implies d[n] == xs[n] by {
        lemma_decoded_num_of_encoding(xs, n);
    }
    assert(d =~= xs);
}

/// The length law: an encoding is one control byte per started quad plus the
/// sum of the numbers' byte lengths.
pub proof fn lemma_encoded_len(xs: Seq<u32>)
    ensures
        encoded(xs).len() == control_len(xs.len() as int) + total_byte_len(xs),
{
    lemma_value_len_is_total(xs);
}

/// The value bytes of the numbers `a..b` of `xs`.
pub open spec fn value_range(xs: Seq<u32>, a: int, b: int) -> Seq<u8> {
    value_seq(xs.subrange(a, b))
}

/// A value range splits at any interior point.
pub proof fn lemma_value_range_concat(xs: Seq<u32>, a: int, b: int, c: int)
    requires
        0 <= a <= b <= c <= xs.len(),
    ensures
        value_range(xs, a, c) == value_range(xs, a, b) + value_range(xs, b, c),
{
    assert(xs.subrange(a, c) =~= xs.subrange(a, b) + xs.subrange(b, c));
    lemma_value_seq_concat(xs.subrange(a, b), xs.subrange(b, c));
}

/// A value range grows by one number's bytes at its right end.
pub proof fn lemma_value_range_snoc(xs: Seq<u32>, a: int, b: int)
    requires
        0 <= a <= b < xs.len(),
    ensures
        value_range(xs, a, b + 1) == value_range(xs, a, b) + num_bytes(xs[b]),
{
    let s = xs.subrange(a, b + 1);
    assert(s.take(b - a) =~= xs.subrange(a, b));
    lemma_value_seq_snoc(s, b - a);
    assert(s.take(b + 1 - a) =~= s);
    assert(s[b - a] == xs[b]);
}

/// Element-count bounds on a value range.
pub proof fn lemma_value_range_bounds(xs: Seq<u32>, a: int, b: int)
    requires
        0 <= a <= b <= xs.len(),
    ensures
        b - a <= value_range(xs, a, b).len() <= 4 * (b - a),
{
    lemma_value_len_bounds(xs.subrange(a, b));
}

/// A sixteen-byte window starting at quad `q`'s value bytes stays inside the
/// value bytes of `cc` quads whenever at least three more quads follow `q`.
pub proof fn lemma_value_window(xs: Seq<u32>, q: int, cc: int)
    requires
        0 <= q,
        q + 4 <= cc,
        4 * cc <= xs.len(),
    ensures
        value_range(xs, 0, 4 * q).len() + 16 <= value_range(xs, 0, 4 * cc).len(),
{
    lemma_value_range_concat(xs, 0, 4 * q, 4 * q + 4);
    lemma_value_range_concat(xs, 0, 4 * q + 4, 4 * q + 16);
    lemma_value_range_concat(xs, 0, 4 * q + 16, 4 * cc);
    lemma_value_range_bounds(xs, 4 * q, 4 * q + 4);
    lemma_value_range_bounds(xs, 4 * q + 4, 4 * q + 16);
    lemma_value_range_bounds(xs, 4 * q + 16, 4 * cc);
}

/// The control-prefix sum grows by 4 to 16 bytes per quad.
pub proof fn lemma_ctrl_prefix_mono(ctrl: Seq<u8>, a: int, b: int)
    requires
        0 <= a <= b,
    ensures
        ctrl_prefix_len(ctrl, a) + 4 * (b - a) <= ctrl_prefix_len(ctrl, b) <= ctrl_prefix_len(
            ctrl,
            a,
        ) + 16 * (b - a),
    decreases b - a,
{
    if a < b {
        lemma_ctrl_prefix_mono(ctrl, a, b - 1);
    }
}

/// Dropping the first `qb` control bytes shifts the prefix sums down.
pub proof fn lemma_ctrl_prefix_skip(ctrl: Seq<u8>, qb: int, k: int)
    requires
        0 <= qb <= ctrl.len(),
        0 <= k <= ctrl.len() - qb,
    ensures
        ctrl_prefix_len(ctrl.skip(qb), k) == ctrl_prefix_len(ctrl, qb + k) - ctrl_prefix_len(
            ctrl,
            qb,
        ),
    decreases k,
{
    if k > 0 {
        lemma_ctrl_prefix_skip(ctrl, qb, k - 1);
        assert(ctrl.skip(qb)[k - 1] == ctrl[qb + k - 1]);
    }
}

/// Dropping the first `qb` control bytes shifts every number's offset down by
/// the bytes those quads took.
pub proof fn lemma_num_offset_skip(ctrl: Seq<u8>, qb: int, j: int)
    requires
        0 <= qb <= ctrl.len(),
        0 <= j <= 4 * (ctrl.len() - qb),
    ensures
        num_offset(ctrl.skip(qb), j) == num_offset(ctrl, 4 * qb + j) - ctrl_prefix_len(ctrl, qb),
{
    lemma_fundamental_div_mod(j, 4);
    let q = j / 4;
    let r = j % 4;
    lemma_fundamental_div_mod_converse(4 * qb + j, 4, qb + q, r);
    lemma_ctrl_prefix_skip(ctrl, qb, q);
    if r > 0 {
        assert(ctrl.skip(qb)[q] == ctrl[qb + q]);
    } else {
        assert(lane_prefix(ctrl.skip(qb)[q], 0) == 0);
        assert(lane_prefix(ctrl[qb + q], 0) == 0);
    }
}

/// Decoding against the dropped regions gives the same numbers.
pub proof fn lemma_decoded_num_skip(ctrl: Seq<u8>, vals: Seq<u8>, qb: int, voff: int, j: int)
    requires
        0 <= qb <= ctrl.len(),
        voff == ctrl_prefix_len(ctrl, qb),
        0 <= voff <= vals.len(),
        0 <= j < 4 * (ctrl.len() - qb),
    ensures
        decoded_num(ctrl.skip(qb), vals.skip(voff), j) == decoded_num(ctrl, vals, 4 * qb + j),
{
    lemma_num_offset_skip(ctrl, qb, j);
    lemma_fundamental_div_mod(j, 4);
    let q = j / 4;
    let r = j % 4;
    lemma_fundamental_div_mod_converse(4 * qb + j, 4, qb + q, r);
    assert(ctrl.skip(qb)[q] == ctrl[qb + q]);
    lemma_num_offset_mono(ctrl.skip(qb), 0, j);
    assert(num_offset(ctrl.skip(qb), 0) == 0) by {
        lemma_fundamental_div_mod_converse(0, 4, 0, 0);
    }
    let off = num_offset(ctrl.skip(qb), j);
    assert forall|t: int| off <= t < off + 4 implies #[trigger] byte_at(vals.skip(voff), t)
        == byte_at(vals, voff + t) by {
        if 0 <= t < vals.len() - voff {
            assert(vals.skip(voff)[t] == vals[voff + t]);
        }
    }
}

/// Prefix sums read only the first `k` control bytes.
pub proof fn lemma_ctrl_prefix_agree(c1: Seq<u8>, c2: Seq<u8>, k: int)
    requires
        0 <= k <= c1.len() <= c2.len(),
        forall|i: int| 0 <= i < c1.len() ==> c1[i] == c2[i],
    ensures
        ctrl_prefix_len(c1, k) == ctrl_prefix_len(c2, k),
    decreases k,
{
    if k > 0 {
        lemma_ctrl_prefix_agree(c1, c2, k - 1);
    }
}

/// Decoding number `j` reads only the control bytes up to its quad.
pub proof fn lemma_decoded_num_agree(c1: Seq<u8>, c2: Seq<u8>, vals: Seq<u8>, j: int)
    requires
        0 <= j,
        j / 4 < c1.len() <= c2.len(),
        forall|i: int| 0 <= i < c1.len() ==> c1[i] == c2[i],
    ensures
        decoded_num(c1, vals, j) == decoded_num(c2, vals, j),
{
    lemma_ctrl_prefix_agree(c1, c2, j / 4);
}

/// Decoding reads only the value bytes the count calls for: bytes after them
/// (an oversized buffer's tail) change nothing.
pub proof fn lemma_decoded_agree(ctrl: Seq<u8>, v1: Seq<u8>, v2: Seq<u8>, count: int)
    requires
        0 <= count <= 4 * ctrl.len(),
        num_offset(ctrl, count) <= v1.len(),
        num_offset(ctrl, count) <= v2.len(),
        forall|i: int| 0 <= i < num_offset(ctrl, count) ==> v1[i] == v2[i],
    ensures
        decoded(ctrl, v1, count) == decoded(ctrl, v2, count),
{
    assert forall|n: int| 0 <= n < count implies decoded_num(ctrl, v1, n) == decoded_num(
        ctrl,
        v2,
        n,
    ) by {
        lemma_num_offset_mono(ctrl, 0, n);
        lemma_num_offset_step(ctrl, n);
        lemma_num_offset_mono(ctrl, n + 1, count);
        let off = num_offset(ctrl, n);
        let l = lane_len(ctrl[n / 4], n % 4);
        assert forall|t: int| off <= t < off + l implies #[trigger] byte_at(v1, t) == byte_at(
            v2,
            t,
        ) by {}
    }
    assert(decoded(ctrl, v1, count) =~= decoded(ctrl, v2, count));
}

/// The skip law: the numbers after position `4 * q`, decoded on their own
/// against the shifted regions, are the suffix of the full stream — so
/// skipping and then decoding the rest yields what a full decode drops.
pub proof fn lemma_skip_equivalence(ctrl: Seq<u8>, vals: Seq<u8>, q: int, count: int)
    requires
        0 <= 4 * q <= count <= 4 * ctrl.len(),
        ctrl_prefix_len(ctrl, q) <= vals.len(),
    ensures
        decoded(ctrl.skip(q), vals.skip(ctrl_prefix_len(ctrl, q)), count - 4 * q) == decoded(
            ctrl,
            vals,
            count,
        ).skip(4 * q),
{
    let voff = ctrl_prefix_len(ctrl, q);
    lemma_num_offset_quad(ctrl, q);
    lemma_num_offset_mono(ctrl, 0, 4 * q);
    assert forall|j: int| 0 <= j < count - 4 * q implies decoded_num(
        ctrl.skip(q),
        vals.skip(voff),
        j,
    ) == decoded(ctrl, vals, count)[4 * q + j] by {
        lemma_decoded_num_skip(ctrl, vals, q, voff, j);
    }
    assert(decoded(ctrl.skip(q), vals.skip(voff), count - 4 * q) =~= decoded(
        ctrl,
        vals,
        count,
    ).skip(4 * q));
}

/// The round-trip law in buffer form: any byte range whose prefix is the
/// encoding of `xs` decodes, split at the control region, back to `xs`.
pub proof fn lemma_round_trip_buffer(xs: Seq<u32>, b: Seq<u8>)
    requires
        encoded(xs).len() <= b.len(),
        forall|i: int| 0 <= i < encoded(xs).len() ==> b[i] == encoded(xs)[i],
    ensures
        ({
            let cbl = control_len(xs.len() as int);
            &&& cbl <= b.len()
            &&& num_offset(b.subrange(0, cbl), xs.len() as int) <= b.len() - cbl
            &&& num_offset(b.subrange(0, cbl), xs.len() as int) == value_seq(xs).len()
            &&& decoded(b.subrange(0, cbl), b.skip(cbl), xs.len() as int) == xs
        }),
{
    let count = xs.len() as int;
    let cbl = control_len(count);
    let ctrl = control_seq(xs);
    let vals = value_seq(xs);
    lemma_stream_value_len(xs);
    lemma_round_trip(xs);
    assert(b.subrange(0, cbl) =~= ctrl);
    lemma_fundamental_div_mod(count + 3, 4);
    assert forall|i: int| 0 <= i < num_offset(ctrl, count) implies b.skip(cbl)[i] == vals[i] by {
        assert(b[cbl + i] == encoded(xs)[cbl + i]);
    }
    lemma_decoded_agree(ctrl, b.skip(cbl), vals, count);
}

/// The accounting law: a full decode consumes exactly the value region, so a
/// cursor's consumed-byte count ends at the encoded length.
pub proof fn lemma_stream_value_len(xs: Seq<u32>)
    ensures
        num_offset(control_seq(xs), xs.len() as int) == value_seq(xs).len(),
{
    lemma_num_offset_correct(xs, xs.len() as int);
    assert(xs.take(xs.len() as int) =~= xs);
}

} // verus!
