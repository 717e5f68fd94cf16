//! Decoding: the `Decoder` backends, the sink traits, and the `decode`
//! driver.

use crate::model;
use crate::tables;
use vstd::prelude::*;

pub mod cursor;
pub mod neon;

verus! {

/// Decode bytes to numbers.
///
/// `control_bytes` and `encoded_nums` are the not-yet-consumed control and
/// value regions; every control byte that may be decoded (at most the first
/// `max_control_bytes` of them) must have its value bytes present in
/// `encoded_nums` (so no trailing partial quad is passed).
///
/// An implementation decodes some prefix of the quads — at most
/// `max_control_bytes`, possibly fewer — writing number `j` to
/// `output[out_start + j]`, and returns how many numbers it decoded (a
/// multiple of four) and how many value bytes it read.
pub trait Decoder {
    /// A decoded quad in the backend's own representation.
    type DecodedQuad;

    /// The numbers a decoded quad holds.
    spec fn quad_nums(quad: Self::DecodedQuad) -> Seq<u32>;

    /// Decode up to `max_control_bytes` complete quads.
    fn decode_quads(
        control_bytes: &[u8],
        encoded_nums: &[u8],
        output: &mut Vec<u32>,
        out_start: usize,
        max_control_bytes: usize,
    ) -> (r: (usize, usize))
        requires
            model::ctrl_prefix_len(
                control_bytes@,
                if max_control_bytes <= control_bytes@.len() {
                    max_control_bytes as int
                } else {
                    control_bytes@.len() as int
                },
            ) <= encoded_nums@.len(),
            out_start + 4 * control_bytes@.len() <= old(output)@.len(),
        ensures
            r.0 % 4 == 0,
            r.0 <= 4 * control_bytes@.len(),
            r.0 <= 4 * max_control_bytes,
            r.1 == model::ctrl_prefix_len(control_bytes@, r.0 as int / 4),
            final(output)@.len() == old(output)@.len(),
            forall|i: int|
                out_start <= i < out_start + r.0 ==> final(output)@[i] == model::decoded_num(
                    control_bytes@,
                    encoded_nums@,
                    i - out_start,
                ),
            forall|i: int|
                0 <= i < old(output)@.len() && !(out_start <= i < out_start + r.0)
                    ==> final(output)@[i] == old(output)@[i],
    ;
}

/// For decoders whose quads can be unpacked into a number buffer, as the
/// slice-based operations need.
pub trait WriteQuadToSlice: Decoder {
    /// Write the numbers of `quad` at `at` on.
    fn write_quad_to_slice(quad: Self::DecodedQuad, output: &mut Vec<u32>, at: usize)
        requires
            at + Self::quad_nums(quad).len() <= old(output)@.len(),
        ensures
            final(output)@.len() == old(output)@.len(),
            forall|i: int|
                at <= i < at + Self::quad_nums(quad).len() ==> final(output)@[i]
                    == Self::quad_nums(quad)[i - at],
            forall|i: int|
                0 <= i < old(output)@.len() && !(at <= i < at + Self::quad_nums(quad).len())
                    ==> final(output)@[i] == old(output)@[i],
    ;
}

/// Receives decoded numbers one at a time: the scalar backend's numbers, and
/// those of a trailing partial quad.
pub trait DecodeSingleSink {
    /// The numbers received so far, oldest first.
    spec fn received(&self) -> Seq<u32>;

    /// How many numbers the sink can take in one cursor operation.
    spec fn capacity(&self) -> int;

    /// The sink's own well-formedness.
    spec fn inv(&self) -> bool;

    /// Take one number. `nums_decoded` counts the numbers delivered before
    /// this one in the current cursor operation.
    fn on_number(&mut self, num: u32, nums_decoded: usize)
        requires
            old(self).inv(),
            nums_decoded < old(self).capacity(),
        ensures
            final(self).inv(),
            final(self).capacity() == old(self).capacity(),
            final(self).received() == old(self).received().push(num),
    ;
}

/// Receives decoded quads in a decoder's own representation; numbers that do
/// not arrive as quads come through `on_number`.
pub trait DecodeQuadSink<D: Decoder>: DecodeSingleSink {
    /// Take one quad. `nums_decoded` counts the numbers delivered before it
    /// in the current cursor operation.
    fn on_quad(&mut self, quad: D::DecodedQuad, nums_decoded: usize)
        requires
            old(self).inv(),
            nums_decoded + D::quad_nums(quad).len() <= old(self).capacity(),
        ensures
            final(self).inv(),
            final(self).capacity() == old(self).capacity(),
            final(self).received() == old(self).received() + D::quad_nums(quad),
    ;
}

/// A sink that writes each number at its position in a buffer it owns.
pub struct SliceDecodeSink {
    output: Vec<u32>,
    hist: Ghost<Seq<u32>>,
}

impl SliceDecodeSink {
    /// The wrapped buffer.
    pub closed spec fn buffer(&self) -> Seq<u32> {
        self.output@
    }

    /// Wrap `output`; `into_inner` hands it back.
    pub fn new(output: Vec<u32>) -> (s: SliceDecodeSink)
        ensures
            s.buffer() == output@,
            s.received() == Seq::<u32>::empty(),
            s.capacity() == output@.len(),
            s.inv(),
    {
        SliceDecodeSink { output, hist: Ghost(Seq::empty()) }
    }

    /// The buffer, with everything received written at its position.
    pub fn into_inner(self) -> (v: Vec<u32>)
        ensures
            v@ == self.buffer(),
    {
        self.output
    }
}

impl DecodeSingleSink for SliceDecodeSink {
    closed spec fn received(&self) -> Seq<u32> {
        self.hist@
    }

    closed spec fn capacity(&self) -> int {
        self.output@.len() as int
    }

    closed spec fn inv(&self) -> bool {
        true
    }

    // Besides the trait's promises: the number lands at its position in the
    // buffer.
    fn on_number(&mut self, num: u32, nums_decoded: usize)
        ensures
            final(self).buffer() == old(self).buffer().update(nums_decoded as int, num),
    {
        self.output[nums_decoded] = num;
        proof {
            self.hist@ = self.hist@.push(num);
        }
    }
}

impl<D: Decoder + WriteQuadToSlice> DecodeQuadSink<D> for SliceDecodeSink {
    // Besides the trait's promises: the quad's numbers land at their
    // positions in the buffer, and everything else stays.
    fn on_quad(&mut self, quad: D::DecodedQuad, nums_decoded: usize)
        ensures
            final(self).buffer().len() == old(self).buffer().len(),
            forall|i: int|
                nums_decoded <= i < nums_decoded + D::quad_nums(quad).len()
                    ==> final(self).buffer()[i] == D::quad_nums(quad)[i - nums_decoded],
            forall|i: int|
                0 <= i < old(self).buffer().len() && !(nums_decoded <= i < nums_decoded
                    + D::quad_nums(quad).len()) ==> final(self).buffer()[i]
                    == old(self).buffer()[i],
    {
        let ghost nums = D::quad_nums(quad);
        D::write_quad_to_slice(quad, &mut self.output, nums_decoded);
        proof {
            self.hist@ = self.hist@ + nums;
        }
    }
}

/// Relies on `byteorder::LittleEndian::read_u32`: assembles the four bytes of
/// `buf` as a little-endian integer.
#[verifier::external_body]
fn read_u32_le(buf: &Vec<u8>) -> (r: u32)
    requires
        buf@.len() == 4,
    ensures
        r == model::u32_from_bytes(buf@[0], buf@[1], buf@[2], buf@[3]),
{
    <byteorder::LittleEndian as byteorder::ByteOrder>::read_u32(buf.as_slice())
}

/// Read one number from its `len` value bytes at `start`, zero-extended to 32
/// bits.
pub fn decode_num_scalar(len: usize, input: &[u8], start: usize) -> (num: u32)
    requires
        1 <= len <= 4,
        start + len <= input@.len(),
    ensures
        num == model::le_num(input@, start as int, len as int),
{
    let ilen = input.len();
    let mut buf: Vec<u8> = vec![0u8; 4];
    let mut i: usize = 0;
    while i < len
        invariant
            0 <= i <= len,
            1 <= len <= 4,
            input@.len() == ilen,
            start + len <= input@.len(),
            buf@.len() == 4,
            forall|k: int| 0 <= k < i ==> buf@[k] == input@[start + k],
            forall|k: int| i <= k < 4 ==> buf@[k] == 0u8,
        decreases len - i,
    {
        let b = input[start + i];
        buf[i] = b;
        i = i + 1;
    }
    let r = read_u32_le(&buf);
    proof {
        assert(model::byte_at(input@, start as int) == buf@[0]);
        if len >= 2 {
            assert(model::byte_at(input@, start + 1) == buf@[1]);
        }
        if len >= 3 {
            assert(model::byte_at(input@, start + 2) == buf@[2]);
        }
        if len >= 4 {
            assert(model::byte_at(input@, start + 3) == buf@[3]);
        }
    }
    r
}

/// Decode exactly `min(max_control_bytes, control_bytes.len())` quads, one
/// lane at a time.
pub(crate) fn decode_quads_scalar(
    control_bytes: &[u8],
    encoded_nums: &[u8],
    output: &mut Vec<u32>,
    out_start: usize,
    max_control_bytes: usize,
) -> (r: (usize, usize))
    requires
        model::ctrl_prefix_len(
            control_bytes@,
            if max_control_bytes <= control_bytes@.len() {
                max_control_bytes as int
            } else {
                control_bytes@.len() as int
            },
        ) <= encoded_nums@.len(),
        out_start + 4 * control_bytes@.len() <= old(output)@.len(),
    ensures
        r.0 == 4 * (if max_control_bytes <= control_bytes@.len() {
            max_control_bytes as int
        } else {
            control_bytes@.len() as int
        }),
        r.1 == model::ctrl_prefix_len(control_bytes@, r.0 as int / 4),
        final(output)@.len() == old(output)@.len(),
        forall|i: int|
            out_start <= i < out_start + r.0 ==> final(output)@[i] == model::decoded_num(
                control_bytes@,
                encoded_nums@,
                i - out_start,
            ),
        forall|i: int|
            0 <= i < old(output)@.len() && !(out_start <= i < out_start + r.0)
                ==> final(output)@[i] == old(output)@[i],
{
    let ghost ctrl = control_bytes@;
    let ghost vals = encoded_nums@;
    let clen = control_bytes.len();
    let elen = encoded_nums.len();
    let olen = output.len();
    let limit = if max_control_bytes < clen {
        max_control_bytes
    } else {
        clen
    };
    let mut bytes_read: usize = 0;
    let mut q: usize = 0;
    while q < limit
        invariant
            0 <= q <= limit,
            limit <= clen,
            clen == ctrl.len(),
            elen == vals.len(),
            ctrl == control_bytes@,
            vals == encoded_nums@,
            model::ctrl_prefix_len(ctrl, limit as int) <= elen,
            out_start + 4 * clen <= olen,
            output@.len() == olen,
            olen == old(output)@.len(),
            bytes_read == model::ctrl_prefix_len(ctrl, q as int),
            forall|i: int|
                out_start <= i < out_start + 4 * q ==> output@[i] == model::decoded_num(
                    ctrl,
                    vals,
                    i - out_start,
                ),
            forall|i: int|
                0 <= i < olen && !(out_start <= i < out_start + 4 * q) ==> output@[i] == old(
                    output,
                )@[i],
        decreases limit - q,
    {
        proof {
            model::lemma_ctrl_prefix_mono(ctrl, q + 1, limit as int);
            model::lemma_num_offset_quad(ctrl, q as int);
            model::lemma_num_offset_step(ctrl, 4 * q as int);
            model::lemma_num_offset_step(ctrl, 4 * q + 1);
            model::lemma_num_offset_step(ctrl, 4 * q + 2);
            model::lemma_num_offset_step(ctrl, 4 * q + 3);
            vstd::arithmetic::div_mod::lemma_fundamental_div_mod_converse(4 * q as int, 4, q as int, 0);
            vstd::arithmetic::div_mod::lemma_fundamental_div_mod_converse(4 * q + 1, 4, q as int, 1);
            vstd::arithmetic::div_mod::lemma_fundamental_div_mod_converse(4 * q + 2, 4, q as int, 2);
            vstd::arithmetic::div_mod::lemma_fundamental_div_mod_converse(4 * q + 3, 4, q as int, 3);
        }
        let c = control_bytes[q];
        let (l0, l1, l2, l3) = tables::decode_length_per_num(c);
        let n0 = decode_num_scalar(l0, encoded_nums, bytes_read);
        let n1 = decode_num_scalar(l1, encoded_nums, bytes_read + l0);
        let n2 = decode_num_scalar(l2, encoded_nums, bytes_read + l0 + l1);
        let n3 = decode_num_scalar(l3, encoded_nums, bytes_read + l0 + l1 + l2);
        output[out_start + 4 * q] = n0;
        output[out_start + 4 * q + 1] = n1;
        output[out_start + 4 * q + 2] = n2;
        output[out_start + 4 * q + 3] = n3;
        bytes_read = bytes_read + l0 + l1 + l2 + l3;
        q = q + 1;
    }
    proof {
        vstd::arithmetic::div_mod::lemma_fundamental_div_mod_converse(
            4 * limit as int,
            4,
            limit as int,
            0,
        );
    }
    (4 * limit, bytes_read)
}

/// Decode `count` numbers from `input` into `output[0..count]`, returning the
/// number of bytes read.
///
/// `input` must hold a complete encoding of `count` numbers (extra bytes
/// after it are ignored) and `output` must have room for all of them. The
/// numbers written are exactly what the stream decodes to, whatever backend
/// `D` is.
pub fn decode<D: Decoder + WriteQuadToSlice>(
    input: &[u8],
    count: usize,
    output: &mut Vec<u32>,
) -> (read: usize)
    requires
        count + 3 <= usize::MAX,
        model::control_len(count as int) <= input@.len(),
        model::num_offset(input@.subrange(0, model::control_len(count as int)), count as int)
            <= input@.len() - model::control_len(count as int),
        count <= old(output)@.len(),
    ensures
        read == model::control_len(count as int) + model::num_offset(
            input@.subrange(0, model::control_len(count as int)),
            count as int,
        ),
        final(output)@.len() == old(output)@.len(),
        forall|i: int|
            0 <= i < count ==> final(output)@[i] == model::decoded(
                input@.subrange(0, model::control_len(count as int)),
                input@.skip(model::control_len(count as int)),
                count as int,
            )[i],
        forall|i: int|
            count <= i < old(output)@.len() ==> final(output)@[i] == old(output)@[i],
{
    let mut cursor = cursor::DecodeCursor::new(input, count);
    let n = cursor.decode_slice::<D>(output);
    cursor.input_consumed()
}

} // verus!
