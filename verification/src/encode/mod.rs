//! Encoding: the `Encoder` backends and the `encode` driver.

use crate::encoded_shape;
use crate::model;
use vstd::prelude::*;

pub mod neon;

verus! {

/// Encode numbers to bytes.
///
/// An implementation encodes some prefix of the complete quads of `input`:
/// quad `q` gets its control byte at `control_start + q` and its value bytes
/// follow one another from `values_start` on. It may stop short of
/// `control_count` quads (a backend that stores sixteen bytes per quad leaves
/// the last three to the caller), and it may scribble inside the value region
/// that the remaining quads will fill, but nowhere else.
pub trait Encoder {
    /// Encode up to `control_count` complete quads of `input` into `out`,
    /// returning how many numbers were encoded and how many value bytes were
    /// written.
    fn encode_quads(
        input: &[u32],
        out: &mut Vec<u8>,
        control_start: usize,
        control_count: usize,
        values_start: usize,
    ) -> (r: (usize, usize))
        requires
            4 * control_count <= input@.len(),
            control_start + control_count <= values_start,
            values_start + 16 * control_count <= old(out)@.len(),
        ensures
            r.0 % 4 == 0,
            r.0 <= 4 * control_count,
            r.1 == model::value_range(input@, 0, r.0 as int).len(),
            final(out)@.len() == old(out)@.len(),
            forall|i: int|
                control_start <= i < control_start + r.0 / 4 ==> final(out)@[i]
                    == model::quad_control(input@, i - control_start),
            forall|i: int|
                values_start <= i < values_start + r.1 ==> final(out)@[i] == model::value_range(
                    input@,
                    0,
                    r.0 as int,
                )[i - values_start],
            forall|i: int|
                0 <= i < old(out)@.len() && !(control_start <= i < control_start + r.0 / 4) && !(
                values_start <= i < values_start + model::value_range(
                    input@,
                    0,
                    4 * control_count as int,
                ).len()) ==> final(out)@[i] == old(out)@[i],
    ;
}

/// Relies on `byteorder::LittleEndian::write_u32`: stores the four
/// little-endian bytes of `num` at the start of `buf`.
#[verifier::external_body]
fn write_u32_le(buf: &mut Vec<u8>, num: u32)
    requires
        old(buf)@.len() == 4,
    ensures
        final(buf)@ == seq![
            model::le_byte(num, 0),
            model::le_byte(num, 1),
            model::le_byte(num, 2),
            model::le_byte(num, 3),
        ],
{
    <byteorder::LittleEndian as byteorder::ByteOrder>::write_u32(buf.as_mut_slice(), num);
}

/// The number of low-order bytes the codec keeps for `num`.
fn num_byte_len(num: u32) -> (len: usize)
    ensures
        len == model::byte_len(num),
{
    if num < 0x100 {
        1
    } else if num < 0x10000 {
        2
    } else if num < 0x1000000 {
        3
    } else {
        4
    }
}

/// Write the kept low bytes of `num` (little-endian) at `start`, returning how
/// many bytes that is.
pub fn encode_num_scalar(num: u32, output: &mut Vec<u8>, start: usize) -> (len: usize)
    requires
        start + model::byte_len(num) <= old(output)@.len(),
    ensures
        len == model::byte_len(num),
        final(output)@.len() == old(output)@.len(),
        forall|i: int|
            start <= i < start + len ==> final(output)@[i] == model::num_bytes(num)[i - start],
        forall|i: int|
            0 <= i < old(output)@.len() && !(start <= i < start + len) ==> final(output)@[i]
                == old(output)@[i],
{
    let olen = output.len();
    let len = num_byte_len(num);
    let mut buf: Vec<u8> = vec![0u8; 4];
    write_u32_le(&mut buf, num);
    let mut i: usize = 0;
    while i < len
        invariant
            0 <= i <= len,
            len == model::byte_len(num),
            start + len <= output@.len(),
            output@.len() == old(output)@.len(),
            output@.len() == olen,
            buf@.len() == 4,
            forall|k: int| 0 <= k < 4 ==> buf@[k] == model::le_byte(num, k),
            forall|k: int|
                start <= k < start + i ==> output@[k] == model::num_bytes(num)[k - start],
            forall|k: int|
                0 <= k < old(output)@.len() && !(start <= k < start + i) ==> output@[k] == old(
                    output,
                )@[k],
        decreases len - i,
    {
        let b = buf[i];
        output[start + i] = b;
        i = i + 1;
    }
    len
}

/// Encode exactly `quads` complete quads, the first one starting at number
/// `nums_start`, writing control bytes at `control_start` and value bytes from
/// `values_start` on.
pub(crate) fn encode_quads_scalar(
    input: &[u32],
    nums_start: usize,
    quads: usize,
    out: &mut Vec<u8>,
    control_start: usize,
    values_start: usize,
) -> (bytes_written: usize)
    requires
        nums_start % 4 == 0,
        nums_start + 4 * quads <= input@.len(),
        control_start + quads <= values_start,
        values_start + 16 * quads <= old(out)@.len(),
    ensures
        bytes_written == model::value_range(
            input@,
            nums_start as int,
            nums_start + 4 * quads,
        ).len(),
        final(out)@.len() == old(out)@.len(),
        forall|i: int|
            control_start <= i < control_start + quads ==> final(out)@[i] == model::quad_control(
                input@,
                nums_start as int / 4 + i - control_start,
            ),
        forall|i: int|
            values_start <= i < values_start + bytes_written ==> final(out)@[i]
                == model::value_range(input@, nums_start as int, nums_start + 4 * quads)[i
                - values_start],
        forall|i: int|
            0 <= i < old(out)@.len() && !(control_start <= i < control_start + quads) && !(
            values_start <= i < values_start + bytes_written) ==> final(out)@[i] == old(out)@[i],
{
    let ghost xs = input@;
    let ghost ns = nums_start as int;
    let ilen = input.len();
    let olen = out.len();
    let mut bytes_written: usize = 0;
    let mut q: usize = 0;
    while q < quads
        invariant
            0 <= q <= quads,
            nums_start % 4 == 0,
            ns == nums_start as int,
            xs == input@,
            nums_start + 4 * quads <= xs.len(),
            xs.len() == ilen,
            control_start + quads <= values_start,
            values_start + 16 * quads <= out@.len(),
            out@.len() == old(out)@.len(),
            out@.len() == olen,
            bytes_written == model::value_range(xs, ns, ns + 4 * q).len(),
            bytes_written <= 16 * q,
            forall|i: int|
                control_start <= i < control_start + q ==> out@[i] == model::quad_control(
                    xs,
                    ns / 4 + i - control_start,
                ),
            forall|i: int|
                values_start <= i < values_start + bytes_written ==> out@[i] == model::value_range(
                    xs,
                    ns,
                    ns + 4 * q,
                )[i - values_start],
            forall|i: int|
                0 <= i < old(out)@.len() && !(control_start <= i < control_start + q) && !(
                values_start <= i < values_start + bytes_written) ==> out@[i] == old(out)@[i],
        decreases quads - q,
    {
        let base = nums_start + 4 * q;
        proof {
            model::lemma_value_range_bounds(xs, ns, ns + 4 * q);
            model::lemma_value_range_snoc(xs, ns, base as int);
            model::lemma_value_range_snoc(xs, ns, base + 1);
            model::lemma_value_range_snoc(xs, ns, base + 2);
            model::lemma_value_range_snoc(xs, ns, base + 3);
        }
        let n0 = input[base];
        let n1 = input[base + 1];
        let n2 = input[base + 2];
        let n3 = input[base + 3];
        let len0 = encode_num_scalar(n0, out, values_start + bytes_written);
        let len1 = encode_num_scalar(n1, out, values_start + bytes_written + len0);
        let len2 = encode_num_scalar(n2, out, values_start + bytes_written + len0 + len1);
        let len3 = encode_num_scalar(n3, out, values_start + bytes_written + len0 + len1 + len2);
        let control = ((len0 - 1) + 4 * (len1 - 1) + 16 * (len2 - 1) + 64 * (len3 - 1)) as u8;
        out[control_start + q] = control;
        proof {
            vstd::arithmetic::div_mod::lemma_fundamental_div_mod(ns, 4);
            assert(4 * (ns / 4 + q) == base);
            assert(control == model::quad_control(xs, ns / 4 + q as int));
            model::lemma_value_range_bounds(xs, ns, ns + 4 * q + 4);
        }
        bytes_written = bytes_written + len0 + len1 + len2 + len3;
        q = q + 1;
    }
    bytes_written
}

/// Encode the `input` slice into the `output` buffer, which must be at least
/// five times as long (four bytes per number plus one control byte per started
/// quad is the worst case). Returns the number of bytes written.
///
/// Whatever backend `E` is chosen, the bytes written are exactly the encoding
/// of `input`; bytes past them keep their old values. An empty input writes
/// nothing and returns zero.
#[verifier::rlimit(100)]
pub fn encode<E: Encoder>(input: &[u32], output: &mut Vec<u8>) -> (written: usize)
    requires
        5 * input@.len() <= old(output)@.len(),
    ensures
        written == model::encoded(input@).len(),
        final(output)@.len() == old(output)@.len(),
        forall|i: int|
            0 <= i < written ==> final(output)@[i] == model::encoded(input@)[i],
        forall|i: int|
            written <= i < final(output)@.len() ==> final(output)@[i] == old(output)@[i],
{
    let ghost xs = input@;
    if input.len() == 0 {
        proof {
            assert(model::value_seq(xs).len() == 0);
        }
        return 0;
    }
    let count = input.len();
    let olen = output.len();
    let shape = encoded_shape(count);
    let cb = shape.control_bytes_len;
    let complete = shape.complete_control_bytes_len;
    let leftover = shape.leftover_numbers;
    proof {
        model::lemma_value_range_bounds(xs, 0, count as int);
        model::lemma_value_range_bounds(xs, 0, 4 * complete as int);
        vstd::arithmetic::div_mod::lemma_fundamental_div_mod(count as int, 4);
    }
    let (nums_encoded, bytes1) = E::encode_quads(input, output, 0, complete, cb);
    let k = nums_encoded / 4;
    let ghost o1 = output@;
    proof {
        vstd::arithmetic::div_mod::lemma_fundamental_div_mod(nums_encoded as int, 4);
        model::lemma_value_range_bounds(xs, 0, nums_encoded as int);
        model::lemma_value_range_concat(xs, 0, nums_encoded as int, 4 * complete as int);
    }
    let bytes2 = encode_quads_scalar(
        input,
        nums_encoded,
        complete - k,
        output,
        k,
        cb + bytes1,
    );
    let mut num_bytes_written = bytes1 + bytes2;
    proof {
        assert(num_bytes_written == model::value_range(xs, 0, 4 * complete as int).len());
        assert forall|i: int| 0 <= i < complete implies output@[i] == model::quad_control(
            xs,
            i,
        ) by {
            if i < k {
                assert(o1[i] == model::quad_control(xs, i));
            }
        }
        assert forall|i: int|
            cb <= i < cb + num_bytes_written implies output@[i] == model::value_range(
            xs,
            0,
            4 * complete as int,
        )[i - cb] by {
            if i - cb < bytes1 {
                assert(o1[i] == model::value_range(xs, 0, nums_encoded as int)[i - cb]);
            } else {
                assert(output@[i] == model::value_range(
                    xs,
                    nums_encoded as int,
                    4 * complete as int,
                )[i - (cb + bytes1)]);
            }
        }
        assert forall|i: int|
            0 <= i < olen && !(0 <= i < complete) && !(cb <= i < cb + num_bytes_written)
            implies output@[i] == old(output)@[i] by {
            assert(o1[i] == old(output)@[i]);
        }
    }
    if leftover > 0 {
        let base = 4 * complete;
        proof {
            model::lemma_value_range_bounds(xs, 0, base as int);
            model::lemma_value_range_snoc(xs, 0, base as int);
        }
        let mut control_byte: u8 = 0;
        let len0 = encode_num_scalar(input[base], output, cb + num_bytes_written);
        control_byte = (len0 - 1) as u8;
        num_bytes_written = num_bytes_written + len0;
        if leftover >= 2 {
            proof {
                model::lemma_value_range_bounds(xs, 0, base + 1);
                model::lemma_value_range_snoc(xs, 0, base + 1);
            }
            let len1 = encode_num_scalar(input[base + 1], output, cb + num_bytes_written);
            control_byte = control_byte + (4 * (len1 - 1)) as u8;
            num_bytes_written = num_bytes_written + len1;
        }
        if leftover >= 3 {
            proof {
                model::lemma_value_range_bounds(xs, 0, base + 2);
                model::lemma_value_range_snoc(xs, 0, base + 2);
            }
            let len2 = encode_num_scalar(input[base + 2], output, cb + num_bytes_written);
            control_byte = control_byte + (16 * (len2 - 1)) as u8;
            num_bytes_written = num_bytes_written + len2;
        }
        output[complete] = control_byte;
        proof {
            assert(control_byte == model::quad_control(xs, complete as int));
        }
    }
    proof {
        assert(xs.subrange(0, count as int) =~= xs);
        assert(num_bytes_written == model::value_seq(xs).len());
        let written = cb + num_bytes_written;
        let enc = model::encoded(xs);
        assert(enc.len() == written);
        assert forall|i: int| 0 <= i < written implies output@[i] == enc[i] by {
            if i < cb {
                assert(output@[i] == model::quad_control(xs, i));
                assert(enc[i] == model::control_seq(xs)[i]);
            } else {
                assert(output@[i] == model::value_range(xs, 0, count as int)[i - cb]);
                assert(enc[i] == model::value_seq(xs)[i - cb]);
            }
        }
    }
    cb + num_bytes_written
}

} // verus!
