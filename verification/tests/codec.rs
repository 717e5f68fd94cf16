use stream_vbyte::decode;
use stream_vbyte::decode::cursor::DecodeCursor;
use stream_vbyte::decode::DecodeQuadSink;
use stream_vbyte::decode::DecodeSingleSink;
use stream_vbyte::decode::decode_num_scalar;
use stream_vbyte::decode::neon::NeonDecoder;
use stream_vbyte::decode::SliceDecodeSink;
use stream_vbyte::decode::WriteQuadToSlice;
use stream_vbyte::encode;
use stream_vbyte::encode::neon::NeonEncoder;
use stream_vbyte::encoded_shape;
use stream_vbyte::scalar::UnusedQuad;
use stream_vbyte::tables::decode_length_per_num;
use stream_vbyte::tables::decode_length_per_quad;
use stream_vbyte::Scalar;

fn encode_with_scalar(nums: &[u32]) -> Vec<u8> {
    let mut out: Vec<u8> = vec![0; 5 * nums.len()];
    let written = encode::<Scalar>(nums, &mut out);
    out.truncate(written);
    out
}

fn decode_with_scalar(bytes: &[u8], count: usize) -> Vec<u32> {
    let mut out: Vec<u32> = vec![0; count];
    decode::<Scalar>(bytes, count, &mut out);
    out
}

#[test]
fn encode_empty_writes_nothing() {
    let nums: Vec<u32> = Vec::new();
    let mut out: Vec<u8> = vec![0xAB; 8];
    assert_eq!(0, encode::<Scalar>(&nums, &mut out));
    assert!(out.iter().all(|&b| b == 0xAB));
}

#[test]
fn single_zero_has_two_bytes() {
    let enc = encode_with_scalar(&[0]);
    assert_eq!(vec![0x00_u8, 0x00_u8], enc);
    assert_eq!(vec![0_u32], decode_with_scalar(&enc, 1));
}

#[test]
fn single_elements_of_each_length_class() {
    for &(num, len) in &[
        (0x00_u32, 1),
        (0xFF_u32, 1),
        (0x1_0000_u32, 3),
        (0x1000_0000_u32, 4),
        (u32::MAX, 4),
    ] {
        let enc = encode_with_scalar(&[num]);
        assert_eq!(1 + len, enc.len());
        assert_eq!(vec![num], decode_with_scalar(&enc, 1));
    }
}

#[test]
fn mixed_quad_layout() {
    let enc = encode_with_scalar(&[0, 1, 256, 65536]);
    assert_eq!(8, enc.len());
    assert_eq!(
        vec![0x90_u8, 0x00, 0x01, 0x00, 0x01, 0x00, 0x00, 0x01],
        enc
    );
    assert_eq!(vec![0, 1, 256, 65536], decode_with_scalar(&enc, 4));
}

#[test]
fn max_quad_is_seventeen_bytes() {
    let enc = encode_with_scalar(&[u32::MAX; 4]);
    assert_eq!(17, enc.len());
    assert_eq!(0xFF, enc[0]);
    assert!(enc[1..].iter().all(|&b| b == 0xFF));
    assert_eq!(vec![u32::MAX; 4], decode_with_scalar(&enc, 4));
}

#[test]
fn five_zeros_span_two_control_bytes() {
    let enc = encode_with_scalar(&[0; 5]);
    assert_eq!(7, enc.len());
    assert_eq!(vec![0x00_u8, 0x00, 0x00, 0x00, 0x00, 0x00, 0x00], enc);
    assert_eq!(vec![0_u32; 5], decode_with_scalar(&enc, 5));
}

#[test]
fn partial_quad_control_bytes() {
    // leftovers of 1, 2 and 3 use the low lanes of the last control byte
    let enc1 = encode_with_scalar(&[256]);
    assert_eq!(0x01, enc1[0]);
    assert_eq!(vec![256], decode_with_scalar(&enc1, 1));

    let enc2 = encode_with_scalar(&[256, 65536]);
    assert_eq!(0x01 | (2 << 2), enc2[0]);
    assert_eq!(vec![256, 65536], decode_with_scalar(&enc2, 2));

    let enc3 = encode_with_scalar(&[256, 65536, 1]);
    assert_eq!(0x01 | (2 << 2), enc3[0]);
    assert_eq!(vec![256, 65536, 1], decode_with_scalar(&enc3, 3));
}

#[test]
fn round_trip_backend_equivalence_thousand() {
    let nums: Vec<u32> = (0..1000).collect();
    let mut scalar_out: Vec<u8> = vec![0; 5 * nums.len()];
    let scalar_written = encode::<Scalar>(&nums, &mut scalar_out);
    let mut neon_out: Vec<u8> = vec![0; 5 * nums.len()];
    let neon_written = encode::<NeonEncoder>(&nums, &mut neon_out);

    assert_eq!(scalar_written, neon_written);
    assert_eq!(&scalar_out[..scalar_written], &neon_out[..neon_written]);

    let mut via_scalar: Vec<u32> = vec![0; nums.len()];
    let read = decode::<Scalar>(&scalar_out, nums.len(), &mut via_scalar);
    assert_eq!(scalar_written, read);
    assert_eq!(nums, via_scalar);

    let mut via_neon: Vec<u32> = vec![0; nums.len()];
    let read = decode::<NeonDecoder>(&scalar_out, nums.len(), &mut via_neon);
    assert_eq!(scalar_written, read);
    assert_eq!(nums, via_neon);
}

#[test]
fn round_trip_length_formula() {
    // encoded length is one control byte per started quad plus the kept bytes
    let nums: Vec<u32> = (0..77).map(|i| i * 7919).collect();
    let enc = encode_with_scalar(&nums);
    let kept: usize = nums
        .iter()
        .map(|&n| {
            if n < 0x100 {
                1
            } else if n < 0x1_0000 {
                2
            } else if n < 0x100_0000 {
                3
            } else {
                4
            }
        })
        .sum();
    assert_eq!((nums.len() + 3) / 4 + kept, enc.len());
    assert_eq!(nums, decode_with_scalar(&enc, nums.len()));
}

#[test]
fn simd_tail_thirteen_quads_plus_leftovers() {
    // 13 full quads exercise the "last three quads go to the slower loop"
    // boundary on both kernels
    for leftover in 0..4 {
        let count = 13 * 4 + leftover;
        let nums: Vec<u32> = (0..count as u32).map(|i| i.wrapping_mul(2654435761)).collect();
        let mut neon_out: Vec<u8> = vec![0; 5 * nums.len()];
        let written = encode::<NeonEncoder>(&nums, &mut neon_out);
        assert_eq!(&encode_with_scalar(&nums)[..], &neon_out[..written]);

        let mut decoded: Vec<u32> = vec![0; count];
        let read = decode::<NeonDecoder>(&neon_out, count, &mut decoded);
        assert_eq!(written, read);
        assert_eq!(nums, decoded);
    }
}

#[test]
fn cursor_skip_then_decode_rest() {
    let nums: Vec<u32> = (0..1000).collect();
    let enc = encode_with_scalar(&nums);
    let mut cursor = DecodeCursor::new(&enc, 1000);
    cursor.skip(500);
    let mut out: Vec<u32> = vec![0; 500];
    let n = cursor.decode_slice::<Scalar>(&mut out);
    assert_eq!(500, n);
    assert_eq!(&nums[500..1000], &out[..]);
    assert_eq!(enc.len(), cursor.input_consumed());
}

#[test]
fn cursor_accounting_after_full_decode() {
    let nums: Vec<u32> = (0..123).map(|i| i * 1000).collect();
    let enc = encode_with_scalar(&nums);
    let mut cursor = DecodeCursor::new(&enc, nums.len());
    let mut out: Vec<u32> = vec![0; nums.len()];
    assert_eq!(nums.len(), cursor.decode_slice::<Scalar>(&mut out));
    assert_eq!(nums, out);
    assert_eq!(enc.len(), cursor.input_consumed());
}

#[test]
fn cursor_skip_to_end_consumes_everything() {
    // a skip that lands mid-quad is allowed when it reaches the end
    let nums: Vec<u32> = (0..11).map(|i| i * 300).collect();
    let enc = encode_with_scalar(&nums);
    let mut cursor = DecodeCursor::new(&enc, nums.len());
    cursor.skip(8);
    cursor.skip(3);
    assert_eq!(enc.len(), cursor.input_consumed());
}

#[test]
fn decode_sink_split_matches_single_call() {
    // delivering with max = k and then max = count - k yields the same
    // stream as one call, for k a multiple of four
    let nums: Vec<u32> = (0..1000).map(|i| i * 31).collect();
    let enc = encode_with_scalar(&nums);

    let mut one = DecodeCursor::new(&enc, nums.len());
    let mut whole = SliceDecodeSink::new(vec![0; nums.len()]);
    assert_eq!(
        nums.len(),
        one.decode_sink::<Scalar, _>(&mut whole, nums.len())
    );
    let whole = whole.into_inner();
    assert_eq!(nums, whole);

    let mut two = DecodeCursor::new(&enc, nums.len());
    let mut first = SliceDecodeSink::new(vec![0; 500]);
    assert_eq!(500, two.decode_sink::<Scalar, _>(&mut first, 500));
    let mut second = SliceDecodeSink::new(vec![0; 500]);
    assert_eq!(500, two.decode_sink::<Scalar, _>(&mut second, 500));
    let mut joined = first.into_inner();
    joined.extend_from_slice(&second.into_inner());
    assert_eq!(whole, joined);
}

#[test]
fn decode_sink_keeps_quad_boundary() {
    // under the remaining count, a max that is not a multiple of four is
    // rounded down to whole quads and the cursor stays resumable
    let nums: Vec<u32> = (0..16).map(|i| i + 7).collect();
    let enc = encode_with_scalar(&nums);
    let mut cursor = DecodeCursor::new(&enc, nums.len());
    let mut sink = SliceDecodeSink::new(vec![0; 16]);
    assert_eq!(4, cursor.decode_sink::<Scalar, _>(&mut sink, 7));
    assert_eq!(12, cursor.decode_sink::<Scalar, _>(&mut sink, 16));
    assert_eq!(enc.len(), cursor.input_consumed());
}

#[test]
fn cursor_paths_agree_across_backends() {
    for &count in &[1_usize, 4, 15, 52, 55, 100] {
        let nums: Vec<u32> = (0..count as u32).map(|i| i * 77777).collect();
        let enc = encode_with_scalar(&nums);

        let mut cursor = DecodeCursor::new(&enc, count);
        let mut out: Vec<u32> = vec![0; count];
        assert_eq!(count, cursor.decode_slice::<NeonDecoder>(&mut out));
        assert_eq!(nums, out);
        assert_eq!(enc.len(), cursor.input_consumed());

        let mut cursor = DecodeCursor::new(&enc, count);
        let mut sink = SliceDecodeSink::new(vec![0; count]);
        assert_eq!(count, cursor.decode_sink::<NeonDecoder, _>(&mut sink, count));
        assert_eq!(nums, sink.into_inner());
        assert_eq!(enc.len(), cursor.input_consumed());
    }
}

#[test]
fn slice_sink_takes_quads() {
    let mut sink = SliceDecodeSink::new(vec![0; 6]);
    <SliceDecodeSink as DecodeQuadSink<NeonDecoder>>::on_quad(&mut sink, (1, 2, 3, 4), 1);
    assert_eq!(vec![0, 1, 2, 3, 4, 0], sink.into_inner());
}

#[test]
fn slice_sink_takes_numbers() {
    let mut sink = SliceDecodeSink::new(vec![7; 3]);
    sink.on_number(42, 1);
    assert_eq!(vec![7, 42, 7], sink.into_inner());
}

#[test]
fn write_quad_to_slice_unpacks() {
    let mut out: Vec<u32> = vec![9; 8];
    NeonDecoder::write_quad_to_slice((1, 2, 3, 4), &mut out, 2);
    assert_eq!(vec![9, 9, 1, 2, 3, 4, 9, 9], out);
    Scalar::write_quad_to_slice(UnusedQuad, &mut out, 0);
    assert_eq!(vec![9, 9, 1, 2, 3, 4, 9, 9], out);
}

#[test]
fn decode_num_scalar_reads_little_endian() {
    let bytes = [0x34_u8, 0x12, 0x99];
    assert_eq!(0x1234, decode_num_scalar(2, &bytes, 0));
    assert_eq!(0x9912, decode_num_scalar(2, &bytes, 1));
    assert_eq!(0x991234, decode_num_scalar(3, &bytes, 0));
}

#[test]
fn tables_match_control_byte_lanes() {
    assert_eq!((1, 1, 2, 3), decode_length_per_num(0x90));
    assert_eq!((4, 4, 4, 4), decode_length_per_num(0xFF));
    assert_eq!(4, decode_length_per_quad(0x00));
    assert_eq!(16, decode_length_per_quad(0xFF));
    assert_eq!(7, decode_length_per_quad(0x90));
}

#[test]
fn encoded_shape_splits_count() {
    let shape = encoded_shape(5);
    assert_eq!(2, shape.control_bytes_len);
    assert_eq!(1, shape.complete_control_bytes_len);
    assert_eq!(1, shape.leftover_numbers);

    let shape = encoded_shape(0);
    assert_eq!(0, shape.control_bytes_len);
    assert_eq!(0, shape.complete_control_bytes_len);
    assert_eq!(0, shape.leftover_numbers);
}
