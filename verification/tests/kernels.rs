use stream_vbyte::cumulative_encoded_len;
use stream_vbyte::decode::neon::NeonDecoder;
use stream_vbyte::decode::Decoder;
use stream_vbyte::encode::encode;
use stream_vbyte::encode::encode_num_scalar;
use stream_vbyte::encode::neon::NeonEncoder;
use stream_vbyte::encode::Encoder;
use stream_vbyte::Scalar;

#[test]
fn encode_num_zero() {
    let mut buf: Vec<u8> = vec![0; 4];

    assert_eq!(1, encode_num_scalar(0, &mut buf, 0));
    assert_eq!(&[0x00_u8, 0x00_u8, 0x00_u8, 0x00_u8], &buf[..]);
}

#[test]
fn encode_num_bottom_two_bytes() {
    let mut buf: Vec<u8> = vec![0; 4];

    assert_eq!(2, encode_num_scalar((1 << 16) - 1, &mut buf, 0));
    assert_eq!(&[0xFF_u8, 0xFF_u8, 0x00_u8, 0x00_u8], &buf[..]);
}

#[test]
fn encode_num_middleish() {
    let mut buf: Vec<u8> = vec![0; 4];

    assert_eq!(3, encode_num_scalar((1 << 16) + 3, &mut buf, 0));
    assert_eq!(&[0x03_u8, 0x00_u8, 0x01_u8, 0x00_u8], &buf[..]);
}

#[test]
fn encode_num_u32_max() {
    let mut buf: Vec<u8> = vec![0; 4];

    assert_eq!(4, encode_num_scalar(u32::MAX, &mut buf, 0));
    assert_eq!(&[0xFF_u8, 0xFF_u8, 0xFF_u8, 0xFF_u8], &buf[..]);
}

#[test]
fn reads_all_requested_control_bytes_when_12_extra_input_bytes() {
    let nums: Vec<u32> = (0..64).map(|i| i * 100).collect();
    let mut encoded = Vec::new();
    encoded.resize(nums.len() * 5, 0xFF);

    encode::<Scalar>(&nums, &mut encoded);

    // 16 control bytes
    let control_bytes = &encoded[0..16];
    let encoded_nums = &encoded[16..];

    for control_bytes_to_decode in 0..14 {
        let mut decoded: Vec<u32> = vec![54321; nums.len()];

        // requesting 13 or fewer control bytes decodes all requested bytes
        let (nums_decoded, bytes_read) = NeonDecoder::decode_quads(
            control_bytes,
            encoded_nums,
            &mut decoded,
            0,
            control_bytes_to_decode,
        );
        assert_eq!(control_bytes_to_decode * 4, nums_decoded);
        assert_eq!(
            cumulative_encoded_len(&control_bytes[0..control_bytes_to_decode]),
            bytes_read
        );
        assert_eq!(&nums[0..nums_decoded], &decoded[0..nums_decoded]);
        assert!(decoded[nums_decoded..].iter().all(|&i| i == 54321_u32));
    }

    for control_bytes_to_decode in 14..17 {
        let mut decoded: Vec<u32> = vec![54321; nums.len()];

        // requesting more than 13 gets capped to 13 because there may not be
        // enough encoded nums to read 16 bytes at a time
        let (nums_decoded, bytes_read) = NeonDecoder::decode_quads(
            control_bytes,
            encoded_nums,
            &mut decoded,
            0,
            control_bytes_to_decode,
        );
        assert_eq!(13 * 4, nums_decoded);
        assert_eq!(
            cumulative_encoded_len(&control_bytes[0..(nums_decoded / 4)]),
            bytes_read
        );
        assert_eq!(&nums[0..nums_decoded], &decoded[0..nums_decoded]);
        assert!(decoded[nums_decoded..].iter().all(|&i| i == 54321_u32));
    }
}

#[test]
fn encodes_all_but_last_3_control_bytes() {
    // cover the whole byte length range
    let nums: Vec<u32> = (0..32).map(|i| 1 << i).collect();

    for control_bytes_len in 0..(nums.len() / 4 + 1) {
        let mut encoded: Vec<u8> = vec![0xFF; nums.len() * 5];

        let (nums_encoded, bytes_written) = NeonEncoder::encode_quads(
            &nums[0..4 * control_bytes_len],
            &mut encoded,
            0,
            control_bytes_len,
            control_bytes_len,
        );

        let control_bytes_written = nums_encoded / 4;

        assert_eq!(
            cumulative_encoded_len(&encoded[0..control_bytes_written]),
            bytes_written
        );

        // the last control byte written may not have populated all 16 output
        // bytes with encoded nums, depending on the length required. Any
        // unused trailing bytes will have had 0 written, but nothing beyond
        // that 16 should be touched.

        let length_before_final_control_byte =
            cumulative_encoded_len(&encoded[0..control_bytes_written.saturating_sub(1)]);

        let bytes_written_for_final_control_byte = bytes_written - length_before_final_control_byte;
        let trailing_zero_len = if control_bytes_written > 0 {
            16 - bytes_written_for_final_control_byte
        } else {
            0
        };

        assert!(encoded[control_bytes_len + bytes_written
            ..control_bytes_len + bytes_written + trailing_zero_len]
            .iter()
            .all(|&i| i == 0));
        assert!(
            encoded[control_bytes_len + bytes_written + trailing_zero_len..]
                .iter()
                .all(|&i| i == 0xFF)
        );
    }
}
