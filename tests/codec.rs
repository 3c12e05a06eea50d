use q565::alloc_api::{decode_to_vec, encode_to_vec, DecodeToVecError, Header};
use q565::consts::{Q565_OP_END, Q565_OP_RGB565};
use q565::decode::streaming_no_header::Q565StreamingDecodeContext;
use q565::decode::{
    DecodeError, DecodeUncheckedError, InfallibleDecodeOutput, Q565DecodeContext,
    UnsafeSliceDecodeOutput, VecDecodeOutput,
};
use q565::encode::{EncodeError, Q565EncodeContext};
use q565::utils::{
    decode_565, diff_n, encode_rgb565_unchecked, hash, le_bytes, rgb565_to_rgb888,
    rgb888_to_rgb565, sum_n, BigEndian, LittleEndian,
};
use q565::HeaderInfo;

fn encode_vec(width: u16, height: u16, pixels: &[u16]) -> Vec<u8> {
    let mut out = Vec::new();
    assert!(Q565EncodeContext::encode_to_vec(width, height, pixels, &mut out));
    out
}

fn decode_le(data: &[u8]) -> (Vec<u16>, HeaderInfo) {
    let mut output = VecDecodeOutput::new(Vec::new());
    let (n, header) = Q565DecodeContext::decode::<LittleEndian, _>(data, &mut output).unwrap();
    let v = output.into_inner();
    assert_eq!(n, v.len());
    (v, header)
}

fn decode_streaming(data: &[u8], chunk: usize, pixel_count: usize) -> Vec<u16> {
    let mut decoded = vec![0u16; pixel_count];
    let mut state = Q565StreamingDecodeContext::new();
    let mut pos = 0;
    for c in data[8..].chunks(chunk) {
        pos += state.streaming_decode_to_slice_unchecked::<LittleEndian>(c, &mut decoded[pos..]);
    }
    assert_eq!(pos, pixel_count);
    decoded
}

/// A deterministic test image with gradients, flat areas, repeats and noise.
fn synthetic_image(width: usize, height: usize, seed: u32) -> Vec<u16> {
    let mut x = seed;
    let mut v = Vec::with_capacity(width * height);
    for j in 0..height {
        for i in 0..width {
            x = x.wrapping_mul(1103515245).wrapping_add(12345);
            let noise = (x >> 16) as u16;
            let p = match (i / 7 + j / 5) % 5 {
                0 => 0,
                1 => ((i as u16) << 5) | (j as u16 & 31),
                2 => noise,
                3 => encode_rgb565_unchecked([(i % 32) as u8, (j % 64) as u8, ((i + j) % 32) as u8]),
                _ => if i % 2 == 0 { 0xF81F } else { 0x07E0 },
            };
            v.push(p);
        }
    }
    v
}

fn check_all_decoders(width: u16, height: u16, input: &[u16]) {
    let pixel_count = input.len();
    let encoded = encode_vec(width, height, input);

    let mut encoded2 = Vec::new();
    Q565EncodeContext::encode(width, height, input, &mut encoded2).unwrap();
    assert_eq!(encoded, encoded2, "encoding mismatch");

    let mut encoded3 = Vec::new();
    assert!(encode_to_vec(width, height, input, &mut encoded3));
    assert_eq!(encoded, encoded3);

    let (decoded, header) = decode_le(&encoded);
    assert_eq!(header, HeaderInfo { width, height });
    assert_eq!(input, &decoded[..], "safe decoding failed");

    let mut slice_output = UnsafeSliceDecodeOutput::new(vec![0u16; pixel_count]);
    Q565DecodeContext::decode_unchecked::<LittleEndian, _>(&encoded, &mut slice_output).unwrap();
    assert_eq!(input, &slice_output.into_inner()[..], "unsafe decoding failed");

    for chunk in [1, 2, 3, 7, 512] {
        assert_eq!(input, &decode_streaming(&encoded, chunk, pixel_count)[..], "streaming decoding failed");
    }

    let mut v = Vec::new();
    let h = decode_to_vec::<LittleEndian>(&encoded, &mut v).unwrap();
    assert_eq!(h, Header { width, height });
    assert_eq!(input, &v[..]);
}

#[test]
fn roundtrip() {
    for (w, h, seed) in [(1usize, 1usize, 1u32), (16, 16, 2), (64, 33, 3), (200, 7, 4), (3, 100, 5)] {
        let input = synthetic_image(w, h, seed);
        check_all_decoders(w as u16, h as u16, &input);
    }
}

#[test]
fn two_black_pixels() {
    let encoded = encode_vec(2, 1, &[0x0000, 0x0000]);
    // One RUN of two pixels: the count is stored minus one.
    assert_eq!(encoded, vec![b'q', b'5', b'6', b'5', 0x02, 0x00, 0x01, 0x00, 0xC1, 0xFF]);
    assert_eq!(encoded.len(), 10);
    assert_eq!(decode_le(&encoded).0, vec![0x0000, 0x0000]);
}

#[test]
fn single_magenta_pixel() {
    // Red and blue are one below black, with wrap-around: a DIFF suffices.
    let encoded = encode_vec(1, 1, &[0xF81F]);
    assert_eq!(encoded, vec![b'q', b'5', b'6', b'5', 0x01, 0x00, 0x01, 0x00, 0x59, 0xFF]);
    assert_eq!(decode_le(&encoded).0, vec![0xF81F]);
    // The same pixel as an RGB565 literal.
    let literal = [b'q', b'5', b'6', b'5', 0x01, 0x00, 0x01, 0x00, 0xFE, 0x1F, 0xF8, 0xFF];
    assert_eq!(decode_le(&literal).0, vec![0xF81F]);
}

#[test]
fn single_green_step_is_a_diff() {
    let encoded = encode_vec(1, 1, &[0x0021]);
    let diff = 0b01_10_11_11u8;
    assert_eq!(encoded, vec![b'q', b'5', b'6', b'5', 0x01, 0x00, 0x01, 0x00, diff, 0xFF]);
    assert_eq!(decode_le(&encoded).0, vec![0x0021]);
}

#[test]
fn long_black_run() {
    let input = vec![0u16; 125];
    let encoded = encode_vec(125, 1, &input);
    assert_eq!(&encoded[8..], &[0xFD, 0xFD, 0xC0, 0xFF]);
    assert_eq!(decode_le(&encoded).0, input);
}

#[test]
fn streaming_one_byte_at_a_time() {
    let input = vec![0u16; 125];
    let encoded = encode_vec(125, 1, &input);
    assert_eq!(decode_streaming(&encoded, 1, 125), input);
}

#[test]
fn big_endian_output() {
    let encoded = [b'q', b'5', b'6', b'5', 0x01, 0x00, 0x01, 0x00, 0xFE, 0x1F, 0xF8, 0xFF];
    let mut output = VecDecodeOutput::new(Vec::new());
    Q565DecodeContext::decode::<BigEndian, _>(&encoded, &mut output).unwrap();
    assert_eq!(output.into_inner(), vec![0x1FF8]);

    let mut v = Vec::new();
    decode_to_vec::<BigEndian>(&encoded, &mut v).unwrap();
    assert_eq!(v, vec![0x1FF8]);

    let mut out = [0u16; 1];
    let mut state = Q565StreamingDecodeContext::new();
    assert_eq!(state.streaming_decode_to_slice_unchecked::<BigEndian>(&encoded[8..], &mut out), 1);
    assert_eq!(out, [0x1FF8]);
}

#[test]
fn big_endian_is_byte_swapped_little_endian() {
    let input = synthetic_image(40, 10, 9);
    let encoded = encode_vec(40, 10, &input);
    let le = decode_le(&encoded).0;
    let mut output = VecDecodeOutput::new(Vec::new());
    Q565DecodeContext::decode::<BigEndian, _>(&encoded, &mut output).unwrap();
    let be = output.into_inner();
    assert_eq!(be.len(), le.len());
    for (a, b) in le.iter().zip(be.iter()) {
        assert_eq!(a.swap_bytes(), *b);
    }
}

#[test]
fn hash_is_sum_of_bytes() {
    assert_eq!(hash(0x0000), 0);
    assert_eq!(hash(0xF81F), (0xF8u8.wrapping_add(0x1F)) & 63);
    assert_eq!(hash(0x1234), hash(0x3412));
    assert_eq!(hash(0xFFFF), 0xFEu8 & 63);
}

#[test]
fn channel_packing() {
    assert_eq!(decode_565(0xF81F), [31, 0, 31]);
    assert_eq!(decode_565(0x07E0), [0, 63, 0]);
    assert_eq!(encode_rgb565_unchecked([31, 0, 31]), 0xF81F);
    assert_eq!(encode_rgb565_unchecked([1, 2, 3]), (1 << 11) | (2 << 5) | 3);
    assert_eq!(le_bytes(0xF81F), [0x1F, 0xF8]);
}

#[test]
fn wrapping_differences() {
    assert_eq!(diff_n::<5>(0, 31), 1);
    assert_eq!(diff_n::<5>(31, 0), -1);
    assert_eq!(diff_n::<6>(10, 2), 8);
    assert_eq!(diff_n::<5>(16, 0), -16);
    assert_eq!(sum_n::<5>(31, 1), 0);
    assert_eq!(sum_n::<5>(0, -1), 31);
    assert_eq!(sum_n::<6>(63, 2), 1);
    assert_eq!(sum_n::<6>(5, -7), 62);
}

#[test]
fn color_conversion() {
    assert_eq!(rgb888_to_rgb565([255, 255, 255]), [31, 63, 31]);
    assert_eq!(rgb888_to_rgb565([0, 0, 0]), [0, 0, 0]);
    assert_eq!(rgb888_to_rgb565([128, 128, 128]), [16, 32, 16]);
    assert_eq!(rgb565_to_rgb888([31, 63, 31]), [255, 255, 255]);
    assert_eq!(rgb565_to_rgb888([16, 32, 16]), [132, 130, 132]);
}

#[test]
fn channel_wrap_diff() {
    // Red wraps from 31 to 0: a one-byte difference.
    let input = [0xF800u16, 0x0000];
    let encoded = encode_vec(2, 1, &input);
    assert_eq!(decode_le(&encoded).0, input.to_vec());
    assert!(encoded.len() < 8 + 3 + 3 + 1);
}

#[test]
fn alternating_colors_use_index() {
    let input: Vec<u16> = (0..20).map(|i| if i % 2 == 0 { 0x8410 } else { 0x4208 }).collect();
    let encoded = encode_vec(20, 1, &input);
    // two literals, then one-byte index hits
    assert_eq!(encoded.len(), 8 + 3 + 3 + 18 + 1);
    assert_eq!(encoded[8], Q565_OP_RGB565);
    assert_eq!(*encoded.last().unwrap(), Q565_OP_END);
    assert_eq!(decode_le(&encoded).0, input);
}

#[test]
fn dimension_mismatch() {
    let mut out = vec![7u8];
    assert!(!Q565EncodeContext::encode_to_vec(2, 2, &[0, 0, 0], &mut out));
    assert_eq!(out, vec![7u8]);
    assert!(!encode_to_vec(1, 2, &[0], &mut out));
    assert_eq!(
        Q565EncodeContext::encode(2, 2, &[0, 0, 0], &mut out),
        Err(EncodeError::InvalidDimensions { width: 2, height: 2, pixel_count: 3 })
    );
    assert_eq!(out, vec![7u8]);
}

#[test]
fn decode_errors() {
    let encoded = encode_vec(1, 1, &[0xF81F]);
    let mut output = VecDecodeOutput::new(Vec::new());
    assert_eq!(
        Q565DecodeContext::decode::<LittleEndian, _>(&encoded[..8], &mut output),
        Err(DecodeError::UnexpectedEof)
    );
    let mut bad = encoded.clone();
    bad[0] = b'Q';
    assert_eq!(
        Q565DecodeContext::decode::<LittleEndian, _>(&bad, &mut output),
        Err(DecodeError::InvalidMagic)
    );
    assert_eq!(
        Q565DecodeContext::decode::<LittleEndian, _>(&encoded[..encoded.len() - 1], &mut output),
        Err(DecodeError::UnexpectedEof)
    );
    let mut small = UnsafeSliceDecodeOutput::new(vec![0u16; 0]);
    assert_eq!(
        Q565DecodeContext::decode::<LittleEndian, _>(&encoded, &mut small),
        Err(DecodeError::OutputTooSmall)
    );
    // A header that claims one pixel, followed by a run of two.
    let lying = [b'q', b'5', b'6', b'5', 1, 0, 1, 0, 0xC1, 0xFF];
    let mut one = UnsafeSliceDecodeOutput::new(vec![0u16; 1]);
    assert_eq!(
        Q565DecodeContext::decode::<LittleEndian, _>(&lying, &mut one),
        Err(DecodeError::OutputTooSmall)
    );
    let mut small = UnsafeSliceDecodeOutput::new(vec![0u16; 0]);
    assert_eq!(
        Q565DecodeContext::decode_unchecked::<LittleEndian, _>(&encoded, &mut small),
        Err(DecodeUncheckedError::OutputTooSmall)
    );
    let mut v = Vec::new();
    assert_eq!(decode_to_vec::<LittleEndian>(&encoded[..5], &mut v), Err(DecodeToVecError::UnexpectedEof));
    assert_eq!(decode_to_vec::<LittleEndian>(&bad, &mut v), Err(DecodeToVecError::InvalidMagic));
}

#[test]
fn vec_output_appends() {
    let encoded = encode_vec(1, 1, &[0x1234]);
    let mut output = VecDecodeOutput::new(vec![9, 9]);
    let (pos, _) = Q565DecodeContext::decode::<LittleEndian, _>(&encoded, &mut output).unwrap();
    assert_eq!(pos, 1);
    assert_eq!(output.max_len(), None);
    assert_eq!(output.current_output_position(), 1);
    assert_eq!(output.into_inner(), vec![9, 9, 0x1234]);
}

#[test]
fn decode_data_with_state_continues() {
    let input = synthetic_image(10, 10, 3);
    let encoded = encode_vec(10, 10, &input);
    let mut ctx = Q565DecodeContext::new();
    let mut output = UnsafeSliceDecodeOutput::new(vec![0u16; 100]);
    let n = ctx.decode_data_unchecked::<LittleEndian, _>(&encoded[8..], &mut output);
    assert_eq!(n, 100);
    assert_eq!(output.into_inner(), input);
}

#[test]
fn encode_pixels_with_header() {
    let input = synthetic_image(9, 4, 11);
    let mut a = Vec::new();
    Q565EncodeContext::encode_header(9, 4, &mut a);
    assert_eq!(a, vec![b'q', b'5', b'6', b'5', 9, 0, 4, 0]);
    let mut ctx = Q565EncodeContext::new();
    ctx.encode_pixels(&input, &mut a);
    assert_eq!(a, encode_vec(9, 4, &input));
    let mut ctx2 = Q565EncodeContext::default();
    let mut b = Vec::new();
    assert!(ctx2.encode_to_vec_with_state(9, 4, &input, &mut b));
    assert_eq!(a, b);
}

#[test]
fn luma_opcode() {
    let p = encode_rgb565_unchecked([10, 10, 10]);
    let encoded = encode_vec(1, 1, &[p]);
    // green +10 (bias 16), red and blue equal to green
    assert_eq!(&encoded[8..], &[0x80 | 26, (8 << 4) | 8, 0xFF]);
    assert_eq!(decode_le(&encoded).0, vec![p]);
}

#[test]
fn indexed_diff_opcode() {
    let input = [0x8410u16, 0xFFFF, 0x8C10];
    let encoded = encode_vec(3, 1, &input);
    assert_eq!(&encoded[8..], &[0xFE, 0x10, 0x84, 0xAD, 0x40, 0xB3, 0x94, 0xFF]);
    check_all_decoders(3, 1, &input);
}

#[test]
fn diff_does_not_enter_color_array() {
    let input = [0x0021u16, 0x0000, 0x0021];
    let encoded = encode_vec(3, 1, &input);
    assert_eq!(&encoded[8..], &[0x6F, 0x00, 0x6F, 0xFF]);
    check_all_decoders(3, 1, &input);
}

#[test]
fn run_chunk_boundaries() {
    for (len, expected) in [
        (1usize, vec![0xC0u8]),
        (61, vec![0xFC]),
        (62, vec![0xFD]),
        (63, vec![0xFD, 0xC0]),
        (124, vec![0xFD, 0xFD]),
        (130, vec![0xFD, 0xFD, 0xC5]),
    ] {
        let input = vec![0u16; len];
        let encoded = encode_vec(len as u16, 1, &input);
        let mut body = expected.clone();
        body.push(0xFF);
        assert_eq!(&encoded[8..], &body[..]);
        check_all_decoders(len as u16, 1, &input);
    }
}

#[test]
fn streaming_split_inside_opcodes() {
    let input = [0x8410u16, 0xFFFF, 0x8C10, 0x8C10, 0x1234];
    let encoded = encode_vec(5, 1, &input);
    let body = &encoded[8..];
    for cut in 0..=body.len() {
        let mut out = vec![0u16; 5];
        let mut state = Q565StreamingDecodeContext::default();
        let n = state.streaming_decode_to_slice_unchecked::<LittleEndian>(&body[..cut], &mut out);
        let m = state.streaming_decode_to_slice_unchecked::<LittleEndian>(&body[cut..], &mut out[n..]);
        assert_eq!(n + m, 5);
        assert_eq!(out, input.to_vec());
    }
}

#[test]
fn largest_dimensions_header() {
    let mut w = Vec::new();
    Q565EncodeContext::encode_header(65535, 65535, &mut w);
    assert_eq!(w, vec![b'q', b'5', b'6', b'5', 0xFF, 0xFF, 0xFF, 0xFF]);
}
