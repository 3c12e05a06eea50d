//! The Q565 stream as mathematics: what each opcode means, what a decoder produces from a byte
//! sequence, what the encoder emits for a pixel sequence, and the byte-at-a-time state machine
//! of the streaming decoder.
use crate::utils::{apply_diff_spec, blue, green, hash_of, red, wrap_diff};
use vstd::prelude::*;

verus! {

/// What a coder carries from pixel to pixel: the previous pixel and the 64-slot color array.
pub struct CodecState {
    pub prev: u16,
    pub arr: Seq<u16>,
}

/// The state at the start of every frame: black everywhere.
pub open spec fn initial_state() -> CodecState {
    CodecState { prev: 0, arr: Seq::new(64, |i: int| 0u16) }
}

pub open spec fn state_wf(s: CodecState) -> bool {
    s.arr.len() == 64
}

/// `p` becomes the previous pixel and is stored in its color-array slot.
pub open spec fn remember(s: CodecState, p: u16) -> CodecState {
    CodecState { prev: p, arr: s.arr.update(hash_of(p) as int, p) }
}

/// `p` becomes the previous pixel; the color array stays as it is.
pub open spec fn set_prev(s: CodecState, p: u16) -> CodecState {
    CodecState { prev: p, arr: s.arr }
}

/// The number of bytes of the opcode that starts with `b`.
pub open spec fn op_len(b: u8) -> nat {
    if 128 <= b < 192 {
        2
    } else if b == 254 {
        3
    } else {
        1
    }
}

/// The pixel of a one-byte difference opcode `b` applied to `prev`.
pub open spec fn small_diff_pixel(prev: u16, b: u8) -> u16 {
    apply_diff_spec(prev, ((b / 16) % 4 - 2) as i8, ((b / 4) % 4 - 2) as i8, (b % 4 - 2) as i8)
}

/// The pixel of a luma opcode `b1 b2` applied to `prev`.
pub open spec fn luma_pixel(prev: u16, b1: u8, b2: u8) -> u16 {
    let dg = b1 % 32 - 16;
    apply_diff_spec(prev, (b2 / 16 - 8 + dg) as i8, dg as i8, (b2 % 16 - 8 + dg) as i8)
}

/// The pixel of an indexed-difference opcode `b1 b2` applied to the color array.
pub open spec fn indexed_diff_pixel(arr: Seq<u16>, b1: u8, b2: u8) -> u16 {
    apply_diff_spec(
        arr[(b2 % 64) as int],
        (b1 % 4 - 2) as i8,
        ((b1 / 4) % 8 - 4) as i8,
        (b2 / 64 - 2) as i8,
    )
}

/// The pixels of one complete opcode other than END, and the state after it.
pub open spec fn apply_op(s: CodecState, op: Seq<u8>) -> (CodecState, Seq<u16>) {
    let b = op[0];
    if b < 64 {
        (set_prev(s, s.arr[b as int]), seq![s.arr[b as int]])
    } else if b < 128 {
        let p = small_diff_pixel(s.prev, b);
        (set_prev(s, p), seq![p])
    } else if b < 160 {
        let p = luma_pixel(s.prev, b, op[1]);
        (remember(s, p), seq![p])
    } else if b < 192 {
        let p = indexed_diff_pixel(s.arr, b, op[1]);
        (remember(s, p), seq![p])
    } else if b < 254 {
        (s, Seq::new((b % 64 + 1) as nat, |i: int| s.prev))
    } else {
        let p = (op[1] + 256 * op[2]) as u16;
        (remember(s, p), seq![p])
    }
}

/// What decoding a byte sequence (without header) produces.
pub struct DataDecode {
    /// The pixels of every complete opcode read.
    pub pixels: Seq<u16>,
    /// Whether the END opcode was reached; when not, the input ran out first.
    pub complete: bool,
    /// How many bytes were read, END included.
    pub consumed: nat,
    /// The state after the last complete opcode.
    pub state: CodecState,
}

/// Decoding of `data` from state `s`: opcodes one after the other until END, or until the
/// input runs out (possibly in the middle of an opcode).
pub open spec fn decode_data_spec(s: CodecState, data: Seq<u8>) -> DataDecode
    decreases data.len(),
{
    if data.len() == 0 {
        DataDecode { pixels: Seq::empty(), complete: false, consumed: 0, state: s }
    } else if data[0] == 255 {
        DataDecode { pixels: Seq::empty(), complete: true, consumed: 1, state: s }
    } else if data.len() < op_len(data[0]) {
        DataDecode { pixels: Seq::empty(), complete: false, consumed: data.len(), state: s }
    } else {
        let k = op_len(data[0]) as int;
        let (st2, px) = apply_op(s, data.take(k));
        let rest = decode_data_spec(st2, data.skip(k));
        DataDecode {
            pixels: px + rest.pixels,
            complete: rest.complete,
            consumed: (k + rest.consumed) as nat,
            state: rest.state,
        }
    }
}

/// The four magic bytes `q565`.
pub open spec fn magic() -> Seq<u8> {
    seq![0x71u8, 0x35u8, 0x36u8, 0x35u8]
}

/// The width that a header holds.
pub open spec fn header_width(data: Seq<u8>) -> u16 {
    (data[4] + 256 * data[5]) as u16
}

/// The height that a header holds.
pub open spec fn header_height(data: Seq<u8>) -> u16 {
    (data[6] + 256 * data[7]) as u16
}

/// The eight header bytes of an image.
pub open spec fn header_bytes(width: u16, height: u16) -> Seq<u8> {
    magic() + seq![
        (width % 256) as u8,
        (width / 256) as u8,
        (height % 256) as u8,
        (height / 256) as u8,
    ]
}

/// A well-formed image: a header, then opcodes that end with END as the last byte and give
/// exactly `width * height` pixels.
pub open spec fn valid_image(data: Seq<u8>) -> bool {
    let d = decode_data_spec(initial_state(), data.skip(8));
    &&& data.len() >= 9
    &&& data.take(4) == magic()
    &&& d.complete
    &&& d.consumed == data.len() - 8
    &&& d.pixels.len() == header_width(data) * header_height(data)
}

// ---------------------------------------------------------------- streaming

/// Where the streaming decoder stands inside an opcode.
#[derive(Clone, Copy, Debug)]
pub enum Q565StreamingDecodeState {
    /// The next byte starts an opcode.
    Default,
    /// The first byte of a luma or indexed-difference opcode has been read.
    LumaOrDiffIndexedByte2(u8),
    /// The RGB565 tag has been read; the low byte of the pixel comes next.
    RawRgb565Byte1,
    /// The low byte of a literal pixel has been read; the high byte comes next.
    RawRgb565Byte2(u8),
}

/// The full state of a streaming decoder between two bytes.
pub struct StreamView {
    pub phase: Q565StreamingDecodeState,
    pub codec: CodecState,
}

pub open spec fn phase_wf(phase: Q565StreamingDecodeState) -> bool {
    match phase {
        Q565StreamingDecodeState::LumaOrDiffIndexedByte2(b) => 128 <= b < 192,
        _ => true,
    }
}

/// One byte through the streaming decoder: the state after it, the pixels it completes, and
/// whether it was END.
pub open spec fn stream_step(v: StreamView, b: u8) -> (StreamView, Seq<u16>, bool) {
    match v.phase {
        Q565StreamingDecodeState::Default => {
            if b == 255 {
                (v, Seq::empty(), true)
            } else if 128 <= b < 192 {
                (
                    StreamView {
                        phase: Q565StreamingDecodeState::LumaOrDiffIndexedByte2(b),
                        codec: v.codec,
                    },
                    Seq::empty(),
                    false,
                )
            } else if b == 254 {
                (
                    StreamView { phase: Q565StreamingDecodeState::RawRgb565Byte1, codec: v.codec },
                    Seq::empty(),
                    false,
                )
            } else {
                let (st2, px) = apply_op(v.codec, seq![b]);
                (StreamView { phase: Q565StreamingDecodeState::Default, codec: st2 }, px, false)
            }
        },
        Q565StreamingDecodeState::LumaOrDiffIndexedByte2(b1) => {
            let (st2, px) = apply_op(v.codec, seq![b1, b]);
            (StreamView { phase: Q565StreamingDecodeState::Default, codec: st2 }, px, false)
        },
        Q565StreamingDecodeState::RawRgb565Byte1 => (
            StreamView { phase: Q565StreamingDecodeState::RawRgb565Byte2(b), codec: v.codec },
            Seq::empty(),
            false,
        ),
        Q565StreamingDecodeState::RawRgb565Byte2(b1) => {
            let (st2, px) = apply_op(v.codec, seq![254u8, b1, b]);
            (StreamView { phase: Q565StreamingDecodeState::Default, codec: st2 }, px, false)
        },
    }
}

/// One call of the streaming decoder on `input`: bytes one at a time until the input is used
/// up or END is read. Gives the state after the call, the pixels produced, and whether END was
/// read.
pub open spec fn stream_feed(v: StreamView, input: Seq<u8>) -> (StreamView, Seq<u16>, bool)
    decreases input.len(),
{
    if input.len() == 0 {
        (v, Seq::empty(), false)
    } else {
        let (v1, px1, ended) = stream_step(v, input[0]);
        if ended {
            (v1, px1, true)
        } else {
            let (v2, px2, e2) = stream_feed(v1, input.skip(1));
            (v2, px1 + px2, e2)
        }
    }
}

/// The bytes of all chunks, one after the other.
pub open spec fn flatten_chunks(chunks: Seq<Seq<u8>>) -> Seq<u8>
    decreases chunks.len(),
{
    if chunks.len() == 0 {
        Seq::empty()
    } else {
        chunks[0] + flatten_chunks(chunks.skip(1))
    }
}

/// Successive calls of the streaming decoder, one per chunk; gives the state after the last
/// call and every pixel produced, in order.
pub open spec fn stream_chunks(v: StreamView, chunks: Seq<Seq<u8>>) -> (StreamView, Seq<u16>)
    decreases chunks.len(),
{
    if chunks.len() == 0 {
        (v, Seq::empty())
    } else {
        let (v1, px1, _) = stream_feed(v, chunks[0]);
        let (v2, px2) = stream_chunks(v1, chunks.skip(1));
        (v2, px1 + px2)
    }
}

// ---------------------------------------------------------------- encoding

/// How many pixels at the start of `px` equal `p`.
pub open spec fn run_length(px: Seq<u16>, p: u16) -> nat
    decreases px.len(),
{
    if px.len() > 0 && px[0] == p {
        1 + run_length(px.skip(1), p)
    } else {
        0
    }
}

/// The RUN bytes for a run of `len` pixels: `len / 62` full runs of 62, then one for the rest
/// when there is a rest.
pub open spec fn run_bytes(len: nat) -> Seq<u8> {
    Seq::new(len / 62, |i: int| 0xFDu8) + if len % 62 > 0 {
        seq![(0xC0 + len % 62 - 1) as u8]
    } else {
        Seq::empty()
    }
}

/// Whether `p` is within a DIFF of `prev`: every channel within `-2..=1`.
pub open spec fn small_diff_fits(prev: u16, p: u16) -> bool {
    let dr = wrap_diff(red(p), red(prev), 5);
    let dg = wrap_diff(green(p), green(prev), 6);
    let db = wrap_diff(blue(p), blue(prev), 5);
    -2 <= dr <= 1 && -2 <= dg <= 1 && -2 <= db <= 1
}

/// Whether `p` is within a LUMA of `prev`.
pub open spec fn luma_fits(prev: u16, p: u16) -> bool {
    let dr = wrap_diff(red(p), red(prev), 5);
    let dg = wrap_diff(green(p), green(prev), 6);
    let db = wrap_diff(blue(p), blue(prev), 5);
    -16 <= dg <= 15 && -8 <= dr - dg <= 7 && -8 <= db - dg <= 7
}

/// Whether `p` is within an indexed difference of the color-array entry `q`.
pub open spec fn indexed_fits(q: u16, p: u16) -> bool {
    let dr = wrap_diff(red(p), red(q), 5);
    let dg = wrap_diff(green(p), green(q), 6);
    let db = wrap_diff(blue(p), blue(q), 5);
    -2 <= dr <= 1 && -4 <= dg <= 3 && -2 <= db <= 1
}

/// The first slot, from `i` on, whose entry `p` is within an indexed difference of.
pub open spec fn first_indexed(arr: Seq<u16>, p: u16, i: nat) -> Option<nat>
    decreases 64 - i,
{
    if i >= 64 {
        None
    } else if indexed_fits(arr[i as int], p) {
        Some(i)
    } else {
        first_indexed(arr, p, i + 1)
    }
}

pub open spec fn diff_byte(prev: u16, p: u16) -> u8 {
    let dr = wrap_diff(red(p), red(prev), 5);
    let dg = wrap_diff(green(p), green(prev), 6);
    let db = wrap_diff(blue(p), blue(prev), 5);
    (64 + (dr + 2) * 16 + (dg + 2) * 4 + (db + 2)) as u8
}

pub open spec fn luma_bytes(prev: u16, p: u16) -> Seq<u8> {
    let dr = wrap_diff(red(p), red(prev), 5);
    let dg = wrap_diff(green(p), green(prev), 6);
    let db = wrap_diff(blue(p), blue(prev), 5);
    seq![(128 + dg + 16) as u8, ((dr - dg + 8) * 16 + (db - dg + 8)) as u8]
}

pub open spec fn indexed_bytes(q: u16, i: nat, p: u16) -> Seq<u8> {
    let dr = wrap_diff(red(p), red(q), 5);
    let dg = wrap_diff(green(p), green(q), 6);
    let db = wrap_diff(blue(p), blue(q), 5);
    seq![(160 + (dg + 4) * 4 + (dr + 2)) as u8, ((db + 2) * 64 + i) as u8]
}

pub open spec fn raw_bytes(p: u16) -> Seq<u8> {
    seq![254u8, (p % 256) as u8, (p / 256) as u8]
}

/// The bytes for one pixel `p` that differs from the previous one, chosen in priority order
/// (INDEX, DIFF, LUMA, indexed difference, RGB565), and the state after it.
pub open spec fn encode_op(s: CodecState, p: u16) -> (Seq<u8>, CodecState) {
    let h = hash_of(p);
    if s.arr[h as int] == p {
        (seq![h], set_prev(s, p))
    } else if small_diff_fits(s.prev, p) {
        (seq![diff_byte(s.prev, p)], set_prev(s, p))
    } else if luma_fits(s.prev, p) {
        (luma_bytes(s.prev, p), remember(s, p))
    } else {
        match first_indexed(s.arr, p, 0) {
            Some(i) => (indexed_bytes(s.arr[i as int], i, p), remember(s, p)),
            None => (raw_bytes(p), remember(s, p)),
        }
    }
}

/// A run never reaches past the end of the pixels it is counted in.
pub proof fn lemma_run_length_bounds(px: Seq<u16>, p: u16)
    ensures
        run_length(px, p) <= px.len(),
        px.len() > 0 && px[0] == p ==> run_length(px, p) >= 1,
    decreases px.len(),
{
    if px.len() > 0 && px[0] == p {
        lemma_run_length_bounds(px.skip(1), p);
    }
}

/// The opcode bytes for `px` from state `s` (without header and END), and the state after.
pub open spec fn encode_pixels_spec(s: CodecState, px: Seq<u16>) -> (Seq<u8>, CodecState)
    decreases px.len(),
    via encode_pixels_decreases
{
    if px.len() == 0 {
        (Seq::empty(), s)
    } else if px[0] == s.prev {
        let n = run_length(px, s.prev);
        let (rest, st2) = encode_pixels_spec(s, px.skip(n as int));
        (run_bytes(n) + rest, st2)
    } else {
        let (op, st1) = encode_op(s, px[0]);
        let (rest, st2) = encode_pixels_spec(st1, px.skip(1));
        (op + rest, st2)
    }
}

#[via_fn]
proof fn encode_pixels_decreases(s: CodecState, px: Seq<u16>) {
    lemma_run_length_bounds(px, s.prev);
}

/// The complete stream for an image: header, opcodes from the initial state, END.
pub open spec fn encoded_image(width: u16, height: u16, px: Seq<u16>) -> Seq<u8> {
    header_bytes(width, height) + encode_pixels_spec(initial_state(), px).0 + seq![255u8]
}

} // verus!
