//! Decoding what the encoder emits gives back the image.
use crate::encode::lemma_first_indexed;
use crate::format::{
    apply_op, decode_data_spec, encode_op, encode_pixels_spec, encoded_image, first_indexed,
    header_height, header_width, indexed_bytes, indexed_diff_pixel, indexed_fits,
    initial_state, lemma_run_length_bounds, luma_bytes, luma_fits, luma_pixel, magic, op_len,
    raw_bytes, run_bytes, run_length, small_diff_fits, small_diff_pixel,
    state_wf, valid_image, CodecState, DataDecode,
};
use crate::utils::{apply_diff_spec, blue, green, hash_of, pack_565, red, wrap_diff, wrap_sum};
use vstd::arithmetic::div_mod::{lemma_fundamental_div_mod, lemma_mod_multiples_vanish, lemma_small_mod};
use vstd::arithmetic::power2::{lemma2_to64, pow2};
use vstd::prelude::*;

verus! {

/// Adding the wrapped difference of `b` and `a` back to `a` gives `b`.
proof fn lemma_wrap_inverse(a: u8, b: u8, n: u8)
    requires
        n == 5 || n == 6,
        a < pow2(n as nat),
        b < pow2(n as nat),
    ensures
        wrap_sum(a, wrap_diff(b, a, n), n) == b,
        n == 5 ==> -16 <= wrap_diff(b, a, n) < 16,
        n == 6 ==> -32 <= wrap_diff(b, a, n) < 32,
{
    lemma2_to64();
    let big_m = pow2(n as nat) as int;
    let m = (b - a) % big_m;
    lemma_fundamental_div_mod(b - a, big_m);
    let q = (b - a) / big_m;
    let d = wrap_diff(b, a, n) as int;
    if m >= pow2((n - 1) as nat) {
        assert(d == m - big_m);
        assert(a + d == big_m * (-q - 1) + b);
        lemma_mod_multiples_vanish(-q - 1, b as int, big_m);
    } else {
        assert(d == m);
        assert(a + d == big_m * (-q) + b);
        lemma_mod_multiples_vanish(-q, b as int, big_m);
    }
    lemma_small_mod(b as nat, big_m as nat);
}

proof fn lemma_channels(p: u16)
    ensures
        red(p) < 32 && green(p) < 64 && blue(p) < 32,
        pack_565(red(p), green(p), blue(p)) == p,
{
    let x = p as int;
    lemma_fundamental_div_mod(x, 2048);
    lemma_fundamental_div_mod(x, 32);
    lemma_fundamental_div_mod(x / 32, 64);
    assert(x / 32 / 64 == x / 2048) by {
        vstd::arithmetic::div_mod::lemma_div_denominator(x, 32, 64);
    }
}

/// Applying the wrapped differences from `q` to `p` to `q` gives `p`.
proof fn lemma_apply_diff_inverse(q: u16, p: u16)
    ensures
        apply_diff_spec(
            q,
            wrap_diff(red(p), red(q), 5),
            wrap_diff(green(p), green(q), 6),
            wrap_diff(blue(p), blue(q), 5),
        ) == p,
{
    lemma2_to64();
    lemma_channels(p);
    lemma_channels(q);
    lemma_wrap_inverse(red(q), red(p), 5);
    lemma_wrap_inverse(green(q), green(p), 6);
    lemma_wrap_inverse(blue(q), blue(p), 5);
}

proof fn lemma_diff_byte_fields(x: int, y: int, z: int)
    requires
        0 <= x < 4 && 0 <= y < 4 && 0 <= z < 4,
    ensures
        ({
            let b = 64 + x * 16 + y * 4 + z;
            &&& 64 <= b < 128
            &&& (b / 16) % 4 == x && (b / 4) % 4 == y && b % 4 == z
        }),
{
}

proof fn lemma_luma_fields(g: int, x: int, y: int)
    requires
        0 <= g < 32 && 0 <= x < 16 && 0 <= y < 16,
    ensures
        (128 + g) % 32 == g,
        (x * 16 + y) / 16 == x && (x * 16 + y) % 16 == y,
{
}

proof fn lemma_indexed_fields(g: int, r: int, b: int, i: int)
    requires
        0 <= g < 8 && 0 <= r < 4 && 0 <= b < 4 && 0 <= i < 64,
    ensures
        160 <= 160 + g * 4 + r < 192,
        (160 + g * 4 + r) % 4 == r && ((160 + g * 4 + r) / 4) % 8 == g,
        (b * 64 + i) % 64 == i && (b * 64 + i) / 64 == b,
{
}

proof fn lemma_small_diff_case(prev: u16, p: u16)
    requires
        small_diff_fits(prev, p),
    ensures
        ({
            let b = crate::format::diff_byte(prev, p);
            64 <= b < 128 && small_diff_pixel(prev, b) == p
        }),
{
    lemma2_to64();
    let dr = wrap_diff(red(p), red(prev), 5);
    let dg = wrap_diff(green(p), green(prev), 6);
    let db = wrap_diff(blue(p), blue(prev), 5);
    lemma_diff_byte_fields(dr + 2, dg + 2, db + 2);
    lemma_apply_diff_inverse(prev, p);
}

proof fn lemma_luma_case(prev: u16, p: u16)
    requires
        luma_fits(prev, p),
    ensures
        ({
            let bytes = luma_bytes(prev, p);
            128 <= bytes[0] < 160 && luma_pixel(prev, bytes[0], bytes[1]) == p
        }),
{
    lemma2_to64();
    let dr = wrap_diff(red(p), red(prev), 5);
    let dg = wrap_diff(green(p), green(prev), 6);
    let db = wrap_diff(blue(p), blue(prev), 5);
    lemma_channels(p);
    lemma_channels(prev);
    lemma_wrap_inverse(red(prev), red(p), 5);
    lemma_wrap_inverse(green(prev), green(p), 6);
    lemma_wrap_inverse(blue(prev), blue(p), 5);
    lemma_luma_fields(dg + 16, dr - dg + 8, db - dg + 8);
    lemma_apply_diff_inverse(prev, p);
}

proof fn lemma_indexed_case(arr: Seq<u16>, i: nat, p: u16)
    requires
        arr.len() == 64,
        i < 64,
        indexed_fits(arr[i as int], p),
    ensures
        ({
            let bytes = indexed_bytes(arr[i as int], i, p);
            160 <= bytes[0] < 192 && indexed_diff_pixel(arr, bytes[0], bytes[1]) == p
        }),
{
    let q = arr[i as int];
    let ir = wrap_diff(red(p), red(q), 5);
    let ig = wrap_diff(green(p), green(q), 6);
    let ib = wrap_diff(blue(p), blue(q), 5);
    lemma_indexed_fields(ig + 4, ir + 2, ib + 2, i as int);
    lemma_apply_diff_inverse(q, p);
}

/// One opcode of the encoder, read back by the decoder, gives its pixel and the encoder's
/// state.
proof fn lemma_op_round_trip(s: CodecState, p: u16)
    requires
        state_wf(s),
        p != s.prev,
    ensures
        ({
            let (bytes, st1) = encode_op(s, p);
            &&& bytes.len() == op_len(bytes[0])
            &&& bytes[0] != 255
            &&& apply_op(s, bytes) == (st1, seq![p])
            &&& state_wf(st1)
        }),
{
    let h = hash_of(p);
    let (bytes, st1) = encode_op(s, p);
    if s.arr[h as int] == p {
        assert(h < 64);
    } else if small_diff_fits(s.prev, p) {
        lemma_small_diff_case(s.prev, p);
    } else if luma_fits(s.prev, p) {
        lemma_luma_case(s.prev, p);
    } else {
        lemma_first_indexed(s.arr, p, 0);
        match first_indexed(s.arr, p, 0) {
            Some(i) => {
                lemma_indexed_case(s.arr, i, p);
            },
            None => {
                lemma_fundamental_div_mod(p as int, 256);
                assert(bytes == raw_bytes(p));
            },
        }
    }
}

/// A run of `n` pixels, read back, repeats the previous pixel `n` times and leaves the state
/// as it is.
proof fn lemma_run_round_trip(s: CodecState, n: nat, rest: Seq<u8>)
    ensures
        ({
            let r = decode_data_spec(s, rest);
            decode_data_spec(s, run_bytes(n) + rest) == DataDecode {
                pixels: Seq::new(n, |i: int| s.prev) + r.pixels,
                complete: r.complete,
                consumed: run_bytes(n).len() + r.consumed,
                state: r.state,
            }
        }),
    decreases n,
{
    let r = decode_data_spec(s, rest);
    let all = run_bytes(n) + rest;
    if n == 0 {
        assert(run_bytes(n) =~= Seq::<u8>::empty());
        assert(all =~= rest);
        assert(Seq::new(n, |i: int| s.prev) + r.pixels =~= r.pixels);
    } else {
        let (first, k): (u8, nat) = if n >= 62 { (0xFDu8, 62) } else { ((0xC0 + n - 1) as u8, n) };
        let m = (n - k) as nat;
        assert(run_bytes(n) =~= seq![first] + run_bytes(m)) by {
            if n >= 62 {
                assert(n / 62 == m / 62 + 1 && n % 62 == m % 62);
            } else {
                assert(m == 0);
                assert(n / 62 == 0 && n % 62 == n);
            }
        }
        assert(all[0] == first);
        assert(op_len(first) == 1);
        assert(all.take(1) =~= seq![first]);
        assert(all.skip(1) =~= run_bytes(m) + rest);
        lemma_run_round_trip(s, m, rest);
        let (st2, px) = apply_op(s, all.take(1));
        assert(px =~= Seq::new(k, |i: int| s.prev));
        assert(st2 == s);
        assert(Seq::new(k, |i: int| s.prev) + (Seq::new(m, |i: int| s.prev) + r.pixels) =~= Seq::new(
            n,
            |i: int| s.prev,
        ) + r.pixels);
    }
}

/// The first `run_length` pixels all equal the run's pixel.
proof fn lemma_run_prefix(px: Seq<u16>, p: u16)
    ensures
        forall|i: int| 0 <= i < run_length(px, p) ==> px[i] == p,
    decreases px.len(),
{
    lemma_run_length_bounds(px, p);
    if px.len() > 0 && px[0] == p {
        lemma_run_prefix(px.skip(1), p);
        assert forall|i: int| 0 <= i < run_length(px, p) implies px[i] == p by {
            if i > 0 {
                assert(px[i] == px.skip(1)[i - 1]);
            }
        }
    }
}

/// The opcodes that the encoder emits for `px`, then END, decode to `px` and to the
/// encoder's final state, reading every byte.
proof fn lemma_pixels_round_trip(s: CodecState, px: Seq<u16>)
    requires
        state_wf(s),
    ensures
        ({
            let (bytes, st2) = encode_pixels_spec(s, px);
            decode_data_spec(s, bytes + seq![0xFFu8]) == DataDecode {
                pixels: px,
                complete: true,
                consumed: bytes.len() + 1,
                state: st2,
            }
        }),
    decreases px.len(),
{
    let (bytes, st2) = encode_pixels_spec(s, px);
    let end = seq![0xFFu8];
    if px.len() == 0 {
        assert(bytes + end =~= end);
        assert(decode_data_spec(s, end.skip(1)) == decode_data_spec(s, Seq::<u8>::empty()));
        assert(px =~= Seq::<u16>::empty());
    } else if px[0] == s.prev {
        let n = run_length(px, s.prev);
        lemma_run_length_bounds(px, s.prev);
        lemma_run_prefix(px, s.prev);
        let (rest, st3) = encode_pixels_spec(s, px.skip(n as int));
        lemma_pixels_round_trip(s, px.skip(n as int));
        assert(bytes + end =~= run_bytes(n) + (rest + end));
        lemma_run_round_trip(s, n, rest + end);
        assert(Seq::new(n, |i: int| s.prev) + px.skip(n as int) =~= px);
    } else {
        let (op, st1) = encode_op(s, px[0]);
        lemma_op_round_trip(s, px[0]);
        let (rest, st3) = encode_pixels_spec(st1, px.skip(1));
        lemma_pixels_round_trip(st1, px.skip(1));
        let all = bytes + end;
        assert(all =~= op + (rest + end));
        let k = op.len() as int;
        assert(all[0] == op[0]);
        assert(all.take(k) =~= op);
        assert(all.skip(k) =~= rest + end);
        assert(seq![px[0]] + px.skip(1) =~= px);
    }
}

/// Decoding an encoded image gives back its header and its pixels: the stream is a
/// well-formed image whose header holds `width` and `height` and whose opcodes decode to
/// exactly `px`.
pub proof fn lemma_round_trip(width: u16, height: u16, px: Seq<u16>)
    requires
        px.len() == width * height,
    ensures
        ({
            let e = encoded_image(width, height, px);
            &&& valid_image(e)
            &&& header_width(e) == width
            &&& header_height(e) == height
            &&& decode_data_spec(initial_state(), e.skip(8)).pixels == px
        }),
{
    let e = encoded_image(width, height, px);
    let st0 = initial_state();
    let (bytes, st2) = encode_pixels_spec(st0, px);
    lemma_pixels_round_trip(st0, px);
    assert(e.skip(8) =~= bytes + seq![0xFFu8]);
    assert(e.take(4) =~= magic());
    assert(e[4] == width % 256 && e[5] == width / 256);
    assert(e[6] == height % 256 && e[7] == height / 256);
    lemma_fundamental_div_mod(width as int, 256);
    lemma_fundamental_div_mod(height as int, 256);
}

} // verus!
