//! RGB565 pixel arithmetic: channel packing, N-bit wrapping sums and differences, the
//! color-array hash, and the byte order of decoded output.
use vstd::arithmetic::power2::{lemma2_to64, pow2};
use vstd::prelude::*;

verus! {

/// The 5-bit red channel of an RGB565 pixel.
pub open spec fn red(p: u16) -> u8 {
    (p / 2048) as u8
}

/// The 6-bit green channel of an RGB565 pixel.
pub open spec fn green(p: u16) -> u8 {
    ((p / 32) % 64) as u8
}

/// The 5-bit blue channel of an RGB565 pixel.
pub open spec fn blue(p: u16) -> u8 {
    (p % 32) as u8
}

/// The RGB565 pixel with the given channels.
pub open spec fn pack_565(r: u8, g: u8, b: u8) -> u16 {
    (r * 2048 + g * 32 + b) as u16
}

/// The slot of a pixel in the color array: the sum of its two bytes, modulo 64.
pub open spec fn hash_of(p: u16) -> u8 {
    ((p % 256 + p / 256) % 64) as u8
}

/// The pixel with its two bytes exchanged.
pub open spec fn swap_bytes(p: u16) -> u16 {
    ((p % 256) * 256 + p / 256) as u16
}

/// `a + d`, wrapped into the range of an `n`-bit unsigned field.
pub open spec fn wrap_sum(a: u8, d: i8, n: u8) -> u8 {
    ((a + d) % (pow2(n as nat) as int)) as u8
}

/// The `n`-bit two's-complement difference `a - b`: the value in `-2^(n-1) .. 2^(n-1)` that
/// is congruent to `a - b` modulo `2^n`.
pub open spec fn wrap_diff(a: u8, b: u8, n: u8) -> i8 {
    let m = (a - b) % (pow2(n as nat) as int);
    if n >= 1 && m >= pow2((n - 1) as nat) {
        (m - pow2(n as nat)) as i8
    } else {
        m as i8
    }
}

/// The pixel whose channels are those of `p`, each shifted by its difference with wrap-around.
pub open spec fn apply_diff_spec(p: u16, dr: i8, dg: i8, db: i8) -> u16 {
    pack_565(wrap_sum(red(p), dr, 5), wrap_sum(green(p), dg, 6), wrap_sum(blue(p), db, 5))
}

proof fn lemma_sum_n_bits(x: u8, n: u8)
    by (bit_vector)
    requires
        1 <= n <= 8,
    ensures
        n == 1 ==> ((x << ((8 - n) as u8)) >> ((8 - n) as u8)) == x % 2,
        n == 2 ==> ((x << ((8 - n) as u8)) >> ((8 - n) as u8)) == x % 4,
        n == 3 ==> ((x << ((8 - n) as u8)) >> ((8 - n) as u8)) == x % 8,
        n == 4 ==> ((x << ((8 - n) as u8)) >> ((8 - n) as u8)) == x % 16,
        n == 5 ==> ((x << ((8 - n) as u8)) >> ((8 - n) as u8)) == x % 32,
        n == 6 ==> ((x << ((8 - n) as u8)) >> ((8 - n) as u8)) == x % 64,
        n == 7 ==> ((x << ((8 - n) as u8)) >> ((8 - n) as u8)) == x % 128,
        n == 8 ==> ((x << ((8 - n) as u8)) >> ((8 - n) as u8)) == x,
{
}

proof fn lemma_diff_n_bits(y: u8, n: u8)
    by (bit_vector)
    requires
        1 <= n <= 8,
    ensures
        n == 1 ==> ((y as i8) << ((8 - n) as u8) >> ((8 - n) as u8)) as int == (if y % 2 >= 1 { (y % 2) as int - 2 } else { (y % 2) as int }),
        n == 2 ==> ((y as i8) << ((8 - n) as u8) >> ((8 - n) as u8)) as int == (if y % 4 >= 2 { (y % 4) as int - 4 } else { (y % 4) as int }),
        n == 3 ==> ((y as i8) << ((8 - n) as u8) >> ((8 - n) as u8)) as int == (if y % 8 >= 4 { (y % 8) as int - 8 } else { (y % 8) as int }),
        n == 4 ==> ((y as i8) << ((8 - n) as u8) >> ((8 - n) as u8)) as int == (if y % 16 >= 8 { (y % 16) as int - 16 } else { (y % 16) as int }),
        n == 5 ==> ((y as i8) << ((8 - n) as u8) >> ((8 - n) as u8)) as int == (if y % 32 >= 16 { (y % 32) as int - 32 } else { (y % 32) as int }),
        n == 6 ==> ((y as i8) << ((8 - n) as u8) >> ((8 - n) as u8)) as int == (if y % 64 >= 32 { (y % 64) as int - 64 } else { (y % 64) as int }),
        n == 7 ==> ((y as i8) << ((8 - n) as u8) >> ((8 - n) as u8)) as int == (if y % 128 >= 64 { (y % 128) as int - 128 } else { (y % 128) as int }),
        n == 8 ==> ((y as i8) << ((8 - n) as u8) >> ((8 - n) as u8)) as int == (if y >= 128 { y as int - 256 } else { y as int }),
{
}

proof fn lemma_wrap_byte(v: int)
    requires
        -256 < v < 512,
    ensures
        v % 256 == if v < 0 { v + 256 } else if v >= 256 { v - 256 } else { v },
{
}

proof fn lemma_mod_256_pow2(v: int, n: u8)
    requires
        1 <= n <= 8,
    ensures
        v % 256 % (pow2(n as nat) as int) == v % (pow2(n as nat) as int),
{
    lemma2_to64();
    let m = pow2(n as nat) as int;
    if n == 1 {
        assert(m == 2);
        vstd::arithmetic::div_mod::lemma_mod_mod(v, 2, 128);
    } else if n == 2 {
        assert(m == 4);
        vstd::arithmetic::div_mod::lemma_mod_mod(v, 4, 64);
    } else if n == 3 {
        assert(m == 8);
        vstd::arithmetic::div_mod::lemma_mod_mod(v, 8, 32);
    } else if n == 4 {
        assert(m == 16);
        vstd::arithmetic::div_mod::lemma_mod_mod(v, 16, 16);
    } else if n == 5 {
        assert(m == 32);
        vstd::arithmetic::div_mod::lemma_mod_mod(v, 32, 8);
    } else if n == 6 {
        assert(m == 64);
        vstd::arithmetic::div_mod::lemma_mod_mod(v, 64, 4);
    } else if n == 7 {
        assert(m == 128);
        vstd::arithmetic::div_mod::lemma_mod_mod(v, 128, 2);
    } else {
        assert(m == 256);
        vstd::arithmetic::div_mod::lemma_mod_mod(v, 256, 1);
    }
}

/// Computes the signed difference between two numbers. (N-bit numbers)
pub fn diff_n<const N: u8>(a: u8, b: u8) -> (r: i8)
    requires
        1 <= N <= 8,
    ensures
        r == wrap_diff(a, b, N),
{
    let y = a.wrapping_sub(b);
    proof {
        lemma_diff_n_bits(y, N);
        lemma2_to64();
        lemma_wrap_byte(a - b);
        lemma_mod_256_pow2(a - b, N);
    }
    (y as i8) << (8 - N) >> (8 - N)
}

/// Applies an signed difference to a number. (N-bit numbers)
pub fn sum_n<const N: u8>(a: u8, d: i8) -> (r: u8)
    requires
        1 <= N <= 8,
    ensures
        r == wrap_sum(a, d, N),
{
    let x = a.wrapping_add_signed(d);
    proof {
        lemma_sum_n_bits(x, N);
        lemma2_to64();
        lemma_wrap_byte(a + d);
        lemma_mod_256_pow2(a + d, N);
    }
    (x << (8 - N)) >> (8 - N)
}

pub(crate) proof fn lemma_hash_bits(p: u16)
    by (bit_vector)
    ensures
        ((p as u8).wrapping_add((p >> 8u16) as u8) & 63u8) as u16 == (p % 256 + p / 256) % 64,
{
}

/// The color-array slot of a pixel: the sum of its two bytes, modulo 64.
pub fn hash(pixel: u16) -> (r: u8)
    ensures
        r == hash_of(pixel),
        r < 64,
{
    proof {
        lemma_hash_bits(pixel);
    }
    (pixel as u8).wrapping_add((pixel >> 8) as u8) & 0b111111
}

proof fn lemma_channel_bits(p: u16)
    by (bit_vector)
    ensures
        (p & 0b1111_1000_0000_0000u16) >> 11u16 == p / 2048,
        (p & 0b0000_0111_1110_0000u16) >> 5u16 == (p / 32) % 64,
        p & 0b0000_0000_0001_1111u16 == p % 32,
{
}

/// Splits a RGB565 pixel into its components.
pub fn decode_565(pixel: u16) -> (r: [u8; 3])
    ensures
        r[0] == red(pixel),
        r[1] == green(pixel),
        r[2] == blue(pixel),
        r[0] < 32 && r[1] < 64 && r[2] < 32,
{
    proof {
        lemma_channel_bits(pixel);
    }
    let r = (pixel & 0b1111_1000_0000_0000) >> 11;
    let g = (pixel & 0b0000_0111_1110_0000) >> 5;
    let b = pixel & 0b0000_0000_0001_1111;

    [r as u8, g as u8, b as u8]
}

proof fn lemma_pack_bits(r: u16, g: u16, b: u16)
    by (bit_vector)
    requires
        r < 32 && g < 64 && b < 32,
    ensures
        (r << 11u16) | (g << 5u16) | b == r * 2048 + g * 32 + b,
{
}

/// Composes the 5-bit R, 6-bit G and 5-bit B values into a RGB565 pixel. The channels must fit
/// their widths: nothing is masked off.
pub fn encode_rgb565_unchecked(rgb: [u8; 3]) -> (r: u16)
    requires
        rgb[0] < 32 && rgb[1] < 64 && rgb[2] < 32,
    ensures
        r == pack_565(rgb[0], rgb[1], rgb[2]),
{
    let (r, g, b) = (rgb[0], rgb[1], rgb[2]);
    proof {
        lemma_pack_bits(r as u16, g as u16, b as u16);
    }
    ((r as u16) << 11) | ((g as u16) << 5) | (b as u16)
}

/// Converts an RGB888 pixel into an RGB565 pixel.
pub fn rgb888_to_rgb565(rgb: [u8; 3]) -> (r: [u8; 3])
    ensures
        r[0] == (rgb[0] * 249 + 1014) / 2048,
        r[1] == (rgb[1] * 253 + 505) / 1024,
        r[2] == (rgb[2] * 249 + 1014) / 2048,
        r[0] < 32 && r[1] < 64 && r[2] < 32,
{
    let (r, g, b) = (rgb[0], rgb[1], rgb[2]);
    let r = (r as u32 * 249 + 1014) >> 11;
    let g = (g as u32 * 253 + 505) >> 10;
    let b = (b as u32 * 249 + 1014) >> 11;
    proof {
        vstd::bits::lemma_u32_shr_is_div((rgb[0] as u32 * 249 + 1014) as u32, 11);
        vstd::bits::lemma_u32_shr_is_div((rgb[1] as u32 * 253 + 505) as u32, 10);
        vstd::bits::lemma_u32_shr_is_div((rgb[2] as u32 * 249 + 1014) as u32, 11);
        lemma2_to64();
    }

    [r as u8, g as u8, b as u8]
}

/// Converts an RGB565 pixel into an RGB888 pixel.
pub fn rgb565_to_rgb888(rgb: [u8; 3]) -> (r: [u8; 3])
    requires
        rgb[0] < 32 && rgb[1] < 64 && rgb[2] < 32,
    ensures
        r[0] == (rgb[0] * 527 + 23) / 64,
        r[1] == (rgb[1] * 259 + 33) / 64,
        r[2] == (rgb[2] * 527 + 23) / 64,
{
    let (r, g, b) = (rgb[0], rgb[1], rgb[2]);
    let r = (r as u32 * 527 + 23) >> 6;
    let g = (g as u32 * 259 + 33) >> 6;
    let b = (b as u32 * 527 + 23) >> 6;
    proof {
        vstd::bits::lemma_u32_shr_is_div((rgb[0] as u32 * 527 + 23) as u32, 6);
        vstd::bits::lemma_u32_shr_is_div((rgb[1] as u32 * 259 + 33) as u32, 6);
        vstd::bits::lemma_u32_shr_is_div((rgb[2] as u32 * 527 + 23) as u32, 6);
        lemma2_to64();
    }

    [r as u8, g as u8, b as u8]
}

/// The value written for a decoded pixel: the pixel itself, or with its bytes exchanged.
pub open spec fn output_pixel(swapped: bool, p: u16) -> u16 {
    if swapped {
        swap_bytes(p)
    } else {
        p
    }
}

/// The byte order in which decoded pixels are written. Pixels are computed as RGB565 values;
/// an order either keeps them (little-endian) or exchanges their two bytes (big-endian).
pub trait OutputByteOrder {
    /// Whether this order exchanges the two bytes of each pixel.
    spec fn swapped() -> bool;

    fn to_output(pixel: u16) -> (r: u16)
        ensures
            r == output_pixel(Self::swapped(), pixel),
    ;
}

/// Pixels are written as they are computed: the low byte first in memory on a little-endian
/// host.
pub struct LittleEndian;

/// Pixels are written with their two bytes exchanged.
pub struct BigEndian;

/// Relies on byteorder's `LittleEndian::read_u16`: the first byte is the low one.
#[verifier::external_body]
fn read_u16_le(buf: &[u8; 2]) -> (r: u16)
    ensures
        r == buf[0] + 256 * buf[1],
{
    <byteorder::LittleEndian as byteorder::ByteOrder>::read_u16(buf)
}

/// Relies on byteorder's `BigEndian::read_u16`: the first byte is the high one.
#[verifier::external_body]
fn read_u16_be(buf: &[u8; 2]) -> (r: u16)
    ensures
        r == 256 * buf[0] + buf[1],
{
    <byteorder::BigEndian as byteorder::ByteOrder>::read_u16(buf)
}

/// The two bytes of a pixel, low byte first.
pub fn le_bytes(pixel: u16) -> (r: [u8; 2])
    ensures
        r[0] == pixel % 256,
        r[1] == pixel / 256,
{
    proof {
        lemma_byte_split(pixel);
    }
    [pixel as u8, (pixel >> 8) as u8]
}

proof fn lemma_byte_split(p: u16)
    by (bit_vector)
    ensures
        (p as u8) as u16 == p % 256,
        ((p >> 8u16) as u8) as u16 == p / 256,
{
}

impl OutputByteOrder for LittleEndian {
    open spec fn swapped() -> bool {
        false
    }

    fn to_output(pixel: u16) -> (r: u16) {
        read_u16_le(&le_bytes(pixel))
    }
}

impl OutputByteOrder for BigEndian {
    open spec fn swapped() -> bool {
        true
    }

    fn to_output(pixel: u16) -> (r: u16) {
        read_u16_be(&le_bytes(pixel))
    }
}

/// The hash of a pixel does not depend on the order of its two bytes: a pixel and its
/// byte-swapped form land in the same color-array slot, so hosts of either endianness agree.
pub proof fn lemma_hash_byte_order(p: u16)
    ensures
        hash_of(p) == hash_of(swap_bytes(p)),
        hash_of(p) == ((p / 256 + p % 256) % 64) as u8,
{
    let s = swap_bytes(p);
    assert(s % 256 == p / 256 && s / 256 == p % 256) by {
        vstd::arithmetic::div_mod::lemma_fundamental_div_mod_converse(s as int, 256, (p % 256) as int, (p / 256) as int);
    }
}

} // verus!
