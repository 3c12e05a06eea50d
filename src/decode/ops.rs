//! The pixels of the difference opcodes.
use crate::format::{indexed_diff_pixel, luma_pixel, small_diff_pixel};
use crate::utils::{apply_diff_spec, decode_565, encode_rgb565_unchecked, sum_n};
use vstd::arithmetic::power2::lemma2_to64;
use vstd::prelude::*;

verus! {

/// How the fields of an opcode byte are read.
pub(crate) proof fn lemma_byte_fields(b: u8)
    by (bit_vector)
    ensures
        (b & 0b0001_1100) >> 2u8 == (b / 4) % 8,
        b & 0b0000_0011 == b % 4,
        b >> 6u8 == b / 64,
        b & 0b0011_1111 == b % 64,
        (b >> 4u8) & 0b11 == (b / 16) % 4,
        (b >> 2u8) & 0b11 == (b / 4) % 4,
        b & 0b0001_1111 == b % 32,
        b >> 4u8 == b / 16,
        b & 0b1111 == b % 16,
        b & 0b0010_0000 == 0 <==> (b / 32) % 2 == 0,
        b >> 5u8 == b / 32,
{
}

// OP: 0x101
pub(crate) fn indexed_diff(color_array: &[u16; 64], byte: u8, second_byte: u8) -> (r: u16)
    ensures
        r == indexed_diff_pixel(color_array@, byte, second_byte),
{
    proof {
        lemma_byte_fields(byte);
        lemma_byte_fields(second_byte);
    }
    let g_diff = ((byte & 0b0001_1100) >> 2) as i8 - 4;
    let r_diff = (byte & 0b0000_0011) as i8 - 2;
    let b_diff = (second_byte >> 6) as i8 - 2;
    let index = (second_byte & 0b0011_1111) as usize;

    apply_diff(color_array[index], r_diff, g_diff, b_diff)
}

// OP: 0x01
pub(crate) fn direct_small_diff(prev: u16, byte: u8) -> (r: u16)
    ensures
        r == small_diff_pixel(prev, byte),
{
    proof {
        lemma_byte_fields(byte);
    }
    let (r_diff, g_diff, b_diff) = (
        ((byte >> 4) & 0b11) as i8 - 2,
        ((byte >> 2) & 0b11) as i8 - 2,
        (byte & 0b11) as i8 - 2,
    );

    apply_diff(prev, r_diff, g_diff, b_diff)
}

// OP: 0x100
pub(crate) fn direct_bigger_diff(prev: u16, byte: u8, rg_bg_diffs: u8) -> (r: u16)
    ensures
        r == luma_pixel(prev, byte, rg_bg_diffs),
{
    proof {
        lemma_byte_fields(byte);
        lemma_byte_fields(rg_bg_diffs);
    }
    let g_diff = (byte & 0b0001_1111) as i8 - 16;
    let (rg_diff, bg_diff) = ((rg_bg_diffs >> 4) as i8 - 8, (rg_bg_diffs & 0b1111) as i8 - 8);
    let (r_diff, b_diff) = (rg_diff + g_diff, bg_diff + g_diff);

    apply_diff(prev, r_diff, g_diff, b_diff)
}

/// Shifts each channel of `prev` by its difference, wrapping within the channel's width.
pub(crate) fn apply_diff(prev: u16, r_diff: i8, g_diff: i8, b_diff: i8) -> (r: u16)
    ensures
        r == apply_diff_spec(prev, r_diff, g_diff, b_diff),
{
    let rgb = decode_565(prev);
    let r = sum_n::<5>(rgb[0], r_diff);
    let g = sum_n::<6>(rgb[1], g_diff);
    let b = sum_n::<5>(rgb[2], b_diff);
    proof {
        lemma2_to64();
    }
    encode_rgb565_unchecked([r, g, b])
}

} // verus!
