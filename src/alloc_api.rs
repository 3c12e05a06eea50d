//! Whole-image encoding and decoding to vectors.
use crate::decode::{as_output, lemma_decode_step, Q565DecodeContext};
use crate::encode::Q565EncodeContext;
use crate::format::{
    apply_op, decode_data_spec, encoded_image, header_height, header_width, initial_state, magic,
    op_len, DataDecode,
};
use crate::utils::{output_pixel, OutputByteOrder};
use vstd::prelude::*;

verus! {

/// Encodes a `width` x `height` image, appending the stream to `w`. Returns false, and leaves
/// `w` as it is, when the number of pixels is not `width * height`.
pub fn encode_to_vec(width: u16, height: u16, pixels: &[u16], w: &mut Vec<u8>) -> (r: bool)
    ensures
        r == (width * height == pixels@.len()),
        r ==> final(w)@ == old(w)@ + encoded_image(width, height, pixels@),
        !r ==> final(w)@ == old(w)@,
{
    Q565EncodeContext::encode_to_vec(width, height, pixels, w)
}

/// Why decoding to a vector failed.
#[derive(Debug, Clone, Copy, PartialEq, Eq, Structural)]
pub enum DecodeToVecError {
    UnexpectedEof,
    InvalidMagic,
}

/// The dimensions of a decoded image.
#[derive(Debug, Clone, Copy, PartialEq, Eq, Structural)]
pub struct Header {
    pub width: u16,
    pub height: u16,
}

/// Appends `count` copies of `color` to `w`.
fn push_repeated(w: &mut Vec<u16>, color: u16, count: usize)
    ensures
        final(w)@ == old(w)@ + Seq::new(count as nat, |j: int| color),
{
    let mut n: usize = 0;
    while n < count
        invariant
            n <= count,
            w@ == old(w)@ + Seq::new(n as nat, |j: int| color),
        decreases count - n,
    {
        w.push(color);
        n += 1;
        assert(w@ =~= old(w)@ + Seq::new(n as nat, |j: int| color));
    }
}

/// Decodes the opcode of `k` bytes at `data[i]`, which is not END, appending its pixels to `w`.
fn decode_op_to_vec<T: OutputByteOrder>(
    state: &mut Q565DecodeContext,
    data: &[u8],
    i: usize,
    k: usize,
    w: &mut Vec<u16>,
)
    requires
        i + k <= data@.len(),
        k == op_len(data@[i as int]),
        data@[i as int] != 0xFF,
    ensures
        ({
            let (st2, px) = apply_op(old(state)@, data@.skip(i as int).take(k as int));
            &&& final(state)@ == st2
            &&& final(w)@ == old(w)@ + as_output(T::swapped(), px)
        }),
{
    let byte = data[i];
    assert(data@.skip(i as int).take(k as int)[0] == byte);
    if byte >= 0b1100_0000 && byte != 0xFE {
        let count = (byte - 0b1100_0000 + 1) as usize;
        let color = T::to_output(state.prev);
        push_repeated(w, color, count);
        assert(as_output(T::swapped(), Seq::new(count as nat, |j: int| state.prev)) =~= Seq::new(
            count as nat,
            |j: int| color,
        ));
    } else {
        let pixel = state.decode_pixel_op(data, i, k);
        w.push(T::to_output(pixel));
        assert(as_output(T::swapped(), seq![pixel]) =~= seq![output_pixel(T::swapped(), pixel)]);
        assert(w@ =~= old(w)@ + seq![output_pixel(T::swapped(), pixel)]);
    }
}

/// Decodes a whole image, appending its pixels to `w` in the byte order `T`.
pub fn decode_to_vec<T: OutputByteOrder>(data: &[u8], w: &mut Vec<u16>) -> (r: Result<Header, DecodeToVecError>)
    ensures
        data@.len() < 9 ==> r == Err::<Header, DecodeToVecError>(DecodeToVecError::UnexpectedEof),
        data@.len() >= 9 && data@.take(4) != magic() ==> r == Err::<Header, DecodeToVecError>(
            DecodeToVecError::InvalidMagic,
        ),
        data@.len() >= 9 && data@.take(4) == magic() ==> ({
            let d = decode_data_spec(initial_state(), data@.skip(8));
            &&& !d.complete ==> r == Err::<Header, DecodeToVecError>(DecodeToVecError::UnexpectedEof)
            &&& d.complete ==> r == Ok::<Header, DecodeToVecError>(
                Header { width: header_width(data@), height: header_height(data@) },
            )
            &&& d.complete ==> final(w)@ == old(w)@ + as_output(T::swapped(), d.pixels)
        }),
{
    let mut state = Q565DecodeContext::new();

    // Header size plus 1 byte for the end marker
    if data.len() < 9 {
        return Err(DecodeToVecError::UnexpectedEof);
    }
    if !(data[0] == 0x71 && data[1] == 0x35 && data[2] == 0x36 && data[3] == 0x35) {
        proof {
            if data@.take(4) == magic() {
                assert(data@.take(4)[0] == data@[0]);
                assert(data@.take(4)[1] == data@[1]);
                assert(data@.take(4)[2] == data@[2]);
                assert(data@.take(4)[3] == data@[3]);
            }
        }
        return Err(DecodeToVecError::InvalidMagic);
    }
    assert(data@.take(4) =~= magic());
    let width = data[4] as u16 + 256 * data[5] as u16;
    let height = data[6] as u16 + 256 * data[7] as u16;
    let header = Header { width, height };

    if decode_data_to_vec::<T>(&mut state, data, w) {
        Ok(header)
    } else {
        Err(DecodeToVecError::UnexpectedEof)
    }
}

/// Decodes the opcodes after the header, appending their pixels to `w`. Returns whether END
/// was reached.
fn decode_data_to_vec<T: OutputByteOrder>(
    state: &mut Q565DecodeContext,
    data: &[u8],
    w: &mut Vec<u16>,
) -> (r: bool)
    requires
        data@.len() >= 8,
    ensures
        r == decode_data_spec(old(state)@, data@.skip(8)).complete,
        r ==> final(w)@ == old(w)@ + as_output(
            T::swapped(),
            decode_data_spec(old(state)@, data@.skip(8)).pixels,
        ),
{
    let ghost total = decode_data_spec(state@, data@.skip(8));
    let ghost mut done: Seq<u16> = Seq::empty();
    let mut i: usize = 8;
    loop
        invariant
            8 <= i <= data@.len(),
            total == decode_data_spec(old(state)@, data@.skip(8)),
            w@ == old(w)@ + as_output(T::swapped(), done),
            ({
                let here = decode_data_spec(state@, data@.skip(i as int));
                total == DataDecode {
                    pixels: done + here.pixels,
                    complete: here.complete,
                    consumed: (i - 8 + here.consumed) as nat,
                    state: here.state,
                }
            }),
        decreases data@.len() - i,
    {
        let ghost rest = data@.skip(i as int);
        if i >= data.len() {
            return false;
        }
        let byte = data[i];
        assert(rest[0] == byte);
        if byte == 0xFF {
            assert(done + Seq::<u16>::empty() =~= done);
            return true;
        }
        let k: usize = if 128 <= byte && byte < 192 {
            2
        } else if byte == 0xFE {
            3
        } else {
            1
        };
        assert(k == op_len(byte));
        if data.len() - i < k {
            return false;
        }
        proof {
            lemma_decode_step(state@, rest, k as int);
            assert(rest.skip(k as int) =~= data@.skip(i + k));
        }
        let ghost (st2, px) = apply_op(state@, rest.take(k as int));
        decode_op_to_vec::<T>(state, data, i, k, w);
        proof {
            assert(as_output(T::swapped(), done + px) =~= as_output(T::swapped(), done)
                + as_output(T::swapped(), px));
            let next = decode_data_spec(st2, data@.skip(i + k));
            assert(done + (px + next.pixels) =~= (done + px) + next.pixels);
            done = done + px;
        }
        i = i + k;
    }
}

} // verus!
