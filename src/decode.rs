//! Block decoding: a whole Q565 image, header included, into an output sink.
use crate::format::{
    apply_op, decode_data_spec, header_height, header_width, magic, op_len, CodecState,
    DataDecode,
};
use crate::utils::{hash, output_pixel, swap_bytes, BigEndian, LittleEndian, OutputByteOrder};
use crate::HeaderInfo;
use vstd::prelude::*;

pub mod streaming_no_header;

mod alloc_api;
mod ops;

pub use alloc_api::VecDecodeOutput;
use ops::{direct_bigger_diff, direct_small_diff, indexed_diff};

verus! {

/// What the block decoders carry from pixel to pixel: the previous pixel, then the color
/// array.
pub struct Q565DecodeContext {
    pub prev: u16,
    pub arr: [u16; 64],
}

impl View for Q565DecodeContext {
    type V = CodecState;

    open spec fn view(&self) -> CodecState {
        CodecState { prev: self.prev, arr: self.arr@ }
    }
}

impl Q565DecodeContext {
    /// A context for the first pixel of a frame.
    pub fn new() -> (r: Self)
        ensures
            r@ == crate::format::initial_state(),
    {
        let r = Self { arr: [0; 64], prev: 0 };
        assert(r.arr@ =~= Seq::new(64, |i: int| 0u16));
        r
    }
}

impl Default for Q565DecodeContext {
    fn default() -> (r: Self)
        ensures
            r@ == crate::format::initial_state(),
    {
        Self::new()
    }
}

/// Why an unchecked decode refused to start.
#[derive(Debug, Clone, Copy, PartialEq, Eq, Structural)]
pub enum DecodeUncheckedError {
    /// The output is too small to hold the entire image as claimed by the header.
    OutputTooSmall,
}

/// Why a validating decode failed.
#[derive(Debug, Clone, Copy, PartialEq, Eq, Structural)]
pub enum DecodeError {
    /// The output is too small to hold the entire image as claimed by the header.
    OutputTooSmall,
    /// The input data ended before the image was fully decoded.
    UnexpectedEof,
    /// The image does not start with the magic bytes `q565`.
    InvalidMagic,
    /// The decoded image data is shorter than the header claims.
    MissingData,
}

/// The pixels as an output of the given byte order writes them.
pub open spec fn as_output(swapped: bool, px: Seq<u16>) -> Seq<u16> {
    px.map_values(|p: u16| output_pixel(swapped, p))
}

/// Where decoded pixels go.
pub trait InfallibleDecodeOutput: Sized {
    /// The pixels written so far, as written.
    spec fn written(&self) -> Seq<u16>;

    /// The most pixels this output can ever hold, or `None` when it is unbounded.
    spec fn limit(&self) -> Option<nat>;

    spec fn wf(&self) -> bool;

    fn write_pixel<B: OutputByteOrder>(&mut self, color: u16)
        requires
            old(self).wf(),
            room_for(old(self).limit(), old(self).written().len()) >= 1,
        ensures
            final(self).wf(),
            final(self).limit() == old(self).limit(),
            final(self).written() == old(self).written().push(output_pixel(B::swapped(), color)),
    ;

    fn write_many_pixels<B: OutputByteOrder>(&mut self, color: u16, count: usize)
        requires
            old(self).wf(),
            room_for(old(self).limit(), old(self).written().len()) >= count,
        ensures
            final(self).wf(),
            final(self).limit() == old(self).limit(),
            final(self).written() == old(self).written() + Seq::new(
                count as nat,
                |i: int| output_pixel(B::swapped(), color),
            ),
    ;

    /// Returns the maximum number of pixels that can be written to the output buffer.
    ///
    /// `None` if the output buffer is unbounded.
    fn max_len(&self) -> (r: Option<usize>)
        requires
            self.wf(),
        ensures
            r is None <==> self.limit() is None,
            r matches Some(m) ==> self.limit() == Some(m as nat) && self.written().len() <= m,
    ;

    fn current_output_position(&self) -> (r: usize)
        requires
            self.wf(),
        ensures
            r == self.written().len(),
    ;
}

/// How many more pixels an output takes: up to its limit, or up to `usize::MAX` pixels in all
/// when it is unbounded.
pub open spec fn room<O: InfallibleDecodeOutput>(o: &O) -> int {
    room_for(o.limit(), o.written().len())
}

/// The free space after `len` pixels in an output with the given limit.
pub open spec fn room_for(limit: Option<nat>, len: nat) -> int {
    match limit {
        Some(m) => m - len,
        None => usize::MAX - len,
    }
}

/// Whether a bounded output is declared too small for a `width` x `height` image.
pub open spec fn too_small(limit: Option<nat>, width: u16, height: u16) -> bool {
    limit matches Some(m) && m < width * height
}

fn room_left<O: InfallibleDecodeOutput>(output: &O) -> (r: usize)
    requires
        output.wf(),
    ensures
        r == room(output),
{
    let pos = output.current_output_position();
    match output.max_len() {
        Some(m) => m - pos,
        None => usize::MAX - pos,
    }
}

/// The single opcode `op` from state `s`, as a step of `decode_data_spec`.
pub(crate) proof fn lemma_decode_step(s: CodecState, data: Seq<u8>, k: int)
    requires
        data.len() > 0,
        data[0] != 255,
        k == op_len(data[0]),
        data.len() >= k,
    ensures
        ({
            let (st2, px) = apply_op(s, data.take(k));
            let rest = decode_data_spec(st2, data.skip(k));
            decode_data_spec(s, data) == DataDecode {
                pixels: px + rest.pixels,
                complete: rest.complete,
                consumed: (k + rest.consumed) as nat,
                state: rest.state,
            }
        }),
{
}

/// What a sink holds after a decode that reached END.
pub open spec fn decoded_into<O: InfallibleDecodeOutput>(
    old_out: &O,
    new_out: &O,
    swapped: bool,
    d: DataDecode,
) -> bool {
    &&& new_out.wf()
    &&& new_out.limit() == old_out.limit()
    &&& new_out.written() == old_out.written() + as_output(swapped, d.pixels)
}

impl Q565DecodeContext {
    /// Decodes a Q565 image from a fresh context into `output`.
    pub fn decode<B: OutputByteOrder, O: InfallibleDecodeOutput>(
        data: &[u8],
        output: &mut O,
    ) -> (r: Result<(usize, HeaderInfo), DecodeError>)
        requires
            old(output).wf(),
        ensures
            final(output).wf(),
            decode_result(
                data@,
                crate::format::initial_state(),
                old(output).limit(),
                room(old(output)),
                r,
            ),
            r is Ok ==> decoded_into(
                old(output),
                final(output),
                B::swapped(),
                decode_data_spec(crate::format::initial_state(), data@.skip(8)),
            ),
            r matches Ok((pos, _)) ==> pos == final(output).written().len(),
    {
        let mut state = Q565DecodeContext::new();
        state.decode_with_state::<B, O>(data, output)
    }

    fn decode_header(data: &[u8]) -> (r: Result<HeaderInfo, DecodeError>)
        ensures
            data@.len() < 9 ==> r == Err::<HeaderInfo, DecodeError>(DecodeError::UnexpectedEof),
            data@.len() >= 9 && data@.take(4) != magic() ==> r == Err::<HeaderInfo, DecodeError>(
                DecodeError::InvalidMagic,
            ),
            data@.len() >= 9 && data@.take(4) == magic() ==> r == Ok::<HeaderInfo, DecodeError>(
                HeaderInfo { width: header_width(data@), height: header_height(data@) },
            ),
    {
        // Header size plus 1 byte for the end marker
        if data.len() < 9 {
            return Err(DecodeError::UnexpectedEof);
        }
        if !(data[0] == 0x71 && data[1] == 0x35 && data[2] == 0x36 && data[3] == 0x35) {
            proof {
                if data@.take(4) == magic() {
                    assert(data@.take(4)[0] == data@[0]);
                    assert(data@.take(4)[1] == data@[1]);
                    assert(data@.take(4)[2] == data@[2]);
                    assert(data@.take(4)[3] == data@[3]);
                }
            }
            return Err(DecodeError::InvalidMagic);
        }
        assert(data@.take(4) =~= magic());
        let width = data[4] as u16 + 256 * data[5] as u16;
        let height = data[6] as u16 + 256 * data[7] as u16;
        Ok(HeaderInfo { width, height })
    }

    /// Decodes a Q565 image into `output`, with the given state (`self`) as starting state.
    ///
    /// Returns the output position after the image, and the header.
    pub fn decode_with_state<B: OutputByteOrder, O: InfallibleDecodeOutput>(
        &mut self,
        data: &[u8],
        output: &mut O,
    ) -> (r: Result<(usize, HeaderInfo), DecodeError>)
        requires
            old(output).wf(),
        ensures
            final(output).wf(),
            decode_result(data@, old(self)@, old(output).limit(), room(old(output)), r),
            r is Ok ==> decoded_into(
                old(output),
                final(output),
                B::swapped(),
                decode_data_spec(old(self)@, data@.skip(8)),
            ),
            r is Ok ==> final(self)@ == decode_data_spec(old(self)@, data@.skip(8)).state,
            r matches Ok((pos, _)) ==> pos == final(output).written().len(),
    {
        let header = match Self::decode_header(data) {
            Ok(h) => h,
            Err(e) => {
                return Err(e);
            },
        };
        let (width, height) = (header.width, header.height);

        assert((width as usize) * (height as usize) <= 65535 * 65535) by (nonlinear_arith)
            requires
                width <= 65535,
                height <= 65535,
        ;
        let fits = match output.max_len() {
            Some(max_len) => max_len >= (width as usize) * (height as usize),
            None => true,
        };
        if !fits {
            return Err(DecodeError::OutputTooSmall);
        }

        match self.decode_data::<B, O>(data, 8, output) {
            Ok(position) => Ok((position, header)),
            Err(e) => Err(e),
        }
    }

    /// Decodes the opcodes of `data` from index `start` on, until END.
    fn decode_data<B: OutputByteOrder, O: InfallibleDecodeOutput>(
        &mut self,
        data: &[u8],
        start: usize,
        output: &mut O,
    ) -> (r: Result<usize, DecodeError>)
        requires
            old(output).wf(),
            start <= data@.len(),
        ensures
            final(output).wf(),
            final(output).limit() == old(output).limit(),
            data_result(decode_data_spec(old(self)@, data@.skip(start as int)), room(old(output)), r),
            r matches Ok(pos) ==> pos == final(output).written().len(),
            r is Ok ==> decoded_into(
                old(output),
                final(output),
                B::swapped(),
                decode_data_spec(old(self)@, data@.skip(start as int)),
            ),
            r is Ok ==> final(self)@ == decode_data_spec(old(self)@, data@.skip(start as int)).state,
    {
        let ghost total = decode_data_spec(self@, data@.skip(start as int));
        let ghost w0 = output.written();
        let ghost room0 = room(output);
        let ghost mut done: Seq<u16> = Seq::empty();
        // the free room is not negative
        let _ = room_left(output);
        let mut i: usize = start;
        loop
            invariant
                start <= i <= data@.len(),
                output.wf(),
                output.limit() == old(output).limit(),
                output.written() == w0 + as_output(B::swapped(), done),
                room(output) == room0 - done.len(),
                done.len() <= room0,
                w0 == old(output).written(),
                room0 == room(old(output)),
                total == decode_data_spec(old(self)@, data@.skip(start as int)),
                ({
                    let here = decode_data_spec(self@, data@.skip(i as int));
                    total == DataDecode {
                        pixels: done + here.pixels,
                        complete: here.complete,
                        consumed: (i - start + here.consumed) as nat,
                        state: here.state,
                    }
                }),
            decreases data@.len() - i,
        {
            let ghost rest = data@.skip(i as int);
            if i >= data.len() {
                assert(done + Seq::<u16>::empty() =~= done);
                return Err(DecodeError::UnexpectedEof);
            }
            let byte = data[i];
            assert(rest[0] == byte);
            if byte == 0xFF {
                assert(done + Seq::<u16>::empty() =~= done);
                let pos = output.current_output_position();
                return Ok(pos);
            }
            let k: usize = if 128 <= byte && byte < 192 {
                2
            } else if byte == 0xFE {
                3
            } else {
                1
            };
            assert(k == op_len(byte));
            if data.len() - i < k {
                assert(done + Seq::<u16>::empty() =~= done);
                return Err(DecodeError::UnexpectedEof);
            }
            proof {
                lemma_decode_step(self@, rest, k as int);
                assert(rest.skip(k as int) =~= data@.skip(i + k));
                assert(rest.take(k as int)[0] == byte);
                if k >= 2 {
                    assert(rest.take(k as int)[1] == data@[i + 1]);
                }
                if k >= 3 {
                    assert(rest.take(k as int)[2] == data@[i + 2]);
                }
            }
            let ghost op = rest.take(k as int);
            let ghost (st2, px) = apply_op(self@, op);
            let room_now = room_left(output);
            proof {
                ops::lemma_byte_fields(byte);
            }
            if byte >= 0b1100_0000 && byte != 0xFE {
                let count = ((byte & 0b0011_1111) + 1) as usize;
                if room_now < count {
                    return Err(DecodeError::OutputTooSmall);
                }
                output.write_many_pixels::<B>(self.prev, count);
                proof {
                    assert(as_output(B::swapped(), done + px) =~= as_output(B::swapped(), done)
                        + Seq::new(count as nat, |j: int| output_pixel(B::swapped(), self.prev)));
                }
            } else {
                if room_now < 1 {
                    return Err(DecodeError::OutputTooSmall);
                }
                let pixel = self.decode_pixel_op(data, i, k);
                output.write_pixel::<B>(pixel);
                proof {
                    assert(as_output(B::swapped(), done + px) =~= as_output(B::swapped(), done)
                        .push(output_pixel(B::swapped(), pixel)));
                }
            }
            proof {
                assert(self@ == st2);
                let next = decode_data_spec(st2, data@.skip(i + k));
                assert(done + (px + next.pixels) =~= (done + px) + next.pixels);
                done = done + px;
            }
            i = i + k;
        }
    }
}

impl Q565DecodeContext {
    /// The pixel of the opcode of `k` bytes at `data[i]`, which is neither a run nor END; the
    /// context moves past it.
    pub(crate) fn decode_pixel_op(&mut self, data: &[u8], i: usize, k: usize) -> (pixel: u16)
        requires
            i + k <= data@.len(),
            k == op_len(data@[i as int]),
            data@[i as int] < 192 || data@[i as int] == 254,
        ensures
            (final(self)@, seq![pixel]) == apply_op(old(self)@, data@.skip(i as int).take(k as int)),
    {
        let ghost op = data@.skip(i as int).take(k as int);
        assert(op[0] == data@[i as int]);
        assert(k >= 2 ==> op[1] == data@[i + 1]);
        assert(k >= 3 ==> op[2] == data@[i + 2]);
        let byte = data[i];
        proof {
            ops::lemma_byte_fields(byte);
        }
        let op_kind = byte >> 6;
        if op_kind == 0b00 {
            let pixel = self.arr[byte as usize];
            self.prev = pixel;
            return pixel;
        }
        if op_kind == 0b01 {
            let pixel = direct_small_diff(self.prev, byte);
            self.prev = pixel;
            return pixel;
        }
        let pixel = if op_kind == 0b10 {
            if byte & 0b0010_0000 == 0 {
                direct_bigger_diff(self.prev, byte, data[i + 1])
            } else {
                indexed_diff(&self.arr, byte, data[i + 1])
            }
        } else {
            data[i + 1] as u16 + 256 * data[i + 2] as u16
        };
        let index = hash(pixel);
        self.arr[index as usize] = pixel;
        self.prev = pixel;
        pixel
    }
}

/// A fixed-size output: pixels fill the buffer from its start and never go past its end.
pub struct UnsafeSliceDecodeOutput {
    output: Vec<u16>,
    output_idx: usize,
}

impl UnsafeSliceDecodeOutput {
    /// An output that fills `slice` from its start.
    pub fn new(slice: Vec<u16>) -> (r: Self)
        ensures
            r.wf(),
            r.written() == Seq::<u16>::empty(),
            r.limit() == Some(slice@.len()),
            r.buffer() == slice@,
    {
        Self { output: slice, output_idx: 0 }
    }

    /// The whole buffer: the pixels written, then what it held before past them.
    pub closed spec fn buffer(&self) -> Seq<u16> {
        self.output@
    }

    /// Gives the buffer back.
    pub fn into_inner(self) -> (r: Vec<u16>)
        ensures
            r@ == self.buffer(),
    {
        self.output
    }
}

impl InfallibleDecodeOutput for UnsafeSliceDecodeOutput {
    closed spec fn written(&self) -> Seq<u16> {
        self.output@.take(self.output_idx as int)
    }

    closed spec fn limit(&self) -> Option<nat> {
        Some(self.output@.len())
    }

    closed spec fn wf(&self) -> bool {
        self.output_idx <= self.output@.len()
    }

    fn write_pixel<B: OutputByteOrder>(&mut self, color: u16) {
        let c = B::to_output(color);
        // the buffer's length fits a usize
        let _ = self.output.len();
        self.output.set(self.output_idx, c);
        self.output_idx += 1;
        assert(self.output@.take(self.output_idx as int) =~= old(self).output@.take(
            old(self).output_idx as int,
        ).push(c));
    }

    fn write_many_pixels<B: OutputByteOrder>(&mut self, color: u16, count: usize) {
        let out = B::to_output(color);
        let ghost w0 = self.written();
        // the buffer's length fits a usize
        let _ = self.output.len();
        let end = self.output_idx + count;
        while self.output_idx < end
            invariant
                old(self).output_idx <= self.output_idx <= end <= self.output@.len(),
                end == old(self).output_idx + count,
                self.output@.len() == old(self).output@.len(),
                w0 == old(self).written(),
                self.output@.take(self.output_idx as int) == w0 + Seq::new(
                    (self.output_idx - old(self).output_idx) as nat,
                    |i: int| out,
                ),
            decreases end - self.output_idx,
        {
            let ghost before = self.output@.take(self.output_idx as int);
            self.output.set(self.output_idx, out);
            self.output_idx += 1;
            assert(self.output@.take(self.output_idx as int) =~= before.push(out));
            assert(w0 + Seq::new((self.output_idx - old(self).output_idx) as nat, |i: int| out)
                =~= (w0 + Seq::new((self.output_idx - 1 - old(self).output_idx) as nat, |i: int| out)).push(out));
        }
        assert(self.written() =~= old(self).written() + Seq::new(
            count as nat,
            |i: int| output_pixel(B::swapped(), color),
        ));
    }

    fn max_len(&self) -> (r: Option<usize>) {
        Some(self.output.len())
    }

    fn current_output_position(&self) -> (r: usize) {
        self.output_idx
    }
}

/// Whether an unchecked decode of `data` from state `s` into `output` is defined: the header is
/// there, the opcodes reach END, and the output either takes every pixel or is declared too
/// small by the header.
pub open spec fn unchecked_ready<O: InfallibleDecodeOutput>(data: Seq<u8>, s: CodecState, output: &O) -> bool {
    let d = decode_data_spec(s, data.skip(8));
    &&& data.len() >= 8
    &&& d.complete
    &&& (too_small(output.limit(), header_width(data), header_height(data)) || d.pixels.len() <= room(output))
}

impl Q565DecodeContext {
    /// Decodes a well-formed Q565 image from a fresh context into `output`.
    ///
    /// The only check made is that a bounded output holds as many pixels as the header claims;
    /// everything else about the input is a precondition.
    pub fn decode_unchecked<B: OutputByteOrder, O: InfallibleDecodeOutput>(
        data: &[u8],
        output: &mut O,
    ) -> (r: Result<(usize, HeaderInfo), DecodeUncheckedError>)
        requires
            old(output).wf(),
            unchecked_ready(data@, crate::format::initial_state(), old(output)),
        ensures
            final(output).wf(),
            unchecked_result(data@, old(output).limit(), r),
            r is Ok ==> decoded_into(
                old(output),
                final(output),
                B::swapped(),
                decode_data_spec(crate::format::initial_state(), data@.skip(8)),
            ),
            r matches Ok((pos, _)) ==> pos == final(output).written().len(),
    {
        let mut state = Q565DecodeContext::new();
        state.decode_unchecked_with_state::<B, O>(data, output)
    }

    /// Decodes a well-formed Q565 image into `output`, with the given state (`self`) as
    /// starting state.
    pub fn decode_unchecked_with_state<B: OutputByteOrder, O: InfallibleDecodeOutput>(
        &mut self,
        data: &[u8],
        output: &mut O,
    ) -> (r: Result<(usize, HeaderInfo), DecodeUncheckedError>)
        requires
            old(output).wf(),
            unchecked_ready(data@, old(self)@, old(output)),
        ensures
            final(output).wf(),
            unchecked_result(data@, old(output).limit(), r),
            r is Ok ==> decoded_into(
                old(output),
                final(output),
                B::swapped(),
                decode_data_spec(old(self)@, data@.skip(8)),
            ),
            r is Ok ==> final(self)@ == decode_data_spec(old(self)@, data@.skip(8)).state,
            r matches Ok((pos, _)) ==> pos == final(output).written().len(),
    {
        let header = Self::decode_header_unchecked(data);
        let (width, height) = (header.width, header.height);
        assert((width as usize) * (height as usize) <= 65535 * 65535) by (nonlinear_arith)
            requires
                width <= 65535,
                height <= 65535,
        ;
        let too_small = match output.max_len() {
            Some(max_len) => max_len < (width as usize) * (height as usize),
            None => false,
        };
        if too_small {
            return Err(DecodeUncheckedError::OutputTooSmall);
        }
        let (_, body) = data.split_at(8);
        assert(body@ =~= data@.skip(8));
        let position = self.decode_data_unchecked::<B, O>(body, output);
        Ok((position, header))
    }

    fn decode_header_unchecked(data: &[u8]) -> (r: HeaderInfo)
        requires
            data@.len() >= 8,
        ensures
            r == (HeaderInfo { width: header_width(data@), height: header_height(data@) }),
    {
        let width = data[4] as u16 + 256 * data[5] as u16;
        let height = data[6] as u16 + 256 * data[7] as u16;
        HeaderInfo { width, height }
    }

    /// Decodes opcodes that reach END into `output`, with the given state (`self`) as starting
    /// state. Returns the output position after the last pixel.
    pub fn decode_data_unchecked<B: OutputByteOrder, O: InfallibleDecodeOutput>(
        &mut self,
        data: &[u8],
        output: &mut O,
    ) -> (r: usize)
        requires
            old(output).wf(),
            decode_data_spec(old(self)@, data@).complete,
            decode_data_spec(old(self)@, data@).pixels.len() <= room(old(output)),
        ensures
            decoded_into(old(output), final(output), B::swapped(), decode_data_spec(old(self)@, data@)),
            final(self)@ == decode_data_spec(old(self)@, data@).state,
            r == final(output).written().len(),
    {
        let ghost total = decode_data_spec(self@, data@);
        let ghost w0 = output.written();
        let ghost mut done: Seq<u16> = Seq::empty();
        let mut i: usize = 0;
        assert(data@.skip(0) =~= data@);
        loop
            invariant
                i <= data@.len(),
                output.wf(),
                output.limit() == old(output).limit(),
                output.written() == w0 + as_output(B::swapped(), done),
                w0 == old(output).written(),
                room(output) == room(old(output)) - done.len(),
                total == decode_data_spec(old(self)@, data@),
                total.complete,
                total.pixels.len() <= room(old(output)),
                ({
                    let here = decode_data_spec(self@, data@.skip(i as int));
                    total == DataDecode {
                        pixels: done + here.pixels,
                        complete: here.complete,
                        consumed: (i + here.consumed) as nat,
                        state: here.state,
                    }
                }),
            decreases data@.len() - i,
        {
            let ghost rest = data@.skip(i as int);
            let byte = data[i];
            assert(rest[0] == byte);
            if byte == 0xFF {
                assert(done + Seq::<u16>::empty() =~= done);
                return output.current_output_position();
            }
            let k: usize = if 128 <= byte && byte < 192 {
                2
            } else if byte == 0xFE {
                3
            } else {
                1
            };
            proof {
                lemma_decode_step(self@, rest, k as int);
                assert(rest.skip(k as int) =~= data@.skip(i + k));
                ops::lemma_byte_fields(byte);
            }
            let ghost (st2, px) = apply_op(self@, rest.take(k as int));
            if byte >= 0b1100_0000 && byte != 0xFE {
                let count = ((byte & 0b0011_1111) + 1) as usize;
                output.write_many_pixels::<B>(self.prev, count);
                proof {
                    assert(as_output(B::swapped(), done + px) =~= as_output(B::swapped(), done)
                        + Seq::new(count as nat, |j: int| output_pixel(B::swapped(), self.prev)));
                }
            } else {
                let pixel = self.decode_pixel_op(data, i, k);
                output.write_pixel::<B>(pixel);
                proof {
                    assert(as_output(B::swapped(), done + px) =~= as_output(B::swapped(), done)
                        .push(output_pixel(B::swapped(), pixel)));
                }
            }
            proof {
                let next = decode_data_spec(st2, data@.skip(i + k));
                assert(done + (px + next.pixels) =~= (done + px) + next.pixels);
                done = done + px;
            }
            i = i + k;
        }
    }
}

/// The outcome of an unchecked decode: it fails only on an output declared too small.
pub open spec fn unchecked_result(
    data: Seq<u8>,
    limit: Option<nat>,
    r: Result<(usize, HeaderInfo), DecodeUncheckedError>,
) -> bool {
    if too_small(limit, header_width(data), header_height(data)) {
        r == Err::<(usize, HeaderInfo), DecodeUncheckedError>(DecodeUncheckedError::OutputTooSmall)
    } else {
        r matches Ok((_, h)) && h == HeaderInfo {
            width: header_width(data),
            height: header_height(data),
        }
    }
}

/// The outcome of decoding opcodes into an output with `room` pixels free.
pub open spec fn data_result(d: DataDecode, room: int, r: Result<usize, DecodeError>) -> bool {
    if d.pixels.len() > room {
        r == Err::<usize, DecodeError>(DecodeError::OutputTooSmall)
    } else if !d.complete {
        r == Err::<usize, DecodeError>(DecodeError::UnexpectedEof)
    } else {
        r is Ok
    }
}

/// The outcome of decoding a whole image from state `s`.
pub open spec fn decode_result(
    data: Seq<u8>,
    s: CodecState,
    limit: Option<nat>,
    room: int,
    r: Result<(usize, HeaderInfo), DecodeError>,
) -> bool {
    if data.len() < 9 {
        r == Err::<(usize, HeaderInfo), DecodeError>(DecodeError::UnexpectedEof)
    } else if data.take(4) != magic() {
        r == Err::<(usize, HeaderInfo), DecodeError>(DecodeError::InvalidMagic)
    } else if too_small(limit, header_width(data), header_height(data)) {
        r == Err::<(usize, HeaderInfo), DecodeError>(DecodeError::OutputTooSmall)
    } else {
        let d = decode_data_spec(s, data.skip(8));
        if d.pixels.len() > room {
            r == Err::<(usize, HeaderInfo), DecodeError>(DecodeError::OutputTooSmall)
        } else if !d.complete {
            r == Err::<(usize, HeaderInfo), DecodeError>(DecodeError::UnexpectedEof)
        } else {
            r matches Ok((_, h)) && h == HeaderInfo {
                width: header_width(data),
                height: header_height(data),
            }
        }
    }
}

/// Big-endian output is little-endian output with the two bytes of every pixel exchanged.
pub proof fn lemma_byte_order_symmetry(px: Seq<u16>)
    ensures
        as_output(BigEndian::swapped(), px) == as_output(LittleEndian::swapped(), px).map_values(
            |p: u16| swap_bytes(p),
        ),
{
    assert(as_output(BigEndian::swapped(), px) =~= as_output(LittleEndian::swapped(), px).map_values(
        |p: u16| swap_bytes(p),
    ));
}

} // verus!
