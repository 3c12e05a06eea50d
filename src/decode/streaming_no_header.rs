//! Streaming decoding: opcodes without the header, fed in chunks of any size, down to one byte.
use super::as_output;
use super::ops::{direct_bigger_diff, direct_small_diff, indexed_diff, lemma_byte_fields};
use crate::format::{
    apply_op, decode_data_spec, flatten_chunks, initial_state, op_len, phase_wf, stream_chunks,
    stream_feed, stream_step, valid_image, CodecState, Q565StreamingDecodeState, StreamView,
};
use crate::utils::{hash, OutputByteOrder};
use vstd::prelude::*;

verus! {

/// What the streaming decoder keeps between calls: where it stands inside an opcode, the
/// previous pixel and the color array.
#[derive(Debug, Clone, Copy)]
pub struct Q565StreamingDecodeContext {
    state: Q565StreamingDecodeState,
    prev: u16,
    arr: [u16; 64],
}

impl View for Q565StreamingDecodeContext {
    type V = StreamView;

    closed spec fn view(&self) -> StreamView {
        StreamView { phase: self.state, codec: CodecState { prev: self.prev, arr: self.arr@ } }
    }
}

impl Default for Q565StreamingDecodeContext {
    fn default() -> (r: Self)
        ensures
            r@ == (StreamView { phase: Q565StreamingDecodeState::Default, codec: initial_state() }),
    {
        Self::new()
    }
}

impl Q565StreamingDecodeContext {
    /// A context for the first byte after the header of a frame.
    pub fn new() -> (r: Self)
        ensures
            r@ == (StreamView { phase: Q565StreamingDecodeState::Default, codec: initial_state() }),
    {
        let r = Self { state: Q565StreamingDecodeState::Default, prev: 0, arr: [0; 64] };
        assert(r.arr@ =~= Seq::new(64, |i: int| 0u16));
        r
    }

    /// Writes `pixel` at `output[*output_idx]` and makes it the previous pixel.
    fn set_pixel<B: OutputByteOrder>(&mut self, pixel: u16, output: &mut [u16], output_idx: &mut usize)
        requires
            *old(output_idx) < old(output)@.len(),
        ensures
            final(self).prev == pixel,
            final(self).arr == old(self).arr,
            final(self).state == old(self).state,
            *final(output_idx) == *old(output_idx) + 1,
            final(output)@ == old(output)@.update(*old(output_idx) as int, crate::utils::output_pixel(B::swapped(), pixel)),
    {
        self.prev = pixel;
        output[*output_idx] = B::to_output(pixel);
        *output_idx += 1;
    }

    /// Decodes the next chunk of a Q565 stream (without header) into `output`, in a streaming
    /// fashion.
    ///
    /// Returns the number of pixels written to `output`, from its start. This does not
    /// accumulate over calls: the caller moves its own position forward by the returned count
    /// and passes the rest of its buffer to the next call. Decoding stops at END; the caller
    /// then feeds no more bytes of this frame.
    pub fn streaming_decode_to_slice_unchecked<B: OutputByteOrder>(
        &mut self,
        input: &[u8],
        output: &mut [u16],
    ) -> (r: usize)
        requires
            phase_wf(old(self)@.phase),
            stream_feed(old(self)@, input@).1.len() <= old(output)@.len(),
        ensures
            final(self)@ == stream_feed(old(self)@, input@).0,
            phase_wf(final(self)@.phase),
            r == stream_feed(old(self)@, input@).1.len(),
            final(output)@.len() == old(output)@.len(),
            final(output)@.take(r as int) == as_output(B::swapped(), stream_feed(old(self)@, input@).1),
            final(output)@.skip(r as int) == old(output)@.skip(r as int),
    {
        let ghost total = stream_feed(self@, input@);
        let ghost mut done: Seq<u16> = Seq::empty();
        let mut output_idx: usize = 0;
        let mut input_idx: usize = 0;
        assert(input@.skip(0) =~= input@);
        assert(output@.take(0) =~= as_output(B::swapped(), done));

        loop
            invariant
                input_idx <= input@.len(),
                phase_wf(self@.phase),
                total == stream_feed(old(self)@, input@),
                total.1.len() <= output@.len(),
                output@.len() == old(output)@.len(),
                output_idx == done.len(),
                output@.take(output_idx as int) == as_output(B::swapped(), done),
                output@.skip(output_idx as int) == old(output)@.skip(output_idx as int),
                ({
                    let here = stream_feed(self@, input@.skip(input_idx as int));
                    total == (here.0, done + here.1, here.2)
                }),
            decreases input@.len() - input_idx,
        {
            let ghost v0 = self@;
            let ghost rest = input@.skip(input_idx as int);
            let ghost out0 = output@;
            if input_idx >= input.len() {
                assert(done + Seq::<u16>::empty() =~= done);
                return output_idx;
            }
            let byte = input[input_idx];
            input_idx += 1;
            assert(rest[0] == byte);
            assert(rest.skip(1) =~= input@.skip(input_idx as int));
            let ghost (v1, px, ended) = stream_step(v0, byte);
            proof {
                let after = stream_feed(v1, rest.skip(1));
                if !ended {
                    assert(done + (px + after.1) =~= (done + px) + after.1);
                }
                assert((done + px).len() <= total.1.len());
            }
            let end = self.decode_byte::<B>(byte, output, &mut output_idx);
            proof {
                assert(output@.take(output_idx as int) =~= out0.take(done.len() as int)
                    + output@.subrange(done.len() as int, output_idx as int));
                assert(as_output(B::swapped(), done + px) =~= as_output(B::swapped(), done)
                    + as_output(B::swapped(), px));
                assert(out0.skip(output_idx as int) =~= out0.skip(done.len() as int).skip(px.len() as int));
                assert(old(output)@.skip(output_idx as int) =~= old(output)@.skip(done.len() as int).skip(px.len() as int));
                done = done + px;
            }
            if end {
                assert(done + Seq::<u16>::empty() =~= done);
                return output_idx;
            }
        }
    }

    /// One byte through the state machine: the pixels it completes go to `output` from
    /// `*output_idx` on. Returns whether the byte was END.
    fn decode_byte<B: OutputByteOrder>(&mut self, byte: u8, output: &mut [u16], output_idx: &mut usize) -> (ended: bool)
        requires
            phase_wf(old(self)@.phase),
            *old(output_idx) + stream_step(old(self)@, byte).1.len() <= old(output)@.len(),
        ensures
            final(self)@ == stream_step(old(self)@, byte).0,
            ended == stream_step(old(self)@, byte).2,
            phase_wf(final(self)@.phase),
            *final(output_idx) == *old(output_idx) + stream_step(old(self)@, byte).1.len(),
            final(output)@.len() == old(output)@.len(),
            final(output)@.take(*old(output_idx) as int) == old(output)@.take(*old(output_idx) as int),
            final(output)@.subrange(*old(output_idx) as int, *final(output_idx) as int)
                == as_output(B::swapped(), stream_step(old(self)@, byte).1),
            final(output)@.skip(*final(output_idx) as int) == old(output)@.skip(*final(output_idx) as int),
    {
        proof {
            lemma_byte_fields(byte);
        }
        let ghost out0 = output@;
        let ghost i0 = *output_idx;
        assert(seq![byte][0] == byte);
        let pixel: u16;
        match self.state {
            Q565StreamingDecodeState::Default => {
                let op = byte >> 6;
                if op == 0b00 {
                    let p = self.arr[byte as usize];
                    self.set_pixel::<B>(p, output, output_idx);
                    proof { lemma_wrote_one::<B>(out0, output@, i0, p); }
                    return false;
                } else if op == 0b01 {
                    let p = direct_small_diff(self.prev, byte);
                    self.set_pixel::<B>(p, output, output_idx);
                    proof { lemma_wrote_one::<B>(out0, output@, i0, p); }
                    return false;
                } else if op == 0b10 {
                    self.state = Q565StreamingDecodeState::LumaOrDiffIndexedByte2(byte);
                    assert(output@.subrange(i0 as int, i0 as int) =~= Seq::<u16>::empty());
                    return false;
                } else if byte == 0xFE {
                    self.state = Q565StreamingDecodeState::RawRgb565Byte1;
                    assert(output@.subrange(i0 as int, i0 as int) =~= Seq::<u16>::empty());
                    return false;
                } else if byte != 0xFF {
                    let count = ((byte & 0b0011_1111) + 1) as usize;
                    let color = B::to_output(self.prev);
                    // the buffer's length fits a usize
                    let _ = output.len();
                    let end = *output_idx + count;
                    while *output_idx < end
                        invariant
                            i0 <= *output_idx <= end <= output@.len(),
                            end == i0 + count,
                            output@.len() == out0.len(),
                            forall|j: int| 0 <= j < i0 ==> output@[j] == out0[j],
                            forall|j: int| i0 <= j < *output_idx ==> output@[j] == color,
                            forall|j: int| *output_idx <= j < out0.len() ==> output@[j] == out0[j],
                        decreases end - *output_idx,
                    {
                        output[*output_idx] = color;
                        *output_idx += 1;
                    }
                    assert(output@.take(i0 as int) =~= out0.take(i0 as int));
                    assert(output@.subrange(i0 as int, end as int) =~= as_output(
                        B::swapped(),
                        Seq::new(count as nat, |j: int| self.prev),
                    ));
                    assert(output@.skip(end as int) =~= out0.skip(end as int));
                    return false;
                } else {
                    assert(output@.subrange(i0 as int, i0 as int) =~= Seq::<u16>::empty());
                    return true;
                }
            },
            Q565StreamingDecodeState::LumaOrDiffIndexedByte2(byte1) => {
                proof {
                    lemma_byte_fields(byte1);
                }
                assert(seq![byte1, byte][0] == byte1 && seq![byte1, byte][1] == byte);
                pixel = if byte1 >> 5 == 0b100 {
                    direct_bigger_diff(self.prev, byte1, byte)
                } else {
                    indexed_diff(&self.arr, byte1, byte)
                };
            },
            Q565StreamingDecodeState::RawRgb565Byte1 => {
                self.state = Q565StreamingDecodeState::RawRgb565Byte2(byte);
                assert(output@.subrange(i0 as int, i0 as int) =~= Seq::<u16>::empty());
                return false;
            },
            Q565StreamingDecodeState::RawRgb565Byte2(byte1) => {
                assert(seq![254u8, byte1, byte][1] == byte1 && seq![254u8, byte1, byte][2] == byte);
                pixel = byte1 as u16 + 256 * byte as u16;
            },
        }

        let index = hash(pixel);
        self.arr[index as usize] = pixel;
        self.set_pixel::<B>(pixel, output, output_idx);
        self.state = Q565StreamingDecodeState::Default;
        proof { lemma_wrote_one::<B>(out0, output@, i0, pixel); }
        false
    }
}

proof fn lemma_wrote_one<B: OutputByteOrder>(out0: Seq<u16>, out1: Seq<u16>, i: usize, p: u16)
    requires
        i < out0.len(),
        out1 == out0.update(i as int, crate::utils::output_pixel(B::swapped(), p)),
    ensures
        out1.len() == out0.len(),
        out1.take(i as int) == out0.take(i as int),
        out1.subrange(i as int, i + 1) == as_output(B::swapped(), seq![p]),
        out1.skip(i + 1) == out0.skip(i + 1),
{
    assert(out1.take(i as int) =~= out0.take(i as int));
    assert(out1.subrange(i as int, i + 1) =~= as_output(B::swapped(), seq![p]));
    assert(out1.skip(i + 1) =~= out0.skip(i + 1));
}

/// Feeding `x` and then `y` in one call is feeding `x`, then `y` from where `x` left off, unless
/// `x` already reached END: then `y` is not read.
proof fn lemma_feed_append(v: StreamView, x: Seq<u8>, y: Seq<u8>)
    ensures
        !stream_feed(v, x).2 ==> stream_feed(v, x + y) == (
            stream_feed(stream_feed(v, x).0, y).0,
            stream_feed(v, x).1 + stream_feed(stream_feed(v, x).0, y).1,
            stream_feed(stream_feed(v, x).0, y).2,
        ),
        stream_feed(v, x).2 ==> stream_feed(v, x + y) == stream_feed(v, x),
    decreases x.len(),
{
    if x.len() == 0 {
        assert(x + y =~= y);
        assert(Seq::<u16>::empty() + stream_feed(v, y).1 =~= stream_feed(v, y).1);
    } else {
        let (v1, px1, e) = stream_step(v, x[0]);
        assert((x + y)[0] == x[0]);
        assert((x + y).skip(1) =~= x.skip(1) + y);
        if !e {
            lemma_feed_append(v1, x.skip(1), y);
            let a = stream_feed(v1, x.skip(1));
            let b = stream_feed(a.0, y);
            assert(px1 + (a.1 + b.1) =~= (px1 + a.1) + b.1);
        }
    }
}

/// The bytes of one complete opcode, fed from the start of an opcode, give what the opcode
/// gives and end at the start of the next one.
proof fn lemma_feed_one_op(s: CodecState, data: Seq<u8>)
    requires
        data.len() > 0,
        data[0] != 255,
        data.len() >= op_len(data[0]),
    ensures
        ({
            let k = op_len(data[0]) as int;
            let (st2, px) = apply_op(s, data.take(k));
            stream_feed(StreamView { phase: Q565StreamingDecodeState::Default, codec: s }, data.take(k))
                == (StreamView { phase: Q565StreamingDecodeState::Default, codec: st2 }, px, false)
        }),
{
    let k = op_len(data[0]) as int;
    let t = data.take(k);
    let v = StreamView { phase: Q565StreamingDecodeState::Default, codec: s };
    let e = Seq::<u8>::empty();
    let none = Seq::<u16>::empty();
    assert(t[0] == data[0]);
    assert(stream_feed(v, e) == (v, none, false));
    if k == 1 {
        assert(t =~= seq![data[0]]);
        assert(t.skip(1) =~= e);
        let (v1, px1, e1) = stream_step(v, data[0]);
        assert(stream_feed(v1, e) == (v1, none, false));
        assert(px1 + none =~= px1);
        assert(stream_feed(v, t) == (v1, px1, false));
    } else if k == 2 {
        assert(t =~= seq![data[0], data[1]]);
        assert(t.skip(1) =~= seq![data[1]]);
        assert(t.skip(1).skip(1) =~= e);
        let (v1, px1, e1) = stream_step(v, data[0]);
        let (v2, px2, e2) = stream_step(v1, data[1]);
        assert(stream_feed(v2, e) == (v2, none, false));
        assert(px2 + none =~= px2);
        assert(stream_feed(v1, t.skip(1)) == (v2, px2, false));
        assert(px1 + px2 =~= px2);
        assert(stream_feed(v, t) == (v2, px2, false));
    } else {
        assert(t =~= seq![data[0], data[1], data[2]]);
        assert(t.skip(1) =~= seq![data[1], data[2]]);
        assert(t.skip(1).skip(1) =~= seq![data[2]]);
        assert(t.skip(1).skip(1).skip(1) =~= e);
        let (v1, px1, e1) = stream_step(v, data[0]);
        let (v2, px2, e2) = stream_step(v1, data[1]);
        let (v3, px3, e3) = stream_step(v2, data[2]);
        assert(stream_feed(v3, e) == (v3, none, false));
        assert(px3 + none =~= px3);
        assert(stream_feed(v2, t.skip(1).skip(1)) == (v3, px3, false));
        assert(px2 + px3 =~= px3);
        assert(stream_feed(v1, t.skip(1)) == (v3, px3, false));
        assert(px1 + px3 =~= px3);
        assert(stream_feed(v, t) == (v3, px3, false));
    }
}

/// Opcodes that reach END, fed to the streaming decoder from the start of an opcode, give the
/// pixels that the block decoder gives, and END is read at the last byte and not before.
proof fn lemma_block_is_stream(s: CodecState, data: Seq<u8>)
    requires
        decode_data_spec(s, data).complete,
    ensures
        ({
            let d = decode_data_spec(s, data);
            let v = StreamView { phase: Q565StreamingDecodeState::Default, codec: s };
            &&& 1 <= d.consumed <= data.len()
            &&& stream_feed(v, data.take(d.consumed as int)).1 == d.pixels
            &&& stream_feed(v, data.take(d.consumed as int)).2
            &&& !stream_feed(v, data.take(d.consumed - 1)).2
        }),
    decreases data.len(),
{
    let d = decode_data_spec(s, data);
    let v = StreamView { phase: Q565StreamingDecodeState::Default, codec: s };
    if data[0] == 255 {
        assert(data.take(1) =~= seq![255u8]);
        assert(data.take(1)[0] == 255);
        assert(data.take(0) =~= Seq::<u8>::empty());
    } else {
        let k = op_len(data[0]) as int;
        let t = data.take(k);
        let r = data.skip(k);
        let (st2, px) = apply_op(s, t);
        let rest = decode_data_spec(st2, r);
        lemma_feed_one_op(s, data);
        lemma_block_is_stream(st2, r);
        let v2 = StreamView { phase: Q565StreamingDecodeState::Default, codec: st2 };
        assert(data.take(d.consumed as int) =~= t + r.take(rest.consumed as int));
        assert(data.take(d.consumed - 1) =~= t + r.take(rest.consumed - 1));
        lemma_feed_append(v, t, r.take(rest.consumed as int));
        lemma_feed_append(v, t, r.take(rest.consumed - 1));
    }
}

/// Calls on the chunks one after the other give what one call on all their bytes gives, when
/// END is not read before the last byte.
proof fn lemma_chunks_are_one_feed(v: StreamView, chunks: Seq<Seq<u8>>)
    requires
        chunks.len() > 0,
        forall|i: int| 0 <= i < chunks.len() ==> (#[trigger] chunks[i]).len() > 0,
        !stream_feed(v, flatten_chunks(chunks).drop_last()).2,
    ensures
        stream_chunks(v, chunks).1 == stream_feed(v, flatten_chunks(chunks)).1,
    decreases chunks.len(),
{
    let c0 = chunks[0];
    let r = chunks.skip(1);
    let fr = flatten_chunks(r);
    let (v1, px0, e0) = stream_feed(v, c0);
    assert(flatten_chunks(chunks) == c0 + fr);
    if r.len() == 0 {
        assert(fr =~= Seq::<u8>::empty());
        assert(c0 + fr =~= c0);
        assert(px0 + Seq::<u16>::empty() =~= px0);
        assert(stream_chunks(v1, r).1 == Seq::<u16>::empty());
        assert(stream_chunks(v, chunks).1 == px0 + stream_chunks(v1, r).1);
        assert(flatten_chunks(chunks) == c0);
    } else {
        assert(r[0] == chunks[1]);
        assert(fr == r[0] + flatten_chunks(r.skip(1)));
        assert(fr.len() > 0);
        assert((c0 + fr).drop_last() =~= c0 + fr.drop_last());
        lemma_feed_append(v, c0, fr.drop_last());
        lemma_feed_append(v, c0, fr);
        assert forall|i: int| 0 <= i < r.len() implies (#[trigger] r[i]).len() > 0 by {
            assert(r[i] == chunks[i + 1]);
        }
        lemma_chunks_are_one_feed(v1, r);
        assert(!e0);
        assert(stream_chunks(v, chunks).1 == px0 + stream_chunks(v1, r).1);
        assert(stream_feed(v, c0 + fr).1 == px0 + stream_feed(v1, fr).1);
    }
}

/// For a well-formed image, the streaming decoder fed the bytes after the header in chunks of
/// any positive sizes, one call per chunk, gives exactly the pixels that the block decoders
/// give (both write `decode_data_spec` of the same bytes).
pub proof fn lemma_streaming_matches_block(data: Seq<u8>, chunks: Seq<Seq<u8>>)
    requires
        valid_image(data),
        forall|i: int| 0 <= i < chunks.len() ==> (#[trigger] chunks[i]).len() > 0,
        flatten_chunks(chunks) == data.skip(8),
    ensures
        stream_chunks(
            StreamView { phase: Q565StreamingDecodeState::Default, codec: initial_state() },
            chunks,
        ).1 == decode_data_spec(initial_state(), data.skip(8)).pixels,
{
    let body = data.skip(8);
    let d = decode_data_spec(initial_state(), body);
    let v = StreamView { phase: Q565StreamingDecodeState::Default, codec: initial_state() };
    lemma_block_is_stream(initial_state(), body);
    assert(body.take(d.consumed as int) =~= body);
    assert(body.take(d.consumed - 1) =~= body.drop_last());
    if chunks.len() == 0 {
        assert(flatten_chunks(chunks) =~= Seq::<u8>::empty());
    }
    lemma_chunks_are_one_feed(v, chunks);
}

} // verus!
