//! The encoder: RGB565 pixels to a Q565 stream.
use crate::consts::{
    Q565_OP_DIFF, Q565_OP_DIFF_INDEXED, Q565_OP_END, Q565_OP_INDEX, Q565_OP_LUMA, Q565_OP_RGB565,
    Q565_OP_RUN,
};
use crate::format::{
    encode_op, encode_pixels_spec, encoded_image, first_indexed, header_bytes, indexed_bytes, indexed_fits,
    luma_fits, run_bytes, run_length, small_diff_fits, state_wf,
    initial_state, CodecState,
};
use crate::utils::{blue, decode_565, diff_n, green, hash, hash_of, le_bytes, red};
use vstd::arithmetic::power2::lemma2_to64;
use vstd::prelude::*;

verus! {

/// What the encoder carries from pixel to pixel: the previous pixel and the color array, each
/// with its channels at hand so that differences need no unpacking.
#[derive(Debug, Clone, Copy)]
pub struct Q565EncodeContext {
    pub prev: u16,
    /// The channels of `prev`.
    pub prev_components: [u8; 3],
    pub arr: [u16; 64],
    /// The channels of each entry of `arr`.
    pub arr_components: [[u8; 3]; 64],
}

/// Whether `c` holds the channels of `p`.
pub open spec fn components_of(c: [u8; 3], p: u16) -> bool {
    c[0] == red(p) && c[1] == green(p) && c[2] == blue(p)
}

impl View for Q565EncodeContext {
    type V = CodecState;

    open spec fn view(&self) -> CodecState {
        CodecState { prev: self.prev, arr: self.arr@ }
    }
}

/// Why an image could not be encoded.
#[derive(Debug, Clone, Copy, PartialEq, Eq, Structural)]
pub enum EncodeError {
    /// The number of pixels given is not `width * height`.
    InvalidDimensions { width: usize, height: usize, pixel_count: usize },
}

impl Q565EncodeContext {
    /// The cached channels agree with the pixels they belong to.
    pub open spec fn wf(&self) -> bool {
        &&& components_of(self.prev_components, self.prev)
        &&& forall|i: int| 0 <= i < 64 ==> components_of(#[trigger] self.arr_components[i], self.arr[i])
    }

    /// A context for the first pixel of a frame.
    pub fn new() -> (r: Self)
        ensures
            r@ == crate::format::initial_state(),
            r.wf(),
    {
        let r = Self { prev: 0, prev_components: [0; 3], arr: [0; 64], arr_components: [[0; 3]; 64] };
        assert(r.arr@ =~= Seq::new(64, |i: int| 0u16));
        r
    }
}

impl Default for Q565EncodeContext {
    fn default() -> (r: Self)
        ensures
            r@ == crate::format::initial_state(),
            r.wf(),
    {
        Self::new()
    }
}

/// How the fields of the emitted opcodes are packed.
pub(crate) proof fn lemma_pack_op_fields(a: u8, b: u8, c: u8)
    by (bit_vector)
    ensures
        a < 4 && b < 4 && c < 4 ==> 0x40u8 | (a << 4u8) | (b << 2u8) | c == 64 + a * 16 + b * 4 + c,
        a < 32 ==> 0x80u8 | a == 128 + a,
        a < 16 && b < 16 ==> (a << 4u8) | b == a * 16 + b,
        a < 8 && b < 4 ==> 0xA0u8 | (a << 2u8) | b == 160 + a * 4 + b,
        a < 4 && b < 64 ==> (a << 6u8) | b == a * 64 + b,
        a < 62 ==> 0xC0u8 | a == 0xC0 + a,
        a < 64 ==> 0u8 | a == a,
{
}

impl Q565EncodeContext {
    /// The indexed-difference opcode for the pixel with channels `r`, `g`, `b` against the
    /// first color-array entry close enough to it, if any.
    fn find_indexed(&self, pixel: u16, r: u8, g: u8, b: u8) -> (bytes: Option<[u8; 2]>)
        requires
            self.wf(),
            r == red(pixel) && g == green(pixel) && b == blue(pixel),
        ensures
            match first_indexed(self.arr@, pixel, 0) {
                Some(i) => bytes matches Some(v) && v@ == indexed_bytes(self.arr@[i as int], i, pixel),
                None => bytes is None,
            },
    {
        let mut i: usize = 0;
        while i < 64
            invariant
                i <= 64,
                self.wf(),
                r == red(pixel) && g == green(pixel) && b == blue(pixel),
                first_indexed(self.arr@, pixel, 0) == first_indexed(self.arr@, pixel, i as nat),
            decreases 64 - i,
        {
            let c = self.arr_components[i];
            assert(components_of(c, self.arr@[i as int]));
            let (r_diff, g_diff, b_diff) = (diff_n::<5>(r, c[0]), diff_n::<6>(g, c[1]), diff_n::<5>(b, c[2]));
            if -2 <= r_diff && r_diff <= 1 && -4 <= g_diff && g_diff <= 3 && -2 <= b_diff && b_diff <= 1 {
                assert(indexed_fits(self.arr@[i as int], pixel));
                let (x, y, z) = ((g_diff + 4) as u8, (r_diff + 2) as u8, (b_diff + 2) as u8);
                proof {
                    lemma_pack_op_fields(x, y, 0);
                    lemma_pack_op_fields(z, i as u8, 0);
                }
                let bytes = [Q565_OP_DIFF_INDEXED | (x << 2) | y, (z << 6) | i as u8];
                assert(bytes@ =~= indexed_bytes(self.arr@[i as int], i as nat, pixel));
                return Some(bytes);
            }
            i += 1;
        }
        None
    }

    /// Emits the opcode for `pixel`, which differs from the previous pixel.
    fn encode_one(&mut self, pixel: u16, w: &mut Vec<u8>)
        requires
            old(self).wf(),
            pixel != old(self).prev,
        ensures
            final(self).wf(),
            final(w)@ == old(w)@ + encode_op(old(self)@, pixel).0,
            final(self)@ == encode_op(old(self)@, pixel).1,
    {
        proof {
            lemma2_to64();
        }
        let ghost st0 = self@;
        self.prev = pixel;
        let rgb = decode_565(pixel);
        let (r, g, b) = (rgb[0], rgb[1], rgb[2]);
        let prev_c = self.prev_components;
        self.prev_components = rgb;

        let hash = hash(pixel);
        let index = hash as usize;

        if self.arr[index] == pixel {
            proof {
                lemma_pack_op_fields(hash, 0, 0);
            }
            w.push(Q565_OP_INDEX | hash);
            assert(w@ =~= old(w)@ + encode_op(st0, pixel).0);
            return;
        }
        let (r_diff, g_diff, b_diff) = (
            diff_n::<5>(r, prev_c[0]),
            diff_n::<6>(g, prev_c[1]),
            diff_n::<5>(b, prev_c[2]),
        );

        if -2 <= r_diff && r_diff <= 1 && -2 <= g_diff && g_diff <= 1 && -2 <= b_diff && b_diff <= 1 {
            let (x, y, z) = ((r_diff + 2) as u8, (g_diff + 2) as u8, (b_diff + 2) as u8);
            proof {
                lemma_pack_op_fields(x, y, z);
            }
            w.push(Q565_OP_DIFF | (x << 4) | (y << 2) | z);
            assert(w@ =~= old(w)@ + encode_op(st0, pixel).0);
            return;
        }
        let rg_diff = r_diff - g_diff;
        let bg_diff = b_diff - g_diff;

        if -8 <= rg_diff && rg_diff <= 7 && -16 <= g_diff && g_diff <= 15 && -8 <= bg_diff && bg_diff <= 7 {
            let (x, y, z) = ((g_diff + 16) as u8, (rg_diff + 8) as u8, (bg_diff + 8) as u8);
            proof {
                lemma_pack_op_fields(x, 0, 0);
                lemma_pack_op_fields(y, z, 0);
            }
            w.push(Q565_OP_LUMA | x);
            w.push((y << 4) | z);
        } else if let Some(bytes) = self.find_indexed(pixel, r, g, b) {
            w.push(bytes[0]);
            w.push(bytes[1]);
        } else {
            let le = le_bytes(pixel);
            w.push(Q565_OP_RGB565);
            w.push(le[0]);
            w.push(le[1]);
        }
        assert(w@ =~= old(w)@ + encode_op(st0, pixel).0);

        // add to color array
        self.arr[index] = pixel;
        self.arr_components[index] = rgb;
        assert(self.arr@ =~= st0.arr.update(hash as int, pixel));
    }

    /// Emits the RUN opcodes for `count` repeats of the previous pixel.
    fn encode_run(count: usize, w: &mut Vec<u8>)
        ensures
            final(w)@ == old(w)@ + run_bytes(count as nat),
    {
        let max_count_count = count / 62;
        let rest_count = count % 62;
        let mut k: usize = 0;
        while k < max_count_count
            invariant
                k <= max_count_count,
                max_count_count == count / 62,
                w@ == old(w)@ + Seq::new(k as nat, |i: int| 0xFDu8),
            decreases max_count_count - k,
        {
            proof {
                lemma_pack_op_fields(61, 0, 0);
            }
            w.push(Q565_OP_RUN | (62 - 1));
            k += 1;
            assert(w@ =~= old(w)@ + Seq::new(k as nat, |i: int| 0xFDu8));
        }
        if rest_count > 0 {
            proof {
                lemma_pack_op_fields((rest_count - 1) as u8, 0, 0);
            }
            w.push(Q565_OP_RUN | (rest_count - 1) as u8);
        }
        assert(w@ =~= old(w)@ + run_bytes(count as nat));
    }

    /// Emits the opcodes for `pixels`, with the given state (`self`) as starting state, and then
    /// END.
    pub fn encode_pixels(&mut self, pixels: &[u16], w: &mut Vec<u8>)
        requires
            old(self).wf(),
        ensures
            final(self).wf(),
            final(w)@ == old(w)@ + encode_pixels_spec(old(self)@, pixels@).0 + seq![0xFFu8],
            final(self)@ == encode_pixels_spec(old(self)@, pixels@).1,
    {
        let ghost total = encode_pixels_spec(self@, pixels@);
        let ghost mut done: Seq<u8> = Seq::empty();
        let mut i: usize = 0;
        assert(pixels@.skip(0) =~= pixels@);
        while i < pixels.len()
            invariant
                i <= pixels@.len(),
                self.wf(),
                total == encode_pixels_spec(old(self)@, pixels@),
                w@ == old(w)@ + done,
                ({
                    let (rest, s) = encode_pixels_spec(self@, pixels@.skip(i as int));
                    total == (done + rest, s)
                }),
            decreases pixels@.len() - i,
        {
            let ghost tail = pixels@.skip(i as int);
            let pixel = pixels[i];
            assert(tail[0] == pixel);
            if pixel == self.prev {
                let mut j: usize = i + 1;
                while j < pixels.len() && pixels[j] == self.prev
                    invariant
                        i < j <= pixels@.len(),
                        pixel == self.prev,
                        forall|q: int| i <= q < j ==> pixels@[q] == self.prev,
                    decreases pixels@.len() - j,
                {
                    j += 1;
                }
                let count = j - i;
                proof {
                    lemma_run_of(tail, self.prev, count as nat);
                    assert(tail.skip(count as int) =~= pixels@.skip(j as int));
                    let (rest, s) = encode_pixels_spec(self@, pixels@.skip(j as int));
                    assert(done + (run_bytes(count as nat) + rest) =~= (done + run_bytes(count as nat)) + rest);
                    done = done + run_bytes(count as nat);
                }
                Self::encode_run(count, w);
                i = j;
            } else {
                let ghost st0 = self@;
                self.encode_one(pixel, w);
                proof {
                    assert(tail.skip(1) =~= pixels@.skip(i + 1));
                    let (op, st1) = encode_op(st0, pixel);
                    let (rest, s) = encode_pixels_spec(st1, pixels@.skip(i + 1));
                    assert(done + (op + rest) =~= (done + op) + rest);
                    done = done + op;
                }
                i += 1;
            }
        }
        assert(pixels@.skip(i as int) =~= Seq::<u16>::empty());
        assert(done + Seq::<u8>::empty() =~= done);
        w.push(Q565_OP_END);
    }
}

impl Q565EncodeContext {
    /// Encodes an image with a fresh context, appending the stream to `w`. Returns false, and
    /// leaves `w` as it is, when the number of pixels is not `width * height`.
    pub fn encode_to_vec(width: u16, height: u16, pixels: &[u16], w: &mut Vec<u8>) -> (r: bool)
        ensures
            r == (width * height == pixels@.len()),
            r ==> final(w)@ == old(w)@ + encoded_image(width, height, pixels@),
            !r ==> final(w)@ == old(w)@,
    {
        let mut state = Q565EncodeContext::new();
        state.encode_to_vec_with_state(width, height, pixels, w)
    }

    /// Encodes an image with the given state (`self`) as starting state, appending the stream
    /// to `w`. Returns false, and leaves `self` and `w` as they are, when the number of pixels is
    /// not `width * height`.
    pub fn encode_to_vec_with_state(
        &mut self,
        width: u16,
        height: u16,
        pixels: &[u16],
        w: &mut Vec<u8>,
    ) -> (r: bool)
        requires
            old(self).wf(),
        ensures
            final(self).wf(),
            r == (width * height == pixels@.len()),
            r ==> final(w)@ == old(w)@ + header_bytes(width, height) + encode_pixels_spec(
                old(self)@,
                pixels@,
            ).0 + seq![0xFFu8],
            r ==> final(self)@ == encode_pixels_spec(old(self)@, pixels@).1,
            !r ==> final(w)@ == old(w)@ && *final(self) == *old(self),
    {
        if !dimensions_match(width, height, pixels.len()) {
            return false;
        }
        Self::encode_header(width, height, w);
        let ghost after_header = w@;
        self.encode_pixels(pixels, w);
        assert(w@ =~= old(w)@ + header_bytes(width, height) + encode_pixels_spec(old(self)@, pixels@).0
            + seq![0xFFu8]);
        true
    }

    /// Encodes an image with a fresh context, appending the stream to `w`.
    pub fn encode(width: u16, height: u16, pixels: &[u16], w: &mut Vec<u8>) -> (r: Result<(), EncodeError>)
        ensures
            r is Ok <==> width * height == pixels@.len(),
            r is Ok ==> final(w)@ == old(w)@ + encoded_image(width, height, pixels@),
            r is Err ==> final(w)@ == old(w)@ && r == Err::<(), EncodeError>(EncodeError::InvalidDimensions {
                width: width as usize,
                height: height as usize,
                pixel_count: pixels@.len() as usize,
            }),
    {
        let mut ctx = Q565EncodeContext::new();
        ctx.encode_with_state(width, height, pixels, w)
    }

    /// Appends the eight header bytes of a `width` x `height` image to `w`.
    pub fn encode_header(width: u16, height: u16, w: &mut Vec<u8>)
        ensures
            final(w)@ == old(w)@ + header_bytes(width, height),
    {
        let wb = le_bytes(width);
        let hb = le_bytes(height);
        let header = [0x71u8, 0x35, 0x36, 0x35, wb[0], wb[1], hb[0], hb[1]];
        let mut k: usize = 0;
        while k < 8
            invariant
                k <= 8,
                header@ == header_bytes(width, height),
                w@ == old(w)@ + header@.take(k as int),
            decreases 8 - k,
        {
            w.push(header[k]);
            k += 1;
            assert(w@ =~= old(w)@ + header@.take(k as int));
        }
        assert(header@.take(8) =~= header@);
    }

    /// Encodes an image with the given state (`self`) as starting state, appending the stream
    /// to `w`. Fails, leaving `self` and `w` as they are, when the number of pixels is not
    /// `width * height`.
    pub fn encode_with_state(
        &mut self,
        width: u16,
        height: u16,
        pixels: &[u16],
        w: &mut Vec<u8>,
    ) -> (r: Result<(), EncodeError>)
        requires
            old(self).wf(),
        ensures
            final(self).wf(),
            r is Ok <==> width * height == pixels@.len(),
            r is Ok ==> final(w)@ == old(w)@ + header_bytes(width, height) + encode_pixels_spec(
                old(self)@,
                pixels@,
            ).0 + seq![0xFFu8],
            r is Ok ==> final(self)@ == encode_pixels_spec(old(self)@, pixels@).1,
            r is Err ==> final(w)@ == old(w)@ && *final(self) == *old(self) && r == Err::<
                (),
                EncodeError,
            >(
                EncodeError::InvalidDimensions {
                    width: width as usize,
                    height: height as usize,
                    pixel_count: pixels@.len() as usize,
                },
            ),
    {
        if !dimensions_match(width, height, pixels.len()) {
            return Err(
                EncodeError::InvalidDimensions {
                    width: width as usize,
                    height: height as usize,
                    pixel_count: pixels.len(),
                },
            );
        }
        Self::encode_header(width, height, w);
        self.encode_pixels(pixels, w);
        assert(w@ =~= old(w)@ + header_bytes(width, height) + encode_pixels_spec(old(self)@, pixels@).0
            + seq![0xFFu8]);
        Ok(())
    }
}

/// Whether `len` pixels make a `width` x `height` image.
fn dimensions_match(width: u16, height: u16, len: usize) -> (r: bool)
    ensures
        r == (width * height == len),
{
    assert((width as usize) * (height as usize) <= 65535 * 65535) by (nonlinear_arith)
        requires
            width <= 65535,
            height <= 65535,
    ;
    (width as usize) * (height as usize) == len
}

/// The run that a scan finds is the run that the encoding counts.
proof fn lemma_run_of(px: Seq<u16>, p: u16, n: nat)
    requires
        0 < n <= px.len(),
        forall|q: int| 0 <= q < n ==> px[q] == p,
        n == px.len() || px[n as int] != p,
    ensures
        run_length(px, p) == n,
    decreases n,
{
    assert(px[0] == p);
    if n > 1 {
        lemma_run_of(px.skip(1), p, (n - 1) as nat);
    } else if px.len() > 1 {
        assert(px.skip(1)[0] == px[1]);
    }
    assert(run_length(px, p) == 1 + run_length(px.skip(1), p));
}

/// Where the first close color-array entry stands.
pub proof fn lemma_first_indexed(arr: Seq<u16>, p: u16, start: nat)
    ensures
        first_indexed(arr, p, start) matches Some(i) ==> start <= i < 64 && indexed_fits(arr[i as int], p)
            && forall|j: int| start <= j < i ==> !indexed_fits(#[trigger] arr[j], p),
        first_indexed(arr, p, start) is None ==> forall|j: int| start <= j < 64 ==> !indexed_fits(
            #[trigger] arr[j],
            p,
        ),
    decreases 64 - start,
{
    if start < 64 && !indexed_fits(arr[start as int], p) {
        lemma_first_indexed(arr, p, start + 1);
    }
}

/// The encoder takes the first opcode that can describe a pixel, in the order INDEX, DIFF,
/// LUMA, indexed difference, RGB565: it emits each kind of opcode exactly when every kind
/// before it does not fit.
pub proof fn lemma_opcode_priority(s: CodecState, p: u16)
    requires
        state_wf(s),
    ensures
        ({
            let bytes = encode_op(s, p).0;
            let index_hit = s.arr[hash_of(p) as int] == p;
            let indexed_exists = exists|i: int| 0 <= i < 64 && indexed_fits(#[trigger] s.arr[i], p);
            &&& (bytes.len() == 1 && bytes[0] < 64) <==> index_hit
            &&& (bytes.len() == 1 && 64 <= bytes[0] < 128) <==> (!index_hit && small_diff_fits(s.prev, p))
            &&& (bytes.len() == 2 && 128 <= bytes[0] < 160) <==> (!index_hit && !small_diff_fits(s.prev, p)
                && luma_fits(s.prev, p))
            &&& (bytes.len() == 2 && 160 <= bytes[0] < 192) <==> (!index_hit && !small_diff_fits(s.prev, p)
                && !luma_fits(s.prev, p) && indexed_exists)
            &&& (bytes.len() == 3 && bytes[0] == 254) <==> (!index_hit && !small_diff_fits(s.prev, p)
                && !luma_fits(s.prev, p) && !indexed_exists)
        }),
{
    lemma2_to64();
    lemma_first_indexed(s.arr, p, 0);
    let bytes = encode_op(s, p).0;
    assert(hash_of(p) < 64);
    if s.arr[hash_of(p) as int] != p && !small_diff_fits(s.prev, p) && !luma_fits(s.prev, p) {
        match first_indexed(s.arr, p, 0) {
            Some(i) => {
                assert(indexed_fits(s.arr[i as int], p));
            },
            None => {},
        }
    }
}

/// The color array after one opcode of the encoder: a DIFF leaves it as it is; after any other
/// opcode for a single pixel, the pixel stands in its slot. Either way the pixel becomes the
/// previous pixel.
pub proof fn lemma_color_array_update(s: CodecState, p: u16)
    requires
        state_wf(s),
    ensures
        ({
            let (bytes, st1) = encode_op(s, p);
            &&& st1.prev == p
            &&& st1.arr.len() == 64
            &&& (bytes.len() == 1 && 64 <= bytes[0] < 128) ==> st1.arr == s.arr
            &&& !(bytes.len() == 1 && 64 <= bytes[0] < 128) ==> st1.arr[hash_of(p) as int] == p
        }),
{
    lemma_opcode_priority(s, p);
}

/// A run of `L` pixels equal to the previous one is encoded as `L / 62` full RUN bytes (`0xFD`),
/// then, when `L % 62 > 0`, one RUN byte `0xC0 | (L % 62 - 1)`; the rest of the pixels follow
/// from the same state.
pub proof fn lemma_run_chunking(s: CodecState, px: Seq<u16>)
    requires
        px.len() > 0,
        px[0] == s.prev,
    ensures
        ({
            let l = run_length(px, s.prev);
            let bytes = run_bytes(l);
            &&& encode_pixels_spec(s, px).0 == bytes + encode_pixels_spec(s, px.skip(l as int)).0
            &&& bytes.len() == l / 62 + if l % 62 > 0 { 1int } else { 0int }
            &&& forall|i: int| 0 <= i < l / 62 ==> bytes[i] == 0xFDu8
            &&& l % 62 > 0 ==> bytes[(l / 62) as int] == 0xC0u8 | ((l % 62) - 1) as u8
        }),
{
    let l = run_length(px, s.prev);
    lemma_pack_op_fields(((l % 62) - 1) as u8, 0, 0);
}

/// The allocating encoder gives the same bytes as the one that emits the header, then the
/// opcodes and END.
pub proof fn lemma_encoders_agree(width: u16, height: u16, px: Seq<u16>)
    ensures
        encoded_image(width, height, px) == header_bytes(width, height) + encode_pixels_spec(
            initial_state(),
            px,
        ).0 + seq![0xFFu8],
{
}

} // verus!
