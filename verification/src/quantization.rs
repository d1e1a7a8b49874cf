//! Uniform color quantization and the packed pixel bitstream.
//!
//! A [`UniformQuantization`] holds one bit width per channel, each between 1
//! and 8. Quantizing keeps the top bits of a channel as an interval index;
//! dequantizing maps an index back to the midpoint of its interval. The
//! scheme also fixes the on-disk layout of a pixel: the three indices are
//! written back to back, `bits_r` then `bits_g` then `bits_b` bits, each
//! big-endian, with no padding between fields or records.

use vstd::prelude::*;

use crate::bits::{
    bits_val, field_bits, lemma_bits_val_bound, lemma_field_bits_val, push_bits, read_bits,
};
use crate::color::Rgb;
use crate::error::{GreenfieldError, GreenfieldResult};
use vstd::arithmetic::div_mod::{
    lemma_div_by_multiple, lemma_div_multiples_vanish_fancy, lemma_div_nonincreasing,
    lemma_fundamental_div_mod, lemma_multiply_divide_lt, lemma_small_mod,
};
use vstd::arithmetic::mul::{lemma_mul_inequality, lemma_mul_is_distributive_sub_other_way};
use vstd::arithmetic::power2::{
    lemma2_to64, lemma_pow2_adds, lemma_pow2_pos, lemma_pow2_strictly_increases,
    lemma_pow2_unfold, pow2,
};
use vstd::bits::{
    lemma_u8_low_bits_mask_is_mod, lemma_u8_shl_is_mul, lemma_u8_shr_is_div, low_bits_mask,
};

verus! {

/// A channel value quantized to `b` bits: the top `b` of its 8 bits, read as
/// an index in `[0, 2^b)`.
pub open spec fn quant_ch(v: u8, b: u8) -> u8 {
    ((v as nat) / pow2((8 - b) as nat)) as u8
}

/// A `b`-bit index scaled back to 8 bits: the midpoint of its interval. At
/// full precision the channel is returned unchanged; an index with bits
/// above `b` contributes only its low `b` bits.
pub open spec fn dequant_ch(v: u8, b: u8) -> u8 {
    if b == 8 {
        v
    } else {
        (((v as nat) % pow2(b as nat)) * pow2((8 - b) as nat) + pow2((7 - b) as nat)) as u8
    }
}

/// The per-channel bit widths of the uniform quantization, each in `[1, 8]`.
#[derive(Clone, Copy, Debug, PartialEq, Eq, Structural)]
pub struct UniformQuantization {
    pub bits_r: u8,
    pub bits_g: u8,
    pub bits_b: u8,
}

impl UniformQuantization {
    /// All three widths lie in the closed range `[1, 8]`.
    pub open spec fn valid(self) -> bool {
        &&& 1 <= self.bits_r <= 8
        &&& 1 <= self.bits_g <= 8
        &&& 1 <= self.bits_b <= 8
    }

    /// The number of bits one packed pixel occupies.
    pub open spec fn spec_chunk_size(self) -> nat {
        (self.bits_r + self.bits_g + self.bits_b) as nat
    }

    /// All three channels of `c` fit the widths of this scheme.
    pub open spec fn in_range(self, c: Rgb) -> bool {
        &&& (c.r as nat) < pow2(self.bits_r as nat)
        &&& (c.g as nat) < pow2(self.bits_g as nat)
        &&& (c.b as nat) < pow2(self.bits_b as nat)
    }

    /// `c` quantized channel by channel.
    pub open spec fn spec_quantize(self, c: Rgb) -> Rgb {
        Rgb { r: quant_ch(c.r, self.bits_r), g: quant_ch(c.g, self.bits_g), b: quant_ch(
            c.b,
            self.bits_b,
        ) }
    }

    /// `c` dequantized channel by channel.
    pub open spec fn spec_dequantize(self, c: Rgb) -> Rgb {
        Rgb { r: dequant_ch(c.r, self.bits_r), g: dequant_ch(c.g, self.bits_g), b: dequant_ch(
            c.b,
            self.bits_b,
        ) }
    }

    /// The bits of one packed pixel: `bits_r`, `bits_g` and `bits_b` bits of
    /// the respective channel, in that order, each most significant first.
    pub open spec fn chunk_of(self, c: Rgb) -> Seq<bool> {
        field_bits(c.r as nat, self.bits_r as nat) + field_bits(c.g as nat, self.bits_g as nat)
            + field_bits(c.b as nat, self.bits_b as nat)
    }

    /// The packed bitstream of a pixel sequence: all chunks back to back.
    pub open spec fn packed_bits(self, colors: Seq<Rgb>) -> Seq<bool>
        decreases colors.len(),
    {
        if colors.len() == 0 {
            Seq::<bool>::empty()
        } else {
            self.packed_bits(colors.drop_last()) + self.chunk_of(colors.last())
        }
    }

    /// The pixel denoted by one chunk of bits (the first `spec_chunk_size()`
    /// bits of `s`).
    pub open spec fn chunk_color(self, s: Seq<bool>) -> Rgb {
        let br = self.bits_r as int;
        let bg = self.bits_g as int;
        let bb = self.bits_b as int;
        Rgb {
            r: bits_val(s.subrange(0, br)) as u8,
            g: bits_val(s.subrange(br, br + bg)) as u8,
            b: bits_val(s.subrange(br + bg, br + bg + bb)) as u8,
        }
    }

    /// The first `n` pixels denoted by a bitstream of packed chunks.
    pub open spec fn unpacked_colors(self, s: Seq<bool>, n: nat) -> Seq<Rgb> {
        let cs = self.spec_chunk_size() as int;
        Seq::new(n, |i: int| self.chunk_color(s.subrange(i * cs, i * cs + cs)))
    }

    /// What `compress` produces: quantize every pixel, then pack.
    pub open spec fn spec_compress(self, colors: Seq<Rgb>) -> Seq<bool> {
        self.packed_bits(colors.map_values(|c: Rgb| self.spec_quantize(c)))
    }

    /// What `decompress` produces: unpack every whole chunk, then dequantize.
    pub open spec fn spec_decompress(self, s: Seq<bool>) -> Seq<Rgb> {
        self.unpacked_colors(s, s.len() / self.spec_chunk_size()).map_values(
            |c: Rgb| self.spec_dequantize(c),
        )
    }

    /// Creates a scheme after checking that every width lies in `[1, 8]`.
    pub fn new(bits_r: u8, bits_g: u8, bits_b: u8) -> (r: GreenfieldResult<UniformQuantization>)
        ensures
            match r {
                Ok(q) => {
                    &&& q == (UniformQuantization { bits_r, bits_g, bits_b })
                    &&& q.valid()
                },
                Err(e) => {
                    &&& !(UniformQuantization { bits_r, bits_g, bits_b }).valid()
                    &&& e == GreenfieldError::InvalidQuantizationLevel(bits_r, bits_g, bits_b)
                },
            },
    {
        if 1 <= bits_r && bits_r <= 8 && 1 <= bits_g && bits_g <= 8 && 1 <= bits_b && bits_b <= 8 {
            Ok(UniformQuantization { bits_r, bits_g, bits_b })
        } else {
            Err(GreenfieldError::InvalidQuantizationLevel(bits_r, bits_g, bits_b))
        }
    }

    /// The bit budget of one packed pixel.
    pub fn chunk_size(&self) -> (r: usize)
        requires
            self.valid(),
        ensures
            r == self.spec_chunk_size(),
            3 <= r <= 24,
    {
        self.bits_r as usize + self.bits_g as usize + self.bits_b as usize
    }

    /// Returns a new color with every channel quantized to this scheme. At
    /// full precision, `(8, 8, 8)`, the color is returned unchanged.
    pub fn get_quantized_color(&self, color: &Rgb) -> (r: Rgb)
        requires
            self.valid(),
        ensures
            r == self.spec_quantize(*color),
            self.in_range(r),
    {
        proof {
            lemma_quant_ch(color.r, self.bits_r);
            lemma_quant_ch(color.g, self.bits_g);
            lemma_quant_ch(color.b, self.bits_b);
        }
        if self.bits_r == 8 && self.bits_g == 8 && self.bits_b == 8 {
            Rgb::new(color.r, color.g, color.b)
        } else {
            Rgb::new(
                quant_channel(color.r, self.bits_r),
                quant_channel(color.g, self.bits_g),
                quant_channel(color.b, self.bits_b),
            )
        }
    }

    /// Quantizes a color in place; the in-place form of
    /// [`Self::get_quantized_color`].
    pub fn quantify_color(&self, color: &mut Rgb)
        requires
            self.valid(),
        ensures
            *final(color) == self.spec_quantize(*old(color)),
            self.in_range(*final(color)),
    {
        proof {
            lemma_quant_ch(color.r, self.bits_r);
            lemma_quant_ch(color.g, self.bits_g);
            lemma_quant_ch(color.b, self.bits_b);
        }
        if self.bits_r == 8 && self.bits_g == 8 && self.bits_b == 8 {
        } else {
            color.r = quant_channel(color.r, self.bits_r);
            color.g = quant_channel(color.g, self.bits_g);
            color.b = quant_channel(color.b, self.bits_b);
        }
    }

    /// Returns a new color with every channel dequantized: each index is
    /// scaled back up and moved to the midpoint of its interval. At full
    /// precision, `(8, 8, 8)`, the color is returned unchanged.
    pub fn get_dequantized_color(&self, color: &Rgb) -> (r: Rgb)
        requires
            self.valid(),
        ensures
            r == self.spec_dequantize(*color),
    {
        if self.bits_r == 8 && self.bits_g == 8 && self.bits_b == 8 {
            Rgb::new(color.r, color.g, color.b)
        } else {
            Rgb::new(
                dequant_channel(color.r, self.bits_r),
                dequant_channel(color.g, self.bits_g),
                dequant_channel(color.b, self.bits_b),
            )
        }
    }

    /// Dequantizes a color in place; the in-place form of
    /// [`Self::get_dequantized_color`].
    pub fn dequantify_color(&self, color: &mut Rgb)
        requires
            self.valid(),
        ensures
            *final(color) == self.spec_dequantize(*old(color)),
    {
        if self.bits_r == 8 && self.bits_g == 8 && self.bits_b == 8 {
        } else {
            color.r = dequant_channel(color.r, self.bits_r);
            color.g = dequant_channel(color.g, self.bits_g);
            color.b = dequant_channel(color.b, self.bits_b);
        }
    }
}

impl Default for UniformQuantization {
    /// The default scheme keeps full precision: 8 bits per channel.
    fn default() -> (r: UniformQuantization)
        ensures
            r == (UniformQuantization { bits_r: 8, bits_g: 8, bits_b: 8 }),
            r.valid(),
    {
        UniformQuantization { bits_r: 8, bits_g: 8, bits_b: 8 }
    }
}

impl UniformQuantization {
    /// Appends the packed chunks of `colors` to `out`. The channels are
    /// packed as given: callers hand in already-quantized pixels.
    pub(crate) fn pack_into(&self, colors: &Vec<Rgb>, out: &mut Vec<bool>)
        requires
            self.valid(),
        ensures
            final(out)@ == old(out)@ + self.packed_bits(colors@),
    {
        let n = colors.len();
        let mut i: usize = 0;
        while i < n
            invariant
                self.valid(),
                i <= n == colors@.len(),
                out@ == old(out)@ + self.packed_bits(colors@.take(i as int)),
            decreases n - i,
        {
            let c = colors[i];
            push_bits(out, c.r as u64, self.bits_r as usize);
            push_bits(out, c.g as u64, self.bits_g as usize);
            push_bits(out, c.b as u64, self.bits_b as usize);
            proof {
                assert(colors@.take(i + 1).drop_last() =~= colors@.take(i as int));
                assert(colors@.take(i + 1).last() == c);
                assert(out@ =~= old(out)@ + self.packed_bits(colors@.take(i + 1)));
            }
            i = i + 1;
        }
        proof {
            assert(colors@.take(n as int) =~= colors@);
        }
    }

    /// Reads `n` packed chunks starting at bit position `at` and returns the
    /// channel indices as read, without dequantizing them.
    pub(crate) fn unpack_from(&self, bits: &Vec<bool>, at: usize, n: usize) -> (r: Vec<Rgb>)
        requires
            self.valid(),
            at + n * self.spec_chunk_size() <= bits@.len(),
        ensures
            r@ == self.unpacked_colors(bits@.skip(at as int), n as nat),
            forall|i: int| 0 <= i < n ==> self.in_range(#[trigger] r@[i]),
    {
        let len = bits.len();
        let cs = self.chunk_size();
        let br = self.bits_r as usize;
        let bg = self.bits_g as usize;
        let bb = self.bits_b as usize;
        let ghost tail = bits@.skip(at as int);
        let mut r: Vec<Rgb> = Vec::new();
        let mut i: usize = 0;
        while i < n
            invariant
                self.valid(),
                i <= n,
                len == bits@.len(),
                at + n * self.spec_chunk_size() <= len,
                cs == self.spec_chunk_size(),
                br == self.bits_r && bg == self.bits_g && bb == self.bits_b,
                cs == br + bg + bb <= 24,
                tail == bits@.skip(at as int),
                r@ == self.unpacked_colors(tail, i as nat),
                forall|k: int| 0 <= k < i ==> self.in_range(#[trigger] r@[k]),
            decreases n - i,
        {
            proof {
                lemma_mul_inequality(i + 1, n as int, cs as int);
                assert((i + 1) * cs == i * cs + cs) by (nonlinear_arith);
            }
            let base = at + i * cs;
            let rv = read_bits(bits, base, br);
            let gv = read_bits(bits, base + br, bg);
            let bv = read_bits(bits, base + br + bg, bb);
            proof {
                lemma_bits_val_bound(bits@.subrange(base as int, base + br));
                lemma_bits_val_bound(bits@.subrange(base + br, base + br + bg));
                lemma_bits_val_bound(bits@.subrange(base + br + bg, base + br + bg + bb));
                lemma2_to64();
                if br < 8 {
                    lemma_pow2_strictly_increases(br as nat, 8);
                }
                if bg < 8 {
                    lemma_pow2_strictly_increases(bg as nat, 8);
                }
                if bb < 8 {
                    lemma_pow2_strictly_increases(bb as nat, 8);
                }
            }
            let c = Rgb::new(rv as u8, gv as u8, bv as u8);
            proof {
                let chunk = tail.subrange(i * cs, i * cs + cs);
                assert(chunk.subrange(0, br as int) =~= bits@.subrange(base as int, base + br));
                assert(chunk.subrange(br as int, br + bg) =~= bits@.subrange(
                    base + br,
                    base + br + bg,
                ));
                assert(chunk.subrange(br + bg, br + bg + bb) =~= bits@.subrange(
                    base + br + bg,
                    base + br + bg + bb,
                ));
                assert(c == self.chunk_color(chunk));
                assert(self.unpacked_colors(tail, (i + 1) as nat) =~= self.unpacked_colors(
                    tail,
                    i as nat,
                ).push(c));
            }
            r.push(c);
            i = i + 1;
        }
        r
    }

    /// Quantizes every color of `colors` and packs the indices into a fresh
    /// bit sequence: `spec_chunk_size()` bits per color, no padding.
    pub fn compress(&self, colors: &Vec<Rgb>) -> (r: Vec<bool>)
        requires
            self.valid(),
        ensures
            r@ == self.spec_compress(colors@),
            r@.len() == colors@.len() * self.spec_chunk_size(),
    {
        let ghost f = |c: Rgb| self.spec_quantize(c);
        let n = colors.len();
        let mut quantized: Vec<Rgb> = Vec::new();
        let mut i: usize = 0;
        while i < n
            invariant
                self.valid(),
                i <= n == colors@.len(),
                f == (|c: Rgb| self.spec_quantize(c)),
                quantized@ == colors@.take(i as int).map_values(f),
            decreases n - i,
        {
            let qc = self.get_quantized_color(&colors[i]);
            quantized.push(qc);
            proof {
                assert(colors@.take(i + 1).map_values(f) =~= colors@.take(i as int).map_values(
                    f,
                ).push(qc));
            }
            i = i + 1;
        }
        proof {
            assert(colors@.take(n as int) =~= colors@);
        }
        let mut out: Vec<bool> = Vec::new();
        self.pack_into(&quantized, &mut out);
        proof {
            lemma_packed_bits_len(*self, quantized@);
        }
        out
    }

    /// Splits `data` into whole chunks, reads each chunk's indices and
    /// dequantizes them; bits after the last whole chunk are ignored.
    pub fn decompress(&self, data: &Vec<bool>) -> (r: Vec<Rgb>)
        requires
            self.valid(),
        ensures
            r@ == self.spec_decompress(data@),
            r@.len() == data@.len() / self.spec_chunk_size(),
    {
        let len = data.len();
        let cs = self.chunk_size();
        let n = len / cs;
        proof {
            lemma_fundamental_div_mod(len as int, cs as int);
            vstd::arithmetic::div_mod::lemma_mod_division_less_than_divisor(len as int, cs as int);
            assert(cs * n <= len);
            assert(n * cs == cs * n) by (nonlinear_arith);
            assert(data@.skip(0) =~= data@);
        }
        let raw = self.unpack_from(data, 0, n);
        let ghost g = |c: Rgb| self.spec_dequantize(c);
        let mut r: Vec<Rgb> = Vec::new();
        let mut i: usize = 0;
        while i < n
            invariant
                self.valid(),
                i <= n == raw@.len(),
                g == (|c: Rgb| self.spec_dequantize(c)),
                r@ == raw@.take(i as int).map_values(g),
            decreases n - i,
        {
            let dc = self.get_dequantized_color(&raw[i]);
            r.push(dc);
            proof {
                assert(raw@.take(i + 1).map_values(g) =~= raw@.take(i as int).map_values(g).push(
                    dc,
                ));
            }
            i = i + 1;
        }
        proof {
            assert(raw@.take(n as int) =~= raw@);
            assert(r@ =~= self.spec_decompress(data@));
        }
        r
    }
}

/// A packed bitstream takes exactly `spec_chunk_size()` bits per color.
pub proof fn lemma_packed_bits_len(q: UniformQuantization, colors: Seq<Rgb>)
    ensures
        q.packed_bits(colors).len() == colors.len() * q.spec_chunk_size(),
    decreases colors.len(),
{
    let cs = q.spec_chunk_size();
    if colors.len() == 0 {
    } else {
        lemma_packed_bits_len(q, colors.drop_last());
        assert((colors.len() - 1) * cs + cs == colors.len() * cs) by (nonlinear_arith);
    }
}

/// Chunk `i` of a packed bitstream holds exactly the bits of color `i`.
pub proof fn lemma_packed_bits_chunk(q: UniformQuantization, colors: Seq<Rgb>, i: int)
    requires
        0 <= i < colors.len(),
    ensures
        q.packed_bits(colors).subrange(
            i * q.spec_chunk_size(),
            i * q.spec_chunk_size() + q.spec_chunk_size(),
        ) == q.chunk_of(colors[i]),
    decreases colors.len(),
{
    let cs = q.spec_chunk_size() as int;
    let packed = q.packed_bits(colors);
    let head = q.packed_bits(colors.drop_last());
    lemma_packed_bits_len(q, colors);
    lemma_packed_bits_len(q, colors.drop_last());
    if i == colors.len() - 1 {
        assert(packed.subrange(i * cs, i * cs + cs) =~= q.chunk_of(colors[i]));
    } else {
        lemma_packed_bits_chunk(q, colors.drop_last(), i);
        lemma_mul_inequality(i + 1, colors.len() - 1, cs);
        assert((i + 1) * cs == i * cs + cs) by (nonlinear_arith);
        assert(packed.subrange(i * cs, i * cs + cs) =~= head.subrange(i * cs, i * cs + cs));
    }
}

/// Reading back the chunk written for an in-range color gives that color.
pub proof fn lemma_chunk_color_of(q: UniformQuantization, c: Rgb)
    requires
        q.valid(),
        q.in_range(c),
    ensures
        q.chunk_color(q.chunk_of(c)) == c,
{
    let br = q.bits_r as int;
    let bg = q.bits_g as int;
    let bb = q.bits_b as int;
    let s = q.chunk_of(c);
    let fr = field_bits(c.r as nat, q.bits_r as nat);
    let fg = field_bits(c.g as nat, q.bits_g as nat);
    let fb = field_bits(c.b as nat, q.bits_b as nat);
    assert(s.subrange(0, br) =~= fr);
    assert(s.subrange(br, br + bg) =~= fg);
    assert(s.subrange(br + bg, br + bg + bb) =~= fb);
    lemma_field_bits_val(c.r as nat, q.bits_r as nat);
    lemma_field_bits_val(c.g as nat, q.bits_g as nat);
    lemma_field_bits_val(c.b as nat, q.bits_b as nat);
    lemma_small_mod(c.r as nat, pow2(q.bits_r as nat));
    lemma_small_mod(c.g as nat, pow2(q.bits_g as nat));
    lemma_small_mod(c.b as nat, pow2(q.bits_b as nat));
}

/// At full precision, `(8, 8, 8)`, quantizing and dequantizing are both the
/// identity on every color.
pub proof fn lemma_full_precision_identity(c: Rgb)
    ensures
        (UniformQuantization { bits_r: 8, bits_g: 8, bits_b: 8 }).spec_quantize(c) == c,
        (UniformQuantization { bits_r: 8, bits_g: 8, bits_b: 8 }).spec_dequantize(c) == c,
{
    lemma_quant_ch(c.r, 8);
    lemma_quant_ch(c.g, 8);
    lemma_quant_ch(c.b, 8);
}

/// Dequantizing stays inside the quantization interval: quantizing the
/// dequantized color gives the same indices as quantizing the original, for
/// every valid scheme and color.
pub proof fn lemma_requantization_stable(q: UniformQuantization, c: Rgb)
    requires
        q.valid(),
    ensures
        q.spec_quantize(q.spec_dequantize(q.spec_quantize(c))) == q.spec_quantize(c),
{
    lemma_quant_ch(c.r, q.bits_r);
    lemma_quant_ch(c.g, q.bits_g);
    lemma_quant_ch(c.b, q.bits_b);
    lemma_quant_dequant_ch(quant_ch(c.r, q.bits_r), q.bits_r);
    lemma_quant_dequant_ch(quant_ch(c.g, q.bits_g), q.bits_g);
    lemma_quant_dequant_ch(quant_ch(c.b, q.bits_b), q.bits_b);
}

/// Compressing then decompressing recovers, for each record, exactly the
/// dequantized quantization of the original color.
pub proof fn lemma_compress_then_decompress(q: UniformQuantization, colors: Seq<Rgb>)
    requires
        q.valid(),
    ensures
        q.spec_decompress(q.spec_compress(colors)) == colors.map_values(
            |c: Rgb| q.spec_dequantize(q.spec_quantize(c)),
        ),
{
    let cs = q.spec_chunk_size();
    let qs = colors.map_values(|c: Rgb| q.spec_quantize(c));
    let packed = q.packed_bits(qs);
    lemma_packed_bits_len(q, qs);
    lemma_div_by_multiple(colors.len() as int, cs as int);
    assert(packed.len() / cs == colors.len());
    assert forall|i: int| 0 <= i < colors.len() implies q.unpacked_colors(packed, colors.len())[i]
        == qs[i] by {
        lemma_packed_bits_chunk(q, qs, i);
        lemma_quant_ch(colors[i].r, q.bits_r);
        lemma_quant_ch(colors[i].g, q.bits_g);
        lemma_quant_ch(colors[i].b, q.bits_b);
        lemma_chunk_color_of(q, qs[i]);
    }
    assert(q.unpacked_colors(packed, colors.len()) =~= qs);
    assert(q.spec_decompress(q.spec_compress(colors)) =~= colors.map_values(
        |c: Rgb| q.spec_dequantize(q.spec_quantize(c)),
    ));
}

/// `quant_ch` computes the division exactly and lands in `[0, 2^b)`.
proof fn lemma_quant_ch(v: u8, b: u8)
    requires
        1 <= b <= 8,
    ensures
        (quant_ch(v, b) as nat) == (v as nat) / pow2((8 - b) as nat),
        (quant_ch(v, b) as nat) < pow2(b as nat),
        b == 8 ==> quant_ch(v, b) == v,
{
    let s = (8 - b) as nat;
    lemma_pow2_pos(s);
    lemma_div_nonincreasing(v as int, pow2(s) as int);
    lemma_pow2_adds(s, b as nat);
    lemma2_to64();
    lemma_multiply_divide_lt(v as int, pow2(s) as int, pow2(b as nat) as int);
    if b == 8 {
        assert(pow2(0) == 1);
        assert((v as nat) / 1 == v as nat) by (nonlinear_arith);
    }
}

/// `dequant_ch` for a narrowed channel: the arithmetic stays below 256, so
/// the stated value is exact.
proof fn lemma_dequant_ch(v: u8, b: u8)
    requires
        1 <= b <= 7,
    ensures
        (dequant_ch(v, b) as nat) == ((v as nat) % pow2(b as nat)) * pow2((8 - b) as nat) + pow2(
            (7 - b) as nat,
        ),
        (dequant_ch(v, b) as nat) < 256,
{
    let s = (8 - b) as nat;
    let m = (v as nat) % pow2(b as nat);
    lemma_pow2_pos(b as nat);
    lemma_pow2_pos(s);
    vstd::arithmetic::div_mod::lemma_mod_division_less_than_divisor(v as int, pow2(b as nat) as int);
    assert(m <= pow2(b as nat) - 1);
    lemma_mul_inequality(m as int, pow2(b as nat) - 1, pow2(s) as int);
    lemma_mul_is_distributive_sub_other_way(pow2(s) as int, pow2(b as nat) as int, 1);
    lemma_pow2_adds(b as nat, s);
    lemma2_to64();
    assert(m * pow2(s) <= 256 - pow2(s));
    lemma_pow2_unfold(s);
    assert(pow2((s - 1) as nat) < pow2(s));
    assert((7 - b) as nat == (s - 1) as nat);
}

/// Quantizing a dequantized index gives the index back.
proof fn lemma_quant_dequant_ch(v: u8, b: u8)
    requires
        1 <= b <= 8,
        (v as nat) < pow2(b as nat),
    ensures
        quant_ch(dequant_ch(v, b), b) == v,
{
    if b == 8 {
        lemma_quant_ch(v, b);
    } else {
        let s = (8 - b) as nat;
        lemma_dequant_ch(v, b);
        lemma_small_mod(v as nat, pow2(b as nat));
        let d = dequant_ch(v, b);
        assert((d as nat) == (v as nat) * pow2(s) + pow2((s - 1) as nat));
        lemma_pow2_pos(s);
        lemma_pow2_unfold(s);
        assert(pow2((s - 1) as nat) < pow2(s));
        assert((v as nat) * pow2(s) == pow2(s) * (v as nat)) by (nonlinear_arith);
        lemma_div_multiples_vanish_fancy(v as int, pow2((s - 1) as nat) as int, pow2(s) as int);
        assert((d as nat) / pow2(s) == v as nat);
    }
}

/// The exact quotient `v / 2^(8-b)`, computed with a right shift.
fn quant_channel(v: u8, b: u8) -> (r: u8)
    requires
        1 <= b <= 8,
    ensures
        r == quant_ch(v, b),
        (r as nat) < pow2(b as nat),
{
    proof {
        lemma_u8_shr_is_div(v, (8 - b) as u8);
        lemma_quant_ch(v, b);
    }
    v >> ((8 - b) as u8)
}

/// The interval midpoint of index `v`, computed with shifts; the index is
/// masked to its `b` low bits first.
fn dequant_channel(v: u8, b: u8) -> (r: u8)
    requires
        1 <= b <= 8,
    ensures
        r == dequant_ch(v, b),
{
    if b == 8 {
        v
    } else {
        proof {
            lemma2_to64();
            if b < 7 {
                lemma_pow2_strictly_increases(b as nat, 7);
            }
            lemma_u8_shl_is_mul(1, b);
        }
        let mask: u8 = (1u8 << b) - 1;
        proof {
            assert(mask as nat == low_bits_mask(b as nat));
            lemma_u8_low_bits_mask_is_mod(v, b as nat);
        }
        let m = v & mask;
        proof {
            lemma_dequant_ch(v, b);
            lemma_u8_shl_is_mul(m, (8 - b) as u8);
            lemma_u8_shl_is_mul(1, (7 - b) as u8);
        }
        (m << ((8 - b) as u8)) + (1u8 << ((7 - b) as u8))
    }
}

} // verus!
