//! The image container and its on-disk format.
//!
//! A serialized image is, in order: an 8-byte magic value, the width and the
//! height as 32-bit big-endian integers, the three channel widths as three
//! 4-bit fields, and the packed pixel bitstream — everything bit-contiguous,
//! zero-padded at the end up to a whole byte. The container stores its
//! pixels in row-major order, already quantized to its scheme, and packs
//! them verbatim on serialization: quantization happens once, at
//! construction.

use vstd::prelude::*;

use crate::bits::{
    bits_of_bytes, bits_to_bytes, bits_val, bytes_of_bits, bytes_to_bits, field_bits,
    lemma_bits_of_bytes_len, lemma_bits_of_bytes_of_bits, lemma_bits_val_bound,
    lemma_field_bits_val, push_bits, read_bits,
};
use crate::color::Rgb;
use crate::error::{GreenfieldError, GreenfieldResult};
use crate::pixel::Pixel;
use crate::quantization::{
    lemma_chunk_color_of, lemma_packed_bits_chunk, lemma_packed_bits_len, UniformQuantization,
};
use vstd::arithmetic::div_mod::{
    lemma_breakdown, lemma_div_is_ordered, lemma_div_by_multiple, lemma_fundamental_div_mod,
    lemma_mod_division_less_than_divisor, lemma_multiply_divide_lt, lemma_small_mod,
};
use vstd::arithmetic::mul::lemma_mul_inequality;
use vstd::arithmetic::power2::{lemma2_to64, pow2};

verus! {

/// The eight magic bytes that begin every serialized image.
pub open spec fn spec_magic() -> Seq<u8> {
    seq![103u8, 114u8, 110u8, 102u8, 108u8, 100u8, 52u8, 50u8]
}

/// A value below `2^32` as four big-endian bytes.
pub open spec fn be32_bytes(v: nat) -> Seq<u8> {
    seq![
        ((v / 0x1000000) % 0x100) as u8,
        ((v / 0x10000) % 0x100) as u8,
        ((v / 0x100) % 0x100) as u8,
        (v % 0x100) as u8,
    ]
}

/// The value of four big-endian bytes.
pub open spec fn be32_val(s: Seq<u8>) -> nat {
    ((s[0] as nat) * 0x1000000 + (s[1] as nat) * 0x10000 + (s[2] as nat) * 0x100 + (s[3] as nat))
}

/// Reading back the four bytes written for `v` gives `v`.
proof fn lemma_be32_round_trip(v: nat)
    requires
        v < 0x100000000,
    ensures
        be32_val(be32_bytes(v)) == v,
{
    lemma_fundamental_div_mod(v as int, 0x1000000);
    lemma_breakdown(v as int, 0x10000, 0x100);
    lemma_breakdown(v as int, 0x100, 0x100);
    lemma_multiply_divide_lt(v as int, 0x1000000, 0x100);
    lemma_small_mod((v / 0x1000000) as nat, 0x100);
    lemma_mod_division_less_than_divisor(v as int, 0x1000000);
    lemma_mod_division_less_than_divisor((v / 0x10000) as int, 0x100);
    lemma_mod_division_less_than_divisor((v / 0x100) as int, 0x100);
    lemma_mod_division_less_than_divisor(v as int, 0x100);
}

/// The magic bytes as a vector.
fn magic_bytes() -> (r: Vec<u8>)
    ensures
        r@ == spec_magic(),
{
    let mut r: Vec<u8> = Vec::new();
    r.push(103);
    r.push(114);
    r.push(110);
    r.push(102);
    r.push(108);
    r.push(100);
    r.push(52);
    r.push(50);
    proof {
        assert(r@ =~= spec_magic());
    }
    r
}

/// Appends `v` as four big-endian bytes.
fn push_be32(out: &mut Vec<u8>, v: usize)
    requires
        v <= u32::MAX,
    ensures
        final(out)@ == old(out)@ + be32_bytes(v as nat),
{
    out.push(((v / 0x1000000) % 0x100) as u8);
    out.push(((v / 0x10000) % 0x100) as u8);
    out.push(((v / 0x100) % 0x100) as u8);
    out.push((v % 0x100) as u8);
    proof {
        assert(out@ =~= old(out)@ + be32_bytes(v as nat));
    }
}

/// The flat byte form of a color sequence: three bytes per color, r, g, b.
pub open spec fn rgb_flat(colors: Seq<Rgb>) -> Seq<u8>
    decreases colors.len(),
{
    if colors.len() == 0 {
        Seq::<u8>::empty()
    } else {
        rgb_flat(colors.drop_last()) + seq![
            colors.last().r,
            colors.last().g,
            colors.last().b,
        ]
    }
}

/// A flat byte form takes exactly three bytes per color.
pub proof fn lemma_rgb_flat_len(colors: Seq<Rgb>)
    ensures
        rgb_flat(colors).len() == 3 * colors.len(),
    decreases colors.len(),
{
    if colors.len() > 0 {
        lemma_rgb_flat_len(colors.drop_last());
    }
}

/// An image: its dimensions, its quantization scheme, and its pixels in
/// row-major order. The stored pixels are quantized indices, each channel
/// already reduced to the width the scheme gives it.
#[derive(Clone, Debug)]
pub struct Image {
    pub width: usize,
    pub height: usize,
    pub uniform_quantization: UniformQuantization,
    pub data: Vec<Rgb>,
}

impl Image {
    /// A well-formed image: a valid scheme, dimensions that fit the on-disk
    /// 32-bit fields, exactly `width * height` stored pixels, and every
    /// stored channel within its quantized range.
    pub open spec fn wf(self) -> bool {
        &&& self.uniform_quantization.valid()
        &&& self.width <= u32::MAX
        &&& self.height <= u32::MAX
        &&& self.data@.len() == self.width * self.height
        &&& forall|i: int|
            0 <= i < self.data@.len() ==> self.uniform_quantization.in_range(
                #[trigger] self.data@[i],
            )
    }

    /// Builds an image from full-precision colors: checks that exactly
    /// `width * height` colors were given, then quantizes every color once
    /// and stores the quantized form.
    ///
    /// The dimension bounds in the `requires` are what the on-disk format
    /// can hold: width and height are serialized as 32-bit fields.
    pub fn new(
        width: usize,
        height: usize,
        uniform_quantization: UniformQuantization,
        data: Vec<Rgb>,
    ) -> (r: GreenfieldResult<Image>)
        requires
            uniform_quantization.valid(),
            width <= u32::MAX,
            height <= u32::MAX,
        ensures
            match r {
                Ok(img) => {
                    &&& data@.len() == width * height
                    &&& img.width == width
                    &&& img.height == height
                    &&& img.uniform_quantization == uniform_quantization
                    &&& img.data@ == data@.map_values(
                        |c: Rgb| uniform_quantization.spec_quantize(c),
                    )
                    &&& img.wf()
                },
                Err(e) => {
                    &&& data@.len() != width * height
                    &&& e == GreenfieldError::InvalidImageDimension(
                        data@.len() as u64,
                        (width * height) as u64,
                    )
                },
            },
    {
        proof {
            assert((width as int) * (height as int) <= 0xFFFFFFFF * 0xFFFFFFFF)
                by (nonlinear_arith)
                requires
                    width <= 0xFFFFFFFF,
                    height <= 0xFFFFFFFF,
            ;
        }
        let count = (width as u64) * (height as u64);
        let size = data.len();
        if (size as u64) != count {
            return Err(GreenfieldError::InvalidImageDimension(size as u64, count));
        }
        let ghost f = |c: Rgb| uniform_quantization.spec_quantize(c);
        let mut quantized: Vec<Rgb> = Vec::new();
        let mut i: usize = 0;
        while i < size
            invariant
                uniform_quantization.valid(),
                i <= size == data@.len(),
                f == (|c: Rgb| uniform_quantization.spec_quantize(c)),
                quantized@ == data@.take(i as int).map_values(f),
                forall|k: int|
                    0 <= k < i ==> uniform_quantization.in_range(#[trigger] quantized@[k]),
            decreases size - i,
        {
            let qc = uniform_quantization.get_quantized_color(&data[i]);
            quantized.push(qc);
            proof {
                assert(data@.take(i + 1).map_values(f) =~= data@.take(i as int).map_values(f).push(
                    qc,
                ));
            }
            i = i + 1;
        }
        proof {
            assert(data@.take(size as int) =~= data@);
        }
        Ok(Image { width, height, uniform_quantization, data: quantized })
    }

    /// The width and height of the image.
    pub fn dimensions(&self) -> (r: (usize, usize))
        ensures
            r.0 == self.width,
            r.1 == self.height,
    {
        (self.width, self.height)
    }

    /// The quantization scheme of the image.
    pub fn quantization(&self) -> (r: &UniformQuantization)
        ensures
            *r == self.uniform_quantization,
    {
        &self.uniform_quantization
    }

    /// The stored colors, in row-major order.
    pub fn colors(&self) -> (r: &Vec<Rgb>)
        ensures
            r@ == self.data@,
    {
        &self.data
    }

    /// The stored colors with their grid positions: index `i` stands at
    /// `x = i % width`, `y = i / width`.
    pub fn pixels(&self) -> (r: Vec<Pixel>)
        requires
            self.wf(),
        ensures
            r@.len() == self.data@.len(),
            forall|i: int|
                0 <= i < r@.len() ==> {
                    &&& (#[trigger] r@[i]).x == i % (self.width as int)
                    &&& r@[i].y == i / (self.width as int)
                    &&& r@[i].color == self.data@[i]
                },
    {
        let n = self.data.len();
        let mut r: Vec<Pixel> = Vec::new();
        let mut i: usize = 0;
        while i < n
            invariant
                self.wf(),
                i <= n == self.data@.len(),
                r@.len() == i,
                forall|k: int|
                    0 <= k < i ==> {
                        &&& (#[trigger] r@[k]).x == k % (self.width as int)
                        &&& r@[k].y == k / (self.width as int)
                        &&& r@[k].color == self.data@[k]
                    },
            decreases n - i,
        {
            proof {
                if self.width == 0 {
                    assert(self.width * self.height == 0) by (nonlinear_arith)
                        requires
                            self.width == 0,
                    ;
                }
            }
            let p = Pixel::new(i % self.width, i / self.width, self.data[i]);
            r.push(p);
            i = i + 1;
        }
        r
    }

    /// The stored colors flattened to bytes: three bytes per color, r, g, b,
    /// whatever the scheme's widths — this is the unpacked in-memory form,
    /// not the packed on-disk bitstream.
    pub fn bytes(&self) -> (r: Vec<u8>)
        ensures
            r@ == rgb_flat(self.data@),
            r@.len() == 3 * self.data@.len(),
    {
        let n = self.data.len();
        let mut r: Vec<u8> = Vec::new();
        let mut i: usize = 0;
        while i < n
            invariant
                i <= n == self.data@.len(),
                r@ == rgb_flat(self.data@.take(i as int)),
            decreases n - i,
        {
            let c = self.data[i];
            r.push(c.r);
            r.push(c.g);
            r.push(c.b);
            proof {
                assert(self.data@.take(i + 1).drop_last() =~= self.data@.take(i as int));
                assert(r@ =~= rgb_flat(self.data@.take(i + 1)));
            }
            i = i + 1;
        }
        proof {
            assert(self.data@.take(n as int) =~= self.data@);
            lemma_rgb_flat_len(self.data@);
        }
        r
    }

    /// Decides well-formedness at run time; agrees exactly with [`Self::wf`].
    pub fn well_formed(&self) -> (r: bool)
        ensures
            r == self.wf(),
    {
        let q = self.uniform_quantization;
        if !(1 <= q.bits_r && q.bits_r <= 8 && 1 <= q.bits_g && q.bits_g <= 8 && 1 <= q.bits_b
            && q.bits_b <= 8) {
            return false;
        }
        if self.width > u32::MAX as usize || self.height > u32::MAX as usize {
            return false;
        }
        let n = self.data.len();
        let count = match self.width.checked_mul(self.height) {
            Some(c) => c,
            None => {
                return false;
            },
        };
        if n != count {
            return false;
        }
        let mut i: usize = 0;
        while i < n
            invariant
                i <= n == self.data@.len(),
                self.uniform_quantization == q,
                q.valid(),
                forall|k: int| 0 <= k < i ==> q.in_range(#[trigger] self.data@[k]),
            decreases n - i,
        {
            let c = self.data[i];
            if !(channel_fits(c.r, q.bits_r) && channel_fits(c.g, q.bits_g) && channel_fits(
                c.b,
                q.bits_b,
            )) {
                return false;
            }
            i = i + 1;
        }
        true
    }
}

/// Decides whether a channel value fits in `b` bits.
fn channel_fits(v: u8, b: u8) -> (r: bool)
    requires
        1 <= b <= 8,
    ensures
        r == ((v as nat) < pow2(b as nat)),
{
    proof {
        lemma2_to64();
        if b < 7 {
            vstd::arithmetic::power2::lemma_pow2_strictly_increases(b as nat, 7);
        }
        if b < 8 {
            vstd::bits::lemma_u8_shl_is_mul(1, b);
        }
    }
    if b == 8 {
        true
    } else {
        v < (1u8 << b)
    }
}

/// A bit sequence extended with zero bits up to a whole byte.
pub open spec fn pad_to_byte(s: Seq<bool>) -> Seq<bool> {
    s + Seq::new((((8 - s.len() % 8) % 8) as nat), |i: int| false)
}

proof fn lemma_pad_to_byte_len(s: Seq<bool>)
    ensures
        pad_to_byte(s).len() % 8 == 0,
        s.len() <= pad_to_byte(s).len() < s.len() + 8,
        pad_to_byte(s).take(s.len() as int) == s,
{
    let n = s.len() as int;
    lemma_fundamental_div_mod(n, 8);
    lemma_mod_division_less_than_divisor(n, 8);
    if n % 8 != 0 {
        let m = n + 8 - n % 8;
        assert(m == 8 * (n / 8 + 1));
        vstd::arithmetic::div_mod::lemma_mod_multiples_basic(n / 8 + 1, 8);
    }
    assert(pad_to_byte(s).take(s.len() as int) =~= s);
}

/// The bits that follow the fixed 16-byte prefix of a serialized buffer.
pub open spec fn tail_bits_of(bs: Seq<u8>) -> Seq<bool> {
    bits_of_bytes(bs.skip(16))
}

/// The quantization scheme a serialized buffer declares, read from the
/// three 4-bit fields after the dimensions.
pub open spec fn parsed_scheme(bs: Seq<u8>) -> UniformQuantization {
    UniformQuantization {
        bits_r: bits_val(tail_bits_of(bs).subrange(0, 4)) as u8,
        bits_g: bits_val(tail_bits_of(bs).subrange(4, 8)) as u8,
        bits_b: bits_val(tail_bits_of(bs).subrange(8, 12)) as u8,
    }
}

/// The width a serialized buffer declares.
pub open spec fn parsed_width(bs: Seq<u8>) -> nat {
    be32_val(bs.subrange(8, 12))
}

/// The height a serialized buffer declares.
pub open spec fn parsed_height(bs: Seq<u8>) -> nat {
    be32_val(bs.subrange(12, 16))
}

/// How many whole pixel chunks a serialized buffer holds after the scheme
/// fields.
pub open spec fn avail_chunks(bs: Seq<u8>) -> nat {
    ((tail_bits_of(bs).len() - 12) as nat) / parsed_scheme(bs).spec_chunk_size()
}

/// Deserialization succeeds on exactly these buffers: long enough for the
/// fixed header, the magic value in place, a valid scheme, and at least
/// `width * height` whole pixel chunks.
pub open spec fn deserialize_ok(bs: Seq<u8>) -> bool {
    &&& bs.len() >= 18
    &&& bs.subrange(0, 8) == spec_magic()
    &&& parsed_scheme(bs).valid()
    &&& parsed_width(bs) * parsed_height(bs) <= avail_chunks(bs)
}

/// The pixels an accepted buffer holds: exactly `width * height` chunks,
/// read in order; any bits beyond them are ignored.
pub open spec fn parsed_data(bs: Seq<u8>) -> Seq<Rgb> {
    parsed_scheme(bs).unpacked_colors(
        tail_bits_of(bs).skip(12),
        parsed_width(bs) * parsed_height(bs),
    )
}

/// The error deserialization reports for a rejected buffer.
pub open spec fn deserialize_err(bs: Seq<u8>) -> GreenfieldError {
    if bs.len() < 18 || bs.subrange(0, 8) != spec_magic() {
        GreenfieldError::MalformedHeader
    } else if !parsed_scheme(bs).valid() {
        GreenfieldError::InvalidQuantizationLevel(
            parsed_scheme(bs).bits_r,
            parsed_scheme(bs).bits_g,
            parsed_scheme(bs).bits_b,
        )
    } else {
        GreenfieldError::InvalidImageDimension(
            avail_chunks(bs) as u64,
            (parsed_width(bs) * parsed_height(bs)) as u64,
        )
    }
}

/// The four big-endian bytes starting at `at`, as a value.
fn read_be32(bytes: &Vec<u8>, at: usize) -> (r: usize)
    requires
        at + 4 <= bytes@.len(),
    ensures
        r == be32_val(bytes@.subrange(at as int, at + 4)),
        r <= u32::MAX,
{
    let n = bytes.len();
    proof {
        assert(at + 4 <= n);
    }
    let v: u32 = (bytes[at] as u32) * 0x1000000 + (bytes[at + 1] as u32) * 0x10000 + (bytes[at
        + 2] as u32) * 0x100 + (bytes[at + 3] as u32);
    v as usize
}

impl Image {
    /// The scheme fields and the packed pixels, before byte packing: three
    /// 4-bit channel widths, then `spec_chunk_size()` bits per stored pixel.
    pub open spec fn spec_tail_bits(self) -> Seq<bool> {
        field_bits(self.uniform_quantization.bits_r as nat, 4) + field_bits(
            self.uniform_quantization.bits_g as nat,
            4,
        ) + field_bits(self.uniform_quantization.bits_b as nat, 4)
            + self.uniform_quantization.packed_bits(self.data@)
    }

    /// The full serialized form: magic, width, height, then the padded tail
    /// bits packed into bytes.
    pub open spec fn spec_serialized(self) -> Seq<u8> {
        spec_magic() + be32_bytes(self.width as nat) + be32_bytes(self.height as nat)
            + bytes_of_bits(pad_to_byte(self.spec_tail_bits()))
    }

    /// Serializes the image. The stored pixels are already quantized, so
    /// they are packed exactly as stored, without quantizing again.
    pub fn serialize(self) -> (r: GreenfieldResult<Vec<u8>>)
        requires
            self.wf(),
        ensures
            r matches Ok(bytes) && bytes@ == self.spec_serialized(),
    {
        let mut tail: Vec<bool> = Vec::new();
        push_bits(&mut tail, self.uniform_quantization.bits_r as u64, 4);
        push_bits(&mut tail, self.uniform_quantization.bits_g as u64, 4);
        push_bits(&mut tail, self.uniform_quantization.bits_b as u64, 4);
        self.uniform_quantization.pack_into(&self.data, &mut tail);
        proof {
            assert(tail@ =~= self.spec_tail_bits());
        }
        let ghost base = tail@;
        let pad = (8 - tail.len() % 8) % 8;
        let mut j: usize = 0;
        while j < pad
            invariant
                j <= pad,
                pad == (8 - base.len() % 8) % 8,
                tail@ == base + Seq::new(j as nat, |k: int| false),
            decreases pad - j,
        {
            tail.push(false);
            proof {
                assert(base + Seq::new((j + 1) as nat, |k: int| false) =~= (base + Seq::new(
                    j as nat,
                    |k: int| false,
                )).push(false));
            }
            j = j + 1;
        }
        proof {
            assert(tail@ =~= pad_to_byte(base));
            lemma_pad_to_byte_len(base);
        }
        let mut out = magic_bytes();
        push_be32(&mut out, self.width);
        push_be32(&mut out, self.height);
        let mut tail_bytes = bits_to_bytes(&tail);
        out.append(&mut tail_bytes);
        proof {
            assert(out@ =~= self.spec_serialized());
        }
        Ok(out)
    }

    /// Parses a serialized buffer. Fails with `MalformedHeader` when the
    /// buffer is shorter than the fixed header or its first eight bytes are
    /// not the magic value; with `InvalidQuantizationLevel` when a declared
    /// channel width lies outside `[1, 8]`; and with
    /// `InvalidImageDimension` when fewer than `width * height` whole pixel
    /// chunks follow the header. Trailing bytes beyond the declared pixels
    /// are ignored.
    pub fn deserialize(bytes: &Vec<u8>) -> (r: GreenfieldResult<Image>)
        ensures
            match r {
                Ok(img) => {
                    &&& deserialize_ok(bytes@)
                    &&& img.wf()
                    &&& img.width == parsed_width(bytes@)
                    &&& img.height == parsed_height(bytes@)
                    &&& img.uniform_quantization == parsed_scheme(bytes@)
                    &&& img.data@ == parsed_data(bytes@)
                },
                Err(e) => !deserialize_ok(bytes@) && e == deserialize_err(bytes@),
            },
    {
        let len = bytes.len();
        if len < 18 {
            return Err(GreenfieldError::MalformedHeader);
        }
        let magic = magic_bytes();
        let mut k: usize = 0;
        while k < 8
            invariant
                k <= 8,
                len == bytes@.len() >= 18,
                magic@ == spec_magic(),
                forall|t: int| 0 <= t < k ==> bytes@[t] == spec_magic()[t],
            decreases 8 - k,
        {
            if bytes[k] != magic[k] {
                proof {
                    assert(bytes@.subrange(0, 8)[k as int] == bytes@[k as int]);
                }
                return Err(GreenfieldError::MalformedHeader);
            }
            k = k + 1;
        }
        proof {
            assert(bytes@.subrange(0, 8) =~= spec_magic());
        }
        let w = read_be32(bytes, 8);
        let h = read_be32(bytes, 12);
        let bits = bytes_to_bits(bytes, 16);
        proof {
            lemma_bits_of_bytes_len(bytes@.skip(16));
            lemma_bits_val_bound(bits@.subrange(0, 4));
            lemma_bits_val_bound(bits@.subrange(4, 8));
            lemma_bits_val_bound(bits@.subrange(8, 12));
            lemma2_to64();
        }
        let br = read_bits(&bits, 0, 4) as u8;
        let bg = read_bits(&bits, 4, 4) as u8;
        let bb = read_bits(&bits, 8, 4) as u8;
        if !(1 <= br && br <= 8 && 1 <= bg && bg <= 8 && 1 <= bb && bb <= 8) {
            return Err(GreenfieldError::InvalidQuantizationLevel(br, bg, bb));
        }
        let q = UniformQuantization { bits_r: br, bits_g: bg, bits_b: bb };
        let cs = q.chunk_size();
        let bl = bits.len();
        let avail = (bl - 12) / cs;
        proof {
            assert((w as int) * (h as int) <= 0xFFFFFFFF * 0xFFFFFFFF) by (nonlinear_arith)
                requires
                    w <= 0xFFFFFFFF,
                    h <= 0xFFFFFFFF,
            ;
        }
        let count64 = (w as u64) * (h as u64);
        if (avail as u64) < count64 {
            return Err(GreenfieldError::InvalidImageDimension(avail as u64, count64));
        }
        let count = count64 as usize;
        proof {
            lemma_fundamental_div_mod((bl - 12) as int, cs as int);
            lemma_mod_division_less_than_divisor((bl - 12) as int, cs as int);
            lemma_mul_inequality(count as int, avail as int, cs as int);
            assert(count * cs == cs * count) by (nonlinear_arith);
            assert(avail * cs == cs * avail) by (nonlinear_arith);
            assert(12 + count * cs <= bl);
        }
        let data = q.unpack_from(&bits, 12, count);
        let img = Image { width: w, height: h, uniform_quantization: q, data };
        proof {
            assert(img.width * img.height == count64);
            assert(img.data@.len() == img.width * img.height);
        }
        Ok(img)
    }
}

/// Serializing a well-formed image and deserializing the bytes restores its
/// width, height, scheme and stored pixels exactly.
pub proof fn lemma_serialize_then_deserialize(img: Image)
    requires
        img.wf(),
    ensures
        deserialize_ok(img.spec_serialized()),
        parsed_width(img.spec_serialized()) == img.width,
        parsed_height(img.spec_serialized()) == img.height,
        parsed_scheme(img.spec_serialized()) == img.uniform_quantization,
        parsed_data(img.spec_serialized()) == img.data@,
{
    let q = img.uniform_quantization;
    let cs = q.spec_chunk_size();
    let n = img.data@.len() as int;
    let packed = q.packed_bits(img.data@);
    lemma_packed_bits_len(q, img.data@);
    let tail = img.spec_tail_bits();
    let padded = pad_to_byte(tail);
    lemma_pad_to_byte_len(tail);
    let bs = img.spec_serialized();
    let tb = bytes_of_bits(padded);
    lemma2_to64();

    // The buffer is long enough: the padded tail holds at least 16 bits.
    assert(tail.len() == 12 + n * cs);
    assert(padded.len() >= 16);
    lemma_div_is_ordered(16, padded.len() as int, 8);
    assert(bs.len() == 16 + tb.len());
    assert(bs.len() >= 18);

    // The fixed prefix parses back to magic, width and height.
    assert(bs.subrange(0, 8) =~= spec_magic());
    assert(bs.subrange(8, 12) =~= be32_bytes(img.width as nat));
    assert(bs.subrange(12, 16) =~= be32_bytes(img.height as nat));
    lemma_be32_round_trip(img.width as nat);
    lemma_be32_round_trip(img.height as nat);

    // The remaining bytes unpack to exactly the padded tail bits.
    assert(bs.skip(16) =~= tb);
    lemma_bits_of_bytes_of_bits(padded);
    assert(tail_bits_of(bs) == padded);

    // The three scheme fields parse back to the scheme.
    assert(padded.subrange(0, 4) =~= field_bits(q.bits_r as nat, 4));
    assert(padded.subrange(4, 8) =~= field_bits(q.bits_g as nat, 4));
    assert(padded.subrange(8, 12) =~= field_bits(q.bits_b as nat, 4));
    lemma_field_bits_val(q.bits_r as nat, 4);
    lemma_field_bits_val(q.bits_g as nat, 4);
    lemma_field_bits_val(q.bits_b as nat, 4);
    lemma_small_mod(q.bits_r as nat, pow2(4));
    lemma_small_mod(q.bits_g as nat, pow2(4));
    lemma_small_mod(q.bits_b as nat, pow2(4));
    assert(parsed_scheme(bs) == q);

    // Enough chunks are present: the data region holds n whole chunks.
    assert(padded.len() - 12 >= n * cs);
    lemma_div_is_ordered(n * cs, padded.len() - 12, cs as int);
    lemma_div_by_multiple(n, cs as int);
    assert(avail_chunks(bs) >= n);
    assert(img.width * img.height == n);

    // Each chunk reads back as the stored pixel it was written from.
    let t12 = padded.skip(12);
    assert forall|i: int| 0 <= i < n implies q.unpacked_colors(
        t12,
        (img.width * img.height) as nat,
    )[i] == img.data@[i] by {
        lemma_mul_inequality(i + 1, n, cs as int);
        assert((i + 1) * cs == i * cs + cs) by (nonlinear_arith);
        assert(t12.subrange(i * cs, i * cs + cs) =~= packed.subrange(i * cs, i * cs + cs));
        lemma_packed_bits_chunk(q, img.data@, i);
        lemma_chunk_color_of(q, img.data@[i]);
    }
    assert(parsed_data(bs) =~= img.data@);
}

impl PartialEq for Image {
    /// Images are equal when their dimensions, scheme and stored pixels all
    /// agree.
    fn eq(&self, other: &Image) -> (r: bool) {
        if !(self.width == other.width && self.height == other.height
            && self.uniform_quantization == other.uniform_quantization) {
            return false;
        }
        if self.data.len() != other.data.len() {
            return false;
        }
        let n = self.data.len();
        let mut i: usize = 0;
        while i < n
            invariant
                i <= n == self.data@.len() == other.data@.len(),
                forall|k: int| 0 <= k < i ==> self.data@[k] == other.data@[k],
            decreases n - i,
        {
            if self.data[i] != other.data[i] {
                return false;
            }
            i = i + 1;
        }
        proof {
            assert(self.data@ =~= other.data@);
        }
        true
    }
}

impl vstd::std_specs::cmp::PartialEqSpecImpl for Image {
    open spec fn obeys_eq_spec() -> bool {
        true
    }

    open spec fn eq_spec(&self, other: &Image) -> bool {
        &&& self.width == other.width
        &&& self.height == other.height
        &&& self.uniform_quantization == other.uniform_quantization
        &&& self.data@ == other.data@
    }
}

} // verus!
