//! A bit-sequence model for the packed pixel stream.
//!
//! A bit sequence is a `Vec<bool>` (viewed as a `Seq<bool>`) holding bits in
//! stream order: within every field the most significant bit comes first.
//! This module gives the mathematical meaning of a bit field — which bits an
//! integer contributes, and which integer a run of bits denotes — together
//! with verified cursor operations over `Vec<bool>` and the conversions
//! between byte buffers and bit sequences.

use vstd::prelude::*;

use vstd::arithmetic::div_mod::{
    lemma_breakdown, lemma_div_denominator, lemma_mod_sub_multiples_vanish,
};
use vstd::arithmetic::power2::{lemma2_to64, lemma_pow2_adds, lemma_pow2_pos, lemma_pow2_unfold, pow2};
use vstd::bits::lemma_u64_shr_is_div;

verus! {

/// Bit `k` of the value `v`, counting from the least significant bit.
pub open spec fn bit_of(v: nat, k: nat) -> bool {
    v / pow2(k) % 2 == 1
}

/// The `w` low-order bits of `v` as a sequence, most significant bit first.
pub open spec fn field_bits(v: nat, w: nat) -> Seq<bool> {
    Seq::new(w, |j: int| bit_of(v, (w - 1 - j) as nat))
}

/// The value of a bit sequence read as a big-endian unsigned integer.
pub open spec fn bits_val(s: Seq<bool>) -> nat
    decreases s.len(),
{
    if s.len() == 0 {
        0
    } else {
        2 * bits_val(s.drop_last()) + (if s.last() {
            1nat
        } else {
            0nat
        })
    }
}

/// A bit sequence of length `w` denotes a value below `pow2(w)`.
pub proof fn lemma_bits_val_bound(s: Seq<bool>)
    ensures
        bits_val(s) < pow2(s.len()),
    decreases s.len(),
{
    if s.len() == 0 {
        lemma2_to64();
    } else {
        lemma_bits_val_bound(s.drop_last());
        lemma_pow2_unfold(s.len());
    }
}

/// Halving a value shifts its bits down by one position.
proof fn lemma_bit_of_half(v: nat, k: nat)
    ensures
        bit_of(v / 2, k) == bit_of(v, k + 1),
{
    lemma_pow2_pos(k);
    lemma_div_denominator(v as int, 2, pow2(k) as int);
    lemma_pow2_unfold(k + 1);
}

/// Reading the field written for `v` gives back `v`, reduced modulo the
/// field's capacity.
pub proof fn lemma_field_bits_val(v: nat, w: nat)
    ensures
        bits_val(field_bits(v, w)) == v % pow2(w),
    decreases w,
{
    lemma2_to64();
    if w == 0 {
        assert(v % pow2(0) == 0);
    } else {
        let s = field_bits(v, w);
        let t = field_bits(v / 2, (w - 1) as nat);
        assert forall|j: int| 0 <= j < w - 1 implies s.drop_last()[j] == t[j] by {
            lemma_bit_of_half(v, (w - 1 - j - 1) as nat);
        }
        assert(s.drop_last() =~= t);
        lemma_field_bits_val(v / 2, (w - 1) as nat);
        lemma_pow2_pos((w - 1) as nat);
        lemma_breakdown(v as int, 2, pow2((w - 1) as nat) as int);
        lemma_pow2_unfold(w);
        assert(s.last() == bit_of(v, 0));
        assert(bits_val(s) == 2 * ((v / 2) % pow2((w - 1) as nat)) + (if v % 2 == 1 {
            1nat
        } else {
            0nat
        }));
    }
}

/// Writing back the value read from a bit sequence reproduces the sequence.
pub proof fn lemma_field_bits_of_val(s: Seq<bool>)
    ensures
        field_bits(bits_val(s), s.len()) == s,
    decreases s.len(),
{
    let w = s.len();
    let v = bits_val(s);
    if w == 0 {
        assert(field_bits(v, 0) =~= s);
    } else {
        let b: nat = if s.last() {
            1
        } else {
            0
        };
        assert(v == 2 * bits_val(s.drop_last()) + b);
        assert(v / 2 == bits_val(s.drop_last()));
        assert(v % 2 == b);
        lemma_field_bits_of_val(s.drop_last());
        assert forall|j: int| 0 <= j < w implies field_bits(v, w)[j] == s[j] by {
            if j < w - 1 {
                lemma_bit_of_half(v, (w - 1 - j - 1) as nat);
                assert(field_bits(v / 2, (w - 1) as nat)[j] == s.drop_last()[j]);
            } else {
                lemma2_to64();
                assert(bit_of(v, 0) == (v % 2 == 1));
            }
        }
        assert(field_bits(v, w) =~= s);
    }
}

/// The bits of one byte, most significant first.
pub open spec fn byte_bits(b: u8) -> Seq<bool> {
    field_bits(b as nat, 8)
}

/// All bits of a byte sequence, in stream order.
pub open spec fn bits_of_bytes(bs: Seq<u8>) -> Seq<bool>
    decreases bs.len(),
{
    if bs.len() == 0 {
        Seq::<bool>::empty()
    } else {
        bits_of_bytes(bs.drop_last()) + byte_bits(bs.last())
    }
}

pub proof fn lemma_bits_of_bytes_len(bs: Seq<u8>)
    ensures
        bits_of_bytes(bs).len() == 8 * bs.len(),
    decreases bs.len(),
{
    if bs.len() > 0 {
        lemma_bits_of_bytes_len(bs.drop_last());
    }
}

/// The bytes denoted by a bit sequence whose length is a multiple of eight.
pub open spec fn bytes_of_bits(s: Seq<bool>) -> Seq<u8> {
    Seq::new(s.len() / 8, |i: int| bits_val(s.subrange(8 * i, 8 * i + 8)) as u8)
}

/// Turning a byte-aligned bit sequence into bytes and back is the identity.
pub proof fn lemma_bits_of_bytes_of_bits(s: Seq<bool>)
    requires
        s.len() % 8 == 0,
    ensures
        bits_of_bytes(bytes_of_bits(s)) == s,
    decreases s.len(),
{
    let bs = bytes_of_bits(s);
    if s.len() == 0 {
        assert(bits_of_bytes(bs) =~= s);
    } else {
        let n = s.len() as int;
        let head = s.subrange(0, n - 8);
        lemma_mod_sub_multiples_vanish(n, 8);
        assert(head.len() % 8 == 0);
        assert forall|i: int| 0 <= i < n / 8 - 1 implies bs.drop_last()[i] == bytes_of_bits(
            head,
        )[i] by {
            assert(head.subrange(8 * i, 8 * i + 8) =~= s.subrange(8 * i, 8 * i + 8));
        }
        assert(bs.drop_last() =~= bytes_of_bits(head));
        lemma_bits_of_bytes_of_bits(head);
        let tail = s.subrange(n - 8, n);
        lemma_field_bits_of_val(tail);
        lemma_bits_val_bound(tail);
        lemma2_to64();
        assert(bs.last() as nat == bits_val(tail));
        assert(byte_bits(bs.last()) == tail);
        assert(bits_of_bytes(bs) =~= s);
    }
}

/// Appends the `w` low-order bits of `v` to `out`, most significant first.
pub fn push_bits(out: &mut Vec<bool>, v: u64, w: usize)
    requires
        w <= 64,
    ensures
        final(out)@ == old(out)@ + field_bits(v as nat, w as nat),
{
    let ghost all = field_bits(v as nat, w as nat);
    let mut j: usize = 0;
    while j < w
        invariant
            j <= w <= 64,
            all == field_bits(v as nat, w as nat),
            out@ == old(out)@ + all.take(j as int),
        decreases w - j,
    {
        let k: u64 = (w - 1 - j) as u64;
        let bit = ((v >> k) & 1) == 1;
        proof {
            lemma_u64_shr_is_div(v, k);
            assert((v >> k) & 1 == (v >> k) % 2) by (bit_vector);
            assert(bit == bit_of(v as nat, k as nat));
            assert(all.take(j as int).push(bit) =~= all.take(j + 1));
        }
        out.push(bit);
        j = j + 1;
    }
    proof {
        assert(all.take(w as int) =~= all);
    }
}

/// Reads the `w` bits starting at position `at` as a big-endian integer.
pub fn read_bits(bits: &Vec<bool>, at: usize, w: usize) -> (r: u64)
    requires
        w <= 64,
        at + w <= bits@.len(),
    ensures
        r as nat == bits_val(bits@.subrange(at as int, at + w)),
{
    let n = bits.len();
    let mut acc: u64 = 0;
    let mut j: usize = 0;
    while j < w
        invariant
            j <= w <= 64,
            at + w <= n == bits@.len(),
            acc as nat == bits_val(bits@.subrange(at as int, at + j)),
        decreases w - j,
    {
        proof {
            let prefix = bits@.subrange(at as int, at + j);
            lemma_bits_val_bound(prefix);
            vstd::arithmetic::power2::lemma2_to64_rest();
            if j < 63 {
                lemma_pow2_adds(j as nat, (63 - j) as nat);
                lemma_pow2_pos((63 - j) as nat);
                assert(pow2(j as nat) <= pow2(63)) by (nonlinear_arith)
                    requires
                        pow2(63) == pow2(j as nat) * pow2((63 - j) as nat),
                        pow2((63 - j) as nat) >= 1,
                        pow2(j as nat) >= 0,
                ;
            }
            assert(acc < 0x8000000000000000);
            assert(bits@.subrange(at as int, at + j + 1).drop_last() =~= prefix);
        }
        let b = bits[at + j];
        acc = 2 * acc + (if b {
            1
        } else {
            0
        });
        j = j + 1;
    }
    acc
}

/// The bits of `bytes[start..]`, in stream order.
pub fn bytes_to_bits(bytes: &Vec<u8>, start: usize) -> (r: Vec<bool>)
    requires
        start <= bytes@.len(),
    ensures
        r@ == bits_of_bytes(bytes@.skip(start as int)),
{
    let mut r: Vec<bool> = Vec::new();
    let mut i: usize = start;
    while i < bytes.len()
        invariant
            start <= i <= bytes@.len(),
            r@ == bits_of_bytes(bytes@.subrange(start as int, i as int)),
        decreases bytes@.len() - i,
    {
        proof {
            let cur = bytes@.subrange(start as int, i as int);
            let next = bytes@.subrange(start as int, i + 1);
            assert(next.drop_last() =~= cur);
            assert(next.last() == bytes@[i as int]);
        }
        push_bits(&mut r, bytes[i] as u64, 8);
        i = i + 1;
    }
    proof {
        assert(bytes@.subrange(start as int, bytes@.len() as int) =~= bytes@.skip(start as int));
    }
    r
}

/// Packs a byte-aligned bit sequence into bytes.
pub fn bits_to_bytes(bits: &Vec<bool>) -> (r: Vec<u8>)
    requires
        bits@.len() % 8 == 0,
    ensures
        r@ == bytes_of_bits(bits@),
{
    let len = bits.len();
    let n = len / 8;
    let mut r: Vec<u8> = Vec::new();
    let mut i: usize = 0;
    while i < n
        invariant
            i <= n,
            len == bits@.len(),
            n == bits@.len() / 8,
            8 * n <= len,
            bits@.len() % 8 == 0,
            r@ == bytes_of_bits(bits@).take(i as int),
        decreases n - i,
    {
        proof {
            lemma_bits_val_bound(bits@.subrange(8 * i, 8 * i + 8));
            lemma2_to64();
        }
        let v = read_bits(bits, 8 * i, 8);
        r.push(v as u8);
        proof {
            assert(bytes_of_bits(bits@).take(i as int).push(v as u8) =~= bytes_of_bits(
                bits@,
            ).take(i + 1));
        }
        i = i + 1;
    }
    proof {
        assert(bytes_of_bits(bits@).take(n as int) =~= bytes_of_bits(bits@));
    }
    r
}

} // verus!
