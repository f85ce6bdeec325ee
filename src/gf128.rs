//! Elements of GF(2^128) as used by GHASH.
//!
//! An element is a polynomial of degree below 128 over GF(2). It is stored
//! as four 32-bit words, `d` the most significant; the coefficient of x^0 is
//! the most significant bit of `d` and that of x^127 the least significant
//! bit of `a`. Read as one 128-bit integer (the view), the coefficient of x^i
//! is bit `127 - i`.
use vstd::prelude::*;

use crate::cryptoutil::{read_u32_be, write_u32_be};

verus! {

/// The 128-bit integer made of four words, `d` the most significant.
pub open spec fn words_value(a: u32, b: u32, c: u32, d: u32) -> u128 {
    (d as u128) << 96u128 | (c as u128) << 64u128 | (b as u128) << 32u128 | (a as u128)
}

/// Whether the coefficient of x^i is set in the element whose view is `v`.
pub open spec fn coeff(v: u128, i: u128) -> bool {
    (v >> (127 - i) as u128) & 1u128 == 1u128
}

/// x^128 reduced modulo x^128 + x^7 + x^2 + x + 1, that is x^7 + x^2 + x + 1,
/// in the element layout.
pub open spec fn reduction_constant() -> u128 {
    0xe100_0000_0000_0000_0000_0000_0000_0000u128
}

/// Multiplication by x modulo x^128 + x^7 + x^2 + x + 1, on the view.
pub open spec fn mul_x(v: u128) -> u128 {
    if v & 1u128 == 1u128 {
        reduction_constant() ^ (v >> 1u128)
    } else {
        v >> 1u128
    }
}

/// h * x^i in the field.
pub open spec fn h_pow(h: u128, i: nat) -> u128
    decreases i,
{
    if i == 0 {
        h
    } else {
        mul_x(h_pow(h, (i - 1) as nat))
    }
}

/// The sum of h * x^j over the j in i..128 whose coefficient is set in x.
pub open spec fn mul_from(x: u128, h: u128, i: nat) -> u128
    decreases 128 - i,
{
    if i >= 128 {
        0
    } else {
        (if coeff(x, i as u128) {
            h_pow(h, i)
        } else {
            0
        }) ^ mul_from(x, h, i + 1)
    }
}

/// The product of two field elements: the sum of h * x^i over the
/// coefficients x^i set in x.
pub open spec fn gf_mul(x: u128, h: u128) -> u128 {
    mul_from(x, h, 0)
}

/// The big-endian value of a 16-byte block.
pub open spec fn block_value(b: Seq<u8>) -> u128 {
    (b[0] as u128) << 120u128 | (b[1] as u128) << 112u128 | (b[2] as u128) << 104u128
        | (b[3] as u128) << 96u128 | (b[4] as u128) << 88u128 | (b[5] as u128) << 80u128
        | (b[6] as u128) << 72u128 | (b[7] as u128) << 64u128 | (b[8] as u128) << 56u128
        | (b[9] as u128) << 48u128 | (b[10] as u128) << 40u128 | (b[11] as u128) << 32u128
        | (b[12] as u128) << 24u128 | (b[13] as u128) << 16u128 | (b[14] as u128) << 8u128
        | (b[15] as u128)
}

/// The 16 big-endian bytes of a value.
pub open spec fn block_bytes(v: u128) -> Seq<u8> {
    seq![
        (v >> 120u128) as u8, (v >> 112u128) as u8, (v >> 104u128) as u8, (v >> 96u128) as u8,
        (v >> 88u128) as u8, (v >> 80u128) as u8, (v >> 72u128) as u8, (v >> 64u128) as u8,
        (v >> 56u128) as u8, (v >> 48u128) as u8, (v >> 40u128) as u8, (v >> 32u128) as u8,
        (v >> 24u128) as u8, (v >> 16u128) as u8, (v >> 8u128) as u8, v as u8,
    ]
}

/// Whether `hs` holds h * x^0 through h * x^127, h being its first entry.
pub open spec fn is_power_table(hs: Seq<Gf128>) -> bool {
    &&& hs.len() == 128
    &&& forall|i: int| 0 <= i < 128 ==> #[trigger] hs[i]@ == h_pow(hs[0]@, i as nat)
}

/// The coefficients of an element, that of x^i at index i.
pub open spec fn poly(v: u128) -> Seq<bool> {
    Seq::new(128, |i: int| coeff(v, i as u128))
}

/// The product of a polynomial by x.
pub open spec fn poly_times_x(p: Seq<bool>) -> Seq<bool> {
    seq![false] + p
}

/// The coefficients of x^128 + x^7 + x^2 + x + 1.
pub open spec fn field_modulus() -> Seq<bool> {
    Seq::new(129, |i: int| i == 0 || i == 1 || i == 2 || i == 7 || i == 128)
}

/// The remainder of a polynomial of degree at most 128 modulo
/// x^128 + x^7 + x^2 + x + 1.
pub open spec fn poly_reduce(p: Seq<bool>) -> Seq<bool> {
    if p[128] {
        Seq::new(128, |i: int| p[i] != field_modulus()[i])
    } else {
        p.take(128)
    }
}

/// An element of GF(2^128).
#[derive(Clone, Copy)]
pub struct Gf128 {
    a: u32,
    b: u32,
    c: u32,
    d: u32,
}

impl View for Gf128 {
    type V = u128;

    closed spec fn view(&self) -> u128 {
        words_value(self.a, self.b, self.c, self.d)
    }
}

proof fn lemma_xor_words(a1: u32, b1: u32, c1: u32, d1: u32, a2: u32, b2: u32, c2: u32, d2: u32)
    by (bit_vector)
    ensures
        words_value(a1 ^ a2, b1 ^ b2, c1 ^ c2, d1 ^ d2) == words_value(a1, b1, c1, d1)
            ^ words_value(a2, b2, c2, d2),
{
}

proof fn lemma_shift_words(a: u32, b: u32, c: u32, d: u32)
    by (bit_vector)
    ensures
        words_value(a >> 1u32 | b << 31u32, b >> 1u32 | c << 31u32, c >> 1u32 | d << 31u32, d >> 1u32)
            == words_value(a, b, c, d) >> 1u128,
        words_value(a, b, c, d) & 1u128 == (a & 1u32) as u128,
{
}

proof fn lemma_masked_words(
    m: u32,
    a1: u32,
    b1: u32,
    c1: u32,
    d1: u32,
    a2: u32,
    b2: u32,
    c2: u32,
    d2: u32,
)
    by (bit_vector)
    requires
        m == 0 || m == 0xffff_ffffu32,
    ensures
        words_value((a1 & m) ^ a2, (b1 & m) ^ b2, (c1 & m) ^ c2, (d1 & m) ^ d2) == if m == 0 {
            words_value(a2, b2, c2, d2)
        } else {
            words_value(a1, b1, c1, d1) ^ words_value(a2, b2, c2, d2)
        },
{
}

proof fn lemma_u128_shifts(v: u128, s: u128)
    by (bit_vector)
    requires
        s < 128,
    ensures
        0u128 ^ v == v,
        v >> 0u128 == v,
        (v >> s) >> 1u128 == v >> (s + 1) as u128,
        words_value(0, 0, 0, 0) == 0,
{
}

proof fn lemma_block_words(
    b0: u8,
    b1: u8,
    b2: u8,
    b3: u8,
    b4: u8,
    b5: u8,
    b6: u8,
    b7: u8,
    b8: u8,
    b9: u8,
    b10: u8,
    b11: u8,
    b12: u8,
    b13: u8,
    b14: u8,
    b15: u8,
)
    by (bit_vector)
    ensures
        words_value(
            (b12 as u32) << 24u32 | (b13 as u32) << 16u32 | (b14 as u32) << 8u32 | (b15 as u32),
            (b8 as u32) << 24u32 | (b9 as u32) << 16u32 | (b10 as u32) << 8u32 | (b11 as u32),
            (b4 as u32) << 24u32 | (b5 as u32) << 16u32 | (b6 as u32) << 8u32 | (b7 as u32),
            (b0 as u32) << 24u32 | (b1 as u32) << 16u32 | (b2 as u32) << 8u32 | (b3 as u32),
        ) == (b0 as u128) << 120u128 | (b1 as u128) << 112u128 | (b2 as u128) << 104u128 | (
        b3 as u128) << 96u128 | (b4 as u128) << 88u128 | (b5 as u128) << 80u128 | (b6 as u128)
            << 72u128 | (b7 as u128) << 64u128 | (b8 as u128) << 56u128 | (b9 as u128) << 48u128
            | (b10 as u128) << 40u128 | (b11 as u128) << 32u128 | (b12 as u128) << 24u128 | (
        b13 as u128) << 16u128 | (b14 as u128) << 8u128 | (b15 as u128),
{
}

proof fn lemma_word_bytes(a: u32, b: u32, c: u32, d: u32)
    by (bit_vector)
    ensures
        (words_value(a, b, c, d) >> 120u128) as u8 == (d >> 24u32) as u8,
        (words_value(a, b, c, d) >> 112u128) as u8 == (d >> 16u32) as u8,
        (words_value(a, b, c, d) >> 104u128) as u8 == (d >> 8u32) as u8,
        (words_value(a, b, c, d) >> 96u128) as u8 == d as u8,
        (words_value(a, b, c, d) >> 88u128) as u8 == (c >> 24u32) as u8,
        (words_value(a, b, c, d) >> 80u128) as u8 == (c >> 16u32) as u8,
        (words_value(a, b, c, d) >> 72u128) as u8 == (c >> 8u32) as u8,
        (words_value(a, b, c, d) >> 64u128) as u8 == c as u8,
        (words_value(a, b, c, d) >> 56u128) as u8 == (b >> 24u32) as u8,
        (words_value(a, b, c, d) >> 48u128) as u8 == (b >> 16u32) as u8,
        (words_value(a, b, c, d) >> 40u128) as u8 == (b >> 8u32) as u8,
        (words_value(a, b, c, d) >> 32u128) as u8 == b as u8,
        (words_value(a, b, c, d) >> 24u128) as u8 == (a >> 24u32) as u8,
        (words_value(a, b, c, d) >> 16u128) as u8 == (a >> 16u32) as u8,
        (words_value(a, b, c, d) >> 8u128) as u8 == (a >> 8u32) as u8,
        words_value(a, b, c, d) as u8 == a as u8,
{
}

proof fn lemma_coeff_mul_x(v: u128, i: u128)
    by (bit_vector)
    requires
        i < 128,
    ensures
        coeff(mul_x(v), i) == ((i > 0 && coeff(v, (i - 1) as u128)) != (coeff(v, 127)
            && (i == 0 || i == 1 || i == 2 || i == 7))),
{
}

/// Multiplication by x, as `mul_x` computes it on the view, is the product of
/// the polynomial by x reduced modulo x^128 + x^7 + x^2 + x + 1.
pub proof fn lemma_mul_x_is_reduced_product(v: u128)
    ensures
        poly(mul_x(v)) == poly_reduce(poly_times_x(poly(v))),
{
    let p = poly_times_x(poly(v));
    assert forall|i: int| 0 <= i < 128 implies #[trigger] poly(mul_x(v))[i] == poly_reduce(p)[i] by {
        lemma_coeff_mul_x(v, i as u128);
        if i > 0 {
            assert(p[i] == poly(v)[i - 1]);
        }
    }
    assert(poly(mul_x(v)) =~= poly_reduce(p));
}

impl Gf128 {
    /// The element made of four words, `d` the most significant.
    pub fn new(a: u32, b: u32, c: u32, d: u32) -> (r: Gf128)
        ensures
            r@ == words_value(a, b, c, d),
    {
        Gf128 { a, b, c, d }
    }

    /// The element whose big-endian encoding is `bytes`.
    pub fn from_bytes(bytes: &[u8]) -> (r: Gf128)
        requires
            bytes@.len() == 16,
        ensures
            r@ == block_value(bytes@),
    {
        let d = read_u32_be(&bytes[0..4]);
        let c = read_u32_be(&bytes[4..8]);
        let b = read_u32_be(&bytes[8..12]);
        let a = read_u32_be(&bytes[12..16]);
        proof {
            let s = bytes@;
            lemma_block_words(
                s[0], s[1], s[2], s[3], s[4], s[5], s[6], s[7], s[8], s[9], s[10], s[11], s[12],
                s[13], s[14], s[15],
            );
        }
        Gf128::new(a, b, c, d)
    }

    /// The big-endian encoding of the element.
    pub fn to_bytes(&self) -> (r: [u8; 16])
        ensures
            r@ == block_bytes(self@),
    {
        let mut result = [0u8; 16];
        write_u32_be(&mut result, 0, self.d);
        write_u32_be(&mut result, 4, self.c);
        write_u32_be(&mut result, 8, self.b);
        write_u32_be(&mut result, 12, self.a);
        proof {
            lemma_word_bytes(self.a, self.b, self.c, self.d);
            assert(result@ =~= block_bytes(self@));
        }
        result
    }

    /// The zero element.
    pub fn zero() -> (r: Gf128)
        ensures
            r@ == 0,
    {
        proof {
            lemma_u128_shifts(0, 0);
        }
        Gf128::new(0, 0, 0, 0)
    }

    /// Field addition.
    pub fn xor(self, rhs: Gf128) -> (r: Gf128)
        ensures
            r@ == self@ ^ rhs@,
    {
        proof {
            lemma_xor_words(self.a, self.b, self.c, self.d, rhs.a, rhs.b, rhs.c, rhs.d);
        }
        Gf128 { a: self.a ^ rhs.a, b: self.b ^ rhs.b, c: self.c ^ rhs.c, d: self.d ^ rhs.d }
    }

    /// Multiplication by x modulo x^128: a right shift by one bit.
    pub fn times_x(self) -> (r: Gf128)
        ensures
            r@ == self@ >> 1u128,
    {
        proof {
            lemma_shift_words(self.a, self.b, self.c, self.d);
        }
        Gf128::new(
            self.a >> 1 | self.b << 31,
            self.b >> 1 | self.c << 31,
            self.c >> 1 | self.d << 31,
            self.d >> 1,
        )
    }

    /// `x ^ y` where the coefficient of x^127 of `self` is set, `y` otherwise,
    /// chosen through a mask rather than a branch.
    pub fn cond_xor(self, x: Gf128, y: Gf128) -> (r: Gf128)
        ensures
            r@ == if self@ & 1u128 == 1u128 {
                x@ ^ y@
            } else {
                y@
            },
    {
        let sa = self.a;
        let lsb = sa & 1;
        let m = 0u32.wrapping_sub(lsb);
        proof {
            lemma_shift_words(self.a, self.b, self.c, self.d);
            assert(lsb == 0 || lsb == 1) by (bit_vector)
                requires
                    lsb == sa & 1u32,
            ;
            assert(m == 0 || m == 0xffff_ffffu32);
            lemma_masked_words(m, x.a, x.b, x.c, x.d, y.a, y.b, y.c, y.d);
        }
        Gf128 { a: (x.a & m) ^ y.a, b: (x.b & m) ^ y.b, c: (x.c & m) ^ y.c, d: (x.d & m) ^ y.d }
    }

    /// Multiplication by x modulo x^128 + x^7 + x^2 + x + 1.
    pub fn times_x_reduce(self) -> (r: Gf128)
        ensures
            r@ == mul_x(self@),
            poly(r@) == poly_reduce(poly_times_x(poly(self@))),
    {
        proof {
            lemma_mul_x_is_reduced_product(self@);
        }
        let r = Gf128::new(0, 0, 0, 0b1110_0001 << 24);
        assert(words_value(0, 0, 0, 0b1110_0001u32 << 24u32) == reduction_constant())
            by (bit_vector);
        self.cond_xor(r, self.times_x())
    }

    /// Adds `y`, then multiplies by h, where `hs` holds h * x^0 through
    /// h * x^127. The table is scanned whole, from its last entry down, and
    /// each entry is added under a mask.
    pub fn add_and_mul(&mut self, y: Gf128, hs: &[Gf128; 128])
        requires
            is_power_table(hs@),
        ensures
            final(self)@ == gf_mul(old(self)@ ^ y@, hs@[0]@),
    {
        let x0 = self.xor(y);
        let mut x = x0;
        let mut acc = Gf128::new(0, 0, 0, 0);
        proof {
            lemma_u128_shifts(x0@, 0);
        }
        let mut k: usize = 128;
        while k > 0
            invariant
                k <= 128,
                is_power_table(hs@),
                acc@ == mul_from(x0@, hs@[0]@, k as nat),
                x@ == x0@ >> (128 - k) as u128,
            decreases k,
        {
            k -= 1;
            acc = x.cond_xor(hs[k], acc);
            proof {
                lemma_u128_shifts(x0@, (127 - k) as u128);
                lemma_u128_shifts(mul_from(x0@, hs@[0]@, (k + 1) as nat), 0);
            }
            x = x.times_x();
        }
        *self = acc;
    }
}

} // verus!
