//! GHASH, the universal hash of Galois/Counter Mode.
//!
//! GHASH(H, A, C) folds the blocks of A, zero padded to a whole number of
//! blocks, then those of C, likewise padded, then a block that holds the bit
//! lengths of A and C, each block by `y <- (y ^ block) * H` from `y = 0`.
//! Input may come in pieces of any length: an accumulator keeps the partial
//! block of the last piece until more input completes it.
use vstd::prelude::*;

use crate::cryptoutil::copy_memory;
use crate::gf128::{
    block_bytes, block_value, gf_mul, h_pow, is_power_table, mul_from, words_value, Gf128,
};

verus! {

/// One GHASH step: add a 16-byte block to the running value, multiply by h.
pub open spec fn ghash_step(h: u128, y: u128, block: Seq<u8>) -> u128 {
    gf_mul(y ^ block_value(block), h)
}

/// The running value after the complete 16-byte blocks of `s` are folded,
/// in order, into `y`; a trailing partial block is left out.
pub open spec fn absorb(h: u128, y: u128, s: Seq<u8>) -> u128
    decreases s.len(),
{
    if s.len() < 16 {
        y
    } else {
        absorb(h, ghash_step(h, y, s.take(16)), s.skip(16))
    }
}

/// `s` followed by as many zero bytes as complete its last block.
pub open spec fn zero_pad(s: Seq<u8>) -> Seq<u8> {
    if s.len() % 16 == 0 {
        s
    } else {
        s + Seq::new((16 - s.len() % 16) as nat, |i: int| 0u8)
    }
}

/// The final block: the bit lengths of A and C as two 64-bit big-endian
/// integers, A's first.
pub open spec fn length_block(a_len: nat, c_len: nat) -> u128 {
    ((a_len * 8) as u128) << 64u128 | ((c_len * 8) as u128)
}

/// GHASH with key h over the associated data `a` and the ciphertext `c`.
pub open spec fn ghash(h: u128, a: Seq<u8>, c: Seq<u8>) -> u128 {
    gf_mul(absorb(h, absorb(h, 0, zero_pad(a)), zero_pad(c)) ^ length_block(a.len(), c.len()), h)
}

/// Whether `n` bytes can be counted, and their bit length written in 64 bits.
pub open spec fn fits_channel(n: int) -> bool {
    n <= usize::MAX && n * 8 <= u64::MAX
}

/// The bytes of `s` after its last complete block.
pub open spec fn partial_block(s: Seq<u8>) -> Seq<u8> {
    s.skip(s.len() - s.len() % 16)
}

/// The complete blocks of `s`.
pub open spec fn full_blocks(s: Seq<u8>) -> Seq<u8> {
    s.take(s.len() - s.len() % 16)
}

/// `n` zero bytes.
pub open spec fn zeros(n: int) -> Seq<u8> {
    Seq::new(n as nat, |i: int| 0u8)
}

/// Whether `rest` holds the partial block of `s`, zero padded, exactly when
/// there is one.
pub open spec fn pending_ok(rest: Option<[u8; 16]>, s: Seq<u8>) -> bool {
    match rest {
        None => s.len() % 16 == 0,
        Some(b) => s.len() % 16 != 0 && b@ == partial_block(s) + zeros(16 - s.len() % 16),
    }
}

/// Folding a whole number of blocks and then more bytes is folding all the
/// bytes at once.
pub proof fn lemma_absorb_append(h: u128, y: u128, s1: Seq<u8>, s2: Seq<u8>)
    requires
        s1.len() % 16 == 0,
    ensures
        absorb(h, y, s1 + s2) == absorb(h, absorb(h, y, s1), s2),
    decreases s1.len(),
{
    if s1.len() == 0 {
        assert(s1 + s2 =~= s2);
    } else {
        let s = s1 + s2;
        assert(s.take(16) =~= s1.take(16));
        assert(s.skip(16) =~= s1.skip(16) + s2);
        lemma_absorb_append(h, ghash_step(h, y, s1.take(16)), s1.skip(16), s2);
    }
}

/// A trailing partial block does not change what is folded.
pub proof fn lemma_absorb_full_blocks(h: u128, y: u128, s: Seq<u8>)
    ensures
        absorb(h, y, s) == absorb(h, y, full_blocks(s)),
        full_blocks(s).len() % 16 == 0,
{
    assert(s =~= full_blocks(s) + partial_block(s));
    lemma_absorb_append(h, y, full_blocks(s), partial_block(s));
}

proof fn lemma_tail_of_append(p: Seq<u8>, r: Seq<u8>)
    requires
        p.len() % 16 == 0,
    ensures
        (p + r).len() % 16 == r.len() % 16,
        partial_block(p + r) == partial_block(r),
{
    assert((p + r).len() % 16 == r.len() % 16);
    assert(partial_block(p + r) =~= partial_block(r));
}

/// Folding the zero padded partial block of `s` after its complete blocks.
proof fn lemma_flush(h: u128, y: u128, s: Seq<u8>, b: Seq<u8>)
    requires
        s.len() % 16 != 0,
        b == partial_block(s) + zeros(16 - s.len() % 16),
    ensures
        gf_mul(absorb(h, y, s) ^ block_value(b), h) == absorb(h, y, zero_pad(s)),
{
    lemma_absorb_full_blocks(h, y, s);
    assert(zero_pad(s) =~= full_blocks(s) + b);
    lemma_absorb_append(h, y, full_blocks(s), b);
    let z = absorb(h, y, full_blocks(s));
    assert(b.take(16) =~= b);
    assert(absorb(h, z, b) == absorb(h, ghash_step(h, z, b), b.skip(16)));
}

proof fn lemma_length_words(a_bits: u64, c_bits: u64)
    by (bit_vector)
    ensures
        words_value(c_bits as u32, (c_bits >> 32u64) as u32, a_bits as u32, (a_bits >> 32u64) as u32)
            == (a_bits as u128) << 64u128 | (c_bits as u128),
{
}

/// The element that holds the bit lengths of the two inputs.
fn length_element(a_len: usize, c_len: usize) -> (r: Gf128)
    requires
        fits_channel(a_len as int),
        fits_channel(c_len as int),
    ensures
        r@ == length_block(a_len as nat, c_len as nat),
{
    let a_bits = a_len as u64 * 8;
    let c_bits = c_len as u64 * 8;
    proof {
        lemma_length_words(a_bits, c_bits);
    }
    Gf128::new(c_bits as u32, (c_bits >> 32) as u32, a_bits as u32, (a_bits >> 32) as u32)
}

proof fn lemma_aligned_case(h: u128, y0: u128, seen: Seq<u8>, d: Seq<u8>)
    requires
        seen.len() % 16 == 0,
    ensures
        absorb(h, y0, seen + d) == absorb(h, absorb(h, y0, seen), d),
        (seen + d).len() % 16 == d.len() % 16,
        partial_block(seen + d) == partial_block(d),
{
    lemma_absorb_append(h, y0, seen, d);
    lemma_tail_of_append(seen, d);
}

proof fn lemma_short_case(h: u128, y0: u128, seen: Seq<u8>, d: Seq<u8>, b: Seq<u8>, nb: Seq<u8>)
    requires
        seen.len() % 16 != 0,
        b == partial_block(seen) + zeros(16 - seen.len() % 16),
        seen.len() % 16 + d.len() < 16,
        nb == b.take((seen.len() % 16) as int) + d + b.skip((seen.len() % 16 + d.len()) as int),
    ensures
        absorb(h, y0, seen + d) == absorb(h, y0, seen),
        (seen + d).len() % 16 != 0,
        nb == partial_block(seen + d) + zeros(16 - (seen + d).len() % 16),
{
    let r = seen.len() % 16;
    let t = partial_block(seen) + d;
    lemma_absorb_full_blocks(h, y0, seen);
    assert(seen + d =~= full_blocks(seen) + t);
    lemma_absorb_append(h, y0, full_blocks(seen), t);
    assert((seen + d).len() % 16 == r + d.len());
    assert(partial_block(seen + d) =~= t);
    assert(nb =~= t + zeros(16 - (seen + d).len() % 16));
}

proof fn lemma_fill_case(
    h: u128,
    y0: u128,
    seen: Seq<u8>,
    d: Seq<u8>,
    b: Seq<u8>,
    nb: Seq<u8>,
    fill: int,
)
    requires
        seen.len() % 16 != 0,
        b == partial_block(seen) + zeros(16 - seen.len() % 16),
        fill == 16 - seen.len() % 16,
        fill <= d.len(),
        nb == b.take((seen.len() % 16) as int) + d.subrange(0, fill) + b.skip(seen.len() % 16 + fill),
    ensures
        nb.len() == 16,
        absorb(h, y0, seen + d) == absorb(h, ghash_step(h, absorb(h, y0, seen), nb), d.skip(fill)),
        (seen + d).len() % 16 == d.skip(fill).len() % 16,
        partial_block(seen + d) == partial_block(d.skip(fill)),
{
    let full = full_blocks(seen);
    lemma_absorb_full_blocks(h, y0, seen);
    assert(nb =~= partial_block(seen) + d.subrange(0, fill));
    let p = full + nb;
    assert(seen + d =~= p + d.skip(fill));
    lemma_absorb_append(h, y0, p, d.skip(fill));
    lemma_absorb_append(h, y0, full, nb);
    let z = absorb(h, y0, full);
    assert(nb.take(16) =~= nb);
    assert(absorb(h, z, nb) == absorb(h, ghash_step(h, z, nb), nb.skip(16)));
    lemma_tail_of_append(p, d.skip(fill));
}

/// Folds the complete blocks of `data`, in order, into `state`.
fn fold_blocks(state: &mut Gf128, data: &[u8], hs: &[Gf128; 128])
    requires
        is_power_table(hs@),
    ensures
        final(state)@ == absorb(hs@[0]@, old(state)@, data@),
{
    let ghost h = hs@[0]@;
    let len = data.len();
    let n_blocks = len / 16;
    let mut j: usize = 0;
    assert(data@.skip(0) =~= data@);
    while j < n_blocks
        invariant
            j <= n_blocks,
            len == data@.len(),
            n_blocks == len / 16,
            is_power_table(hs@),
            h == hs@[0]@,
            absorb(h, state@, data@.skip(16 * j)) == absorb(h, old(state)@, data@),
        decreases n_blocks - j,
    {
        let off = 16 * j;
        proof {
            let t = data@.skip(16 * j);
            assert(t.take(16) =~= data@.subrange(off as int, off + 16));
            assert(t.skip(16) =~= data@.skip(16 * (j + 1)));
        }
        state.add_and_mul(Gf128::from_bytes(&data[off..off + 16]), hs);
        j += 1;
    }
}

/// The partial block of `data`, zero padded, if it has one.
fn tail_block(data: &[u8]) -> (r: Option<[u8; 16]>)
    ensures
        pending_ok(r, data@),
{
    let n = data.len();
    let full = n - n % 16;
    if full < n {
        let mut tmp = [0u8; 16];
        copy_memory(&data[full..n], &mut tmp, 0);
        assert(tmp@ =~= partial_block(data@) + zeros(16 - n % 16));
        Some(tmp)
    } else {
        None
    }
}

/// Folds `data` into a channel whose bytes so far are `seen`: completes the
/// pending partial block if there is one, folds each complete block, and
/// keeps the new partial block.
fn update(
    state: &mut Gf128,
    len: &mut usize,
    data: &[u8],
    srest: &mut Option<[u8; 16]>,
    hs: &[Gf128; 128],
    Ghost(y0): Ghost<u128>,
    Ghost(seen): Ghost<Seq<u8>>,
)
    requires
        is_power_table(hs@),
        old(state)@ == absorb(hs@[0]@, y0, seen),
        *old(len) == seen.len(),
        fits_channel(seen.len() + data@.len() as int),
        pending_ok(*old(srest), seen),
    ensures
        final(state)@ == absorb(hs@[0]@, y0, seen + data@),
        *final(len) == seen.len() + data@.len(),
        pending_ok(*final(srest), seen + data@),
{
    let ghost h = hs@[0]@;
    let rest_len = *len % 16;
    let data_len = data.len();
    *len += data_len;
    match *srest {
        None => {
            proof {
                lemma_aligned_case(h, y0, seen, data@);
            }
            fold_blocks(state, data, hs);
            *srest = tail_block(data);
        },
        Some(r) => {
            let mut rest = r;
            if 16 - rest_len > data_len {
                copy_memory(data, &mut rest, rest_len);
                proof {
                    lemma_short_case(h, y0, seen, data@, r@, rest@);
                }
                *srest = Some(rest);
            } else {
                let fill = 16 - rest_len;
                copy_memory(&data[0..fill], &mut rest, rest_len);
                let tail = &data[fill..data_len];
                proof {
                    lemma_fill_case(h, y0, seen, data@, r@, rest@, fill as int);
                }
                state.add_and_mul(Gf128::from_bytes(&rest), hs);
                fold_blocks(state, tail, hs);
                *srest = tail_block(tail);
            }
        },
    }
}

/// Streaming invariance: feeding a channel as a prefix and then the rest,
/// one call each, yields the tag of feeding it in one call, for any split
/// point of either channel.
pub proof fn lemma_streaming_invariance(h: u128, a: Seq<u8>, c: Seq<u8>, i: int, j: int)
    requires
        0 <= i <= a.len(),
        0 <= j <= c.len(),
    ensures
        ghash(h, (Seq::<u8>::empty() + a.take(i)) + a.skip(i), c.take(j) + c.skip(j)) == ghash(
            h,
            Seq::<u8>::empty() + a,
            c,
        ),
{
    assert((Seq::<u8>::empty() + a.take(i)) + a.skip(i) =~= Seq::<u8>::empty() + a);
    assert(c.take(j) + c.skip(j) =~= c);
}

proof fn lemma_zero_shift(s: u128)
    by (bit_vector)
    ensures
        0u128 >> s == 0u128,
        0u128 ^ 0u128 == 0u128,
        0u128 & 1u128 == 0u128,
        0u128 << 64u128 | 0u128 == 0u128,
{
}

proof fn lemma_mul_zero(h: u128, i: nat)
    ensures
        mul_from(0, h, i) == 0,
    decreases 128 - i,
{
    if i < 128 {
        lemma_zero_shift((127 - i) as u128);
        lemma_mul_zero(h, i + 1);
    }
}

/// With empty associated data and empty ciphertext the tag is sixteen zero
/// bytes, whatever the key.
pub proof fn lemma_empty_input_tag(h: u128)
    ensures
        block_bytes(ghash(h, Seq::empty(), Seq::empty())) == Seq::new(16, |i: int| 0u8),
{
    let e = Seq::<u8>::empty();
    assert(zero_pad(e) == e);
    lemma_zero_shift(0);
    assert(length_block(0, 0) == 0);
    lemma_mul_zero(h, 0);
    assert(ghash(h, e, e) == 0);
    lemma_zero_shift(120);
    lemma_zero_shift(112);
    lemma_zero_shift(104);
    lemma_zero_shift(96);
    lemma_zero_shift(88);
    lemma_zero_shift(80);
    lemma_zero_shift(72);
    lemma_zero_shift(64);
    lemma_zero_shift(56);
    lemma_zero_shift(48);
    lemma_zero_shift(40);
    lemma_zero_shift(32);
    lemma_zero_shift(24);
    lemma_zero_shift(16);
    lemma_zero_shift(8);
    assert(block_bytes(0) =~= Seq::new(16, |i: int| 0u8));
}

/// A GHASH computation that takes associated data (A), before any
/// ciphertext. As a plain MAC it can also be fed, finalised and reset in place.
#[derive(Clone, Copy)]
pub struct Ghash {
    hs: [Gf128; 128],
    state: Gf128,
    a_len: usize,
    rest: Option<[u8; 16]>,
    finished: bool,
    aad: Ghost<Seq<u8>>,
}

/// A GHASH computation after ciphertext (C) input has begun.
#[derive(Clone, Copy)]
pub struct GhashWithC {
    hs: [Gf128; 128],
    state: Gf128,
    a_len: usize,
    c_len: usize,
    rest: Option<[u8; 16]>,
    aad: Ghost<Seq<u8>>,
    ct: Ghost<Seq<u8>>,
}

impl Ghash {
    /// The key H.
    pub closed spec fn key(&self) -> u128 {
        self.hs@[0]@
    }

    /// The associated data fed so far.
    pub closed spec fn aad(&self) -> Seq<u8> {
        self.aad@
    }

    /// Whether the result has been computed, after which no input is taken.
    pub closed spec fn is_finished(&self) -> bool {
        self.finished
    }

    /// The state holds the table of the key and has folded what was fed.
    pub closed spec fn inv(&self) -> bool {
        &&& is_power_table(self.hs@)
        &&& self.a_len == self.aad@.len()
        &&& fits_channel(self.a_len as int)
        &&& if self.finished {
            self.state@ == ghash(self.key(), self.aad@, seq![])
        } else {
            self.state@ == absorb(self.key(), 0, self.aad@) && pending_ok(self.rest, self.aad@)
        }
    }

    /// Creates a GHASH state with the 16-byte key `h`.
    pub fn new(h: &[u8]) -> (r: Ghash)
        requires
            h@.len() == 16,
        ensures
            r.inv(),
            r.key() == block_value(h@),
            r.aad() == Seq::<u8>::empty(),
            !r.is_finished(),
    {
        let ghost hv = block_value(h@);
        let mut table = [Gf128::zero(); 128];
        // h * x^0 through h * x^127
        let mut p = Gf128::from_bytes(h);
        let mut i: usize = 0;
        while i < 128
            invariant
                i <= 128,
                p@ == h_pow(hv, i as nat),
                forall|j: int| 0 <= j < i ==> #[trigger] table@[j]@ == h_pow(hv, j as nat),
            decreases 128 - i,
        {
            table[i] = p;
            p = p.times_x_reduce();
            i += 1;
        }
        assert(table@[0]@ == hv);
        Ghash {
            hs: table,
            state: Gf128::zero(),
            a_len: 0,
            rest: None,
            finished: false,
            aad: Ghost(Seq::empty()),
        }
    }

    /// Folds the pending partial block of A, zero padded.
    fn flush(&mut self)
        requires
            old(self).inv(),
            !old(self).is_finished(),
        ensures
            final(self).hs == old(self).hs,
            final(self).a_len == old(self).a_len,
            final(self).aad == old(self).aad,
            final(self).finished == old(self).finished,
            final(self).rest is None,
            final(self).state@ == absorb(old(self).key(), 0, zero_pad(old(self).aad@)),
    {
        match self.rest {
            None => {},
            Some(rest) => {
                proof {
                    lemma_flush(self.key(), 0, self.aad@, rest@);
                }
                self.state.add_and_mul(Gf128::from_bytes(&rest), &self.hs);
                self.rest = None;
            },
        }
    }

    /// Feeds data for GHASH's A input.
    pub fn input_a(self, a: &[u8]) -> (r: Ghash)
        requires
            self.inv(),
            !self.is_finished(),
            fits_channel(self.aad().len() + a@.len() as int),
        ensures
            r.inv(),
            r.key() == self.key(),
            r.aad() == self.aad() + a@,
            !r.is_finished(),
    {
        let mut g = self;
        update(&mut g.state, &mut g.a_len, a, &mut g.rest, &g.hs, Ghost(0), g.aad);
        g.aad = Ghost(g.aad@ + a@);
        g
    }

    /// Ends the A input and feeds data for GHASH's C input.
    pub fn input_c(self, c: &[u8]) -> (r: GhashWithC)
        requires
            self.inv(),
            !self.is_finished(),
            fits_channel(c@.len() as int),
        ensures
            r.inv(),
            r.key() == self.key(),
            r.aad() == self.aad(),
            r.ct() == c@,
    {
        let mut g = self;
        g.flush();
        let mut c_len: usize = 0;
        let ghost y0 = absorb(g.key(), 0, zero_pad(g.aad@));
        update(&mut g.state, &mut c_len, c, &mut g.rest, &g.hs, Ghost(y0), Ghost(Seq::empty()));
        assert(Seq::<u8>::empty() + c@ =~= c@);
        GhashWithC {
            hs: g.hs,
            state: g.state,
            a_len: g.a_len,
            c_len,
            rest: g.rest,
            aad: g.aad,
            ct: Ghost(c@),
        }
    }

    /// Completes the computation with the length block, once.
    fn finalize(&mut self)
        requires
            old(self).inv(),
        ensures
            final(self).inv(),
            final(self).key() == old(self).key(),
            final(self).aad() == old(self).aad(),
            final(self).is_finished(),
    {
        if !self.finished {
            self.flush();
            let lens = length_element(self.a_len, 0);
            self.state.add_and_mul(lens, &self.hs);
            self.finished = true;
            assert(zero_pad(Seq::<u8>::empty()) =~= Seq::<u8>::empty());
        }
    }

    /// Retrieves the digest: GHASH of the A input, with an empty C input.
    pub fn result(self) -> (r: [u8; 16])
        requires
            self.inv(),
        ensures
            r@ == block_bytes(ghash(self.key(), self.aad(), seq![])),
    {
        let mut g = self;
        g.finalize();
        g.state.to_bytes()
    }

    /// Feeds data for the A input in place.
    pub fn input(&mut self, data: &[u8])
        requires
            old(self).inv(),
            !old(self).is_finished(),
            fits_channel(old(self).aad().len() + data@.len() as int),
        ensures
            final(self).inv(),
            final(self).key() == old(self).key(),
            final(self).aad() == old(self).aad() + data@,
            !final(self).is_finished(),
    {
        update(&mut self.state, &mut self.a_len, data, &mut self.rest, &self.hs, Ghost(0), self.aad);
        self.aad = Ghost(self.aad@ + data@);
    }

    /// Forgets all input and starts a new message with the same key.
    pub fn reset(&mut self)
        requires
            old(self).inv(),
        ensures
            final(self).inv(),
            final(self).key() == old(self).key(),
            final(self).aad() == Seq::<u8>::empty(),
            !final(self).is_finished(),
    {
        self.state = Gf128::zero();
        self.a_len = 0;
        self.rest = None;
        self.finished = false;
        self.aad = Ghost(Seq::empty());
    }

    /// Writes the digest into `output[0..16]`, leaving the rest of it as it was.
    pub fn raw_result(&mut self, output: &mut [u8])
        requires
            old(self).inv(),
            old(output)@.len() >= 16,
        ensures
            final(self).inv(),
            final(self).key() == old(self).key(),
            final(self).aad() == old(self).aad(),
            final(self).is_finished(),
            final(output)@ == block_bytes(ghash(old(self).key(), old(self).aad(), seq![]))
                + old(output)@.skip(16),
    {
        self.finalize();
        let tag = self.state.to_bytes();
        copy_memory(&tag, output, 0);
        assert(output@ =~= tag@ + old(output)@.skip(16));
    }

    /// The length of the digest in bytes.
    pub fn output_bytes(&self) -> (r: usize)
        ensures
            r == 16,
    {
        16
    }
}

impl GhashWithC {
    /// The key H.
    pub closed spec fn key(&self) -> u128 {
        self.hs@[0]@
    }

    /// The associated data that was fed.
    pub closed spec fn aad(&self) -> Seq<u8> {
        self.aad@
    }

    /// The ciphertext fed so far.
    pub closed spec fn ct(&self) -> Seq<u8> {
        self.ct@
    }

    /// The state holds the table of the key and has folded what was fed.
    pub closed spec fn inv(&self) -> bool {
        &&& is_power_table(self.hs@)
        &&& self.a_len == self.aad@.len()
        &&& self.c_len == self.ct@.len()
        &&& fits_channel(self.a_len as int)
        &&& fits_channel(self.c_len as int)
        &&& self.state@ == absorb(self.key(), absorb(self.key(), 0, zero_pad(self.aad@)), self.ct@)
        &&& pending_ok(self.rest, self.ct@)
    }

    /// Feeds data for GHASH's C input.
    pub fn input_c(self, c: &[u8]) -> (r: GhashWithC)
        requires
            self.inv(),
            fits_channel(self.ct().len() + c@.len() as int),
        ensures
            r.inv(),
            r.key() == self.key(),
            r.aad() == self.aad(),
            r.ct() == self.ct() + c@,
    {
        let mut g = self;
        let ghost y0 = absorb(g.key(), 0, zero_pad(g.aad@));
        update(&mut g.state, &mut g.c_len, c, &mut g.rest, &g.hs, Ghost(y0), g.ct);
        g.ct = Ghost(g.ct@ + c@);
        g
    }

    /// Retrieves the digest: GHASH of the A and C inputs.
    pub fn result(self) -> (r: [u8; 16])
        requires
            self.inv(),
        ensures
            r@ == block_bytes(ghash(self.key(), self.aad(), self.ct())),
    {
        let mut g = self;
        match g.rest {
            None => {},
            Some(rest) => {
                proof {
                    lemma_flush(g.key(), absorb(g.key(), 0, zero_pad(g.aad@)), g.ct@, rest@);
                }
                g.state.add_and_mul(Gf128::from_bytes(&rest), &g.hs);
                g.rest = None;
            },
        }
        let lens = length_element(g.a_len, g.c_len);
        g.state.add_and_mul(lens, &g.hs);
        g.state.to_bytes()
    }
}

} // verus!
