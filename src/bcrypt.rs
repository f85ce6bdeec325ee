//! The bcrypt password hash: the expensive key setup of EksBlowfish, then
//! 64 encryptions of each half of a fixed magic text.
//!
//! The Blowfish cipher itself comes from the `blowfish` crate. Its state is
//! seen here through its subkey words, and each of its operations through a
//! named function of the words and bytes it is given.
use vstd::arithmetic::power2::pow2;
use vstd::bits::{lemma_u32_pow2_no_overflow, lemma_u32_shl_is_mul};
use vstd::prelude::*;

use blowfish::Blowfish;

use crate::cryptoutil::{u32_be_bytes, write_u32_be};

verus! {

/// A Blowfish state of the `blowfish` crate, kept whole from the verifier.
#[verifier::external_body]
pub struct BlowfishState {
    cipher: Blowfish,
}

/// The subkeys that a Blowfish state holds: its P-array (18 words), then its
/// four S-boxes (256 words each).
pub uninterp spec fn subkeys(state: BlowfishState) -> Seq<u32>;

/// Word `i` of the fixed subkeys that a fresh Blowfish state starts from.
pub uninterp spec fn initial_subkey(i: int) -> u32;

/// The subkeys after `salted_expand_key(salt, key)` on a state with subkeys `k`.
pub uninterp spec fn salted_expansion(k: Seq<u32>, salt: Seq<u8>, key: Seq<u8>) -> Seq<u32>;

/// The subkeys after `bc_expand_key(key)` on a state with subkeys `k`.
pub uninterp spec fn expansion(k: Seq<u32>, key: Seq<u8>) -> Seq<u32>;

/// The two words that `bc_encrypt` returns for `block` under subkeys `k`.
pub uninterp spec fn encipher(k: Seq<u32>, block: Seq<u32>) -> Seq<u32>;

/// The subkeys of a fresh Blowfish state.
pub open spec fn initial_subkeys() -> Seq<u32> {
    Seq::new(1042, |i: int| initial_subkey(i))
}

/// Relies on blowfish's `Blowfish::bc_init_state`: it returns a state that
/// holds the cipher's fixed initial subkeys, the same on every call.
#[verifier::external_body]
fn init_state() -> (r: BlowfishState)
    ensures
        subkeys(r) == Seq::new(1042, |i: int| initial_subkey(i)),
{
    BlowfishState { cipher: Blowfish::bc_init_state() }
}

/// Relies on blowfish's `Blowfish::salted_expand_key`: the new subkeys depend
/// only on the old ones, the salt and the key. It indexes both byte strings
/// cyclically, so neither may be empty.
#[verifier::external_body]
fn salted_expand(state: &mut BlowfishState, salt: &[u8], key: &[u8])
    requires
        salt@.len() > 0,
        key@.len() > 0,
    ensures
        subkeys(*final(state)) == salted_expansion(subkeys(*old(state)), salt@, key@),
{
    state.cipher.salted_expand_key(salt, key)
}

/// Relies on blowfish's `Blowfish::bc_expand_key`: the new subkeys depend only
/// on the old ones and the key, which it indexes cyclically and so may not be
/// empty.
#[verifier::external_body]
fn expand(state: &mut BlowfishState, key: &[u8])
    requires
        key@.len() > 0,
    ensures
        subkeys(*final(state)) == expansion(subkeys(*old(state)), key@),
{
    state.cipher.bc_expand_key(key)
}

/// Relies on blowfish's `Blowfish::bc_encrypt`: the output block depends only
/// on the subkeys and the input block.
#[verifier::external_body]
fn encrypt(state: &BlowfishState, lr: [u32; 2]) -> (r: [u32; 2])
    ensures
        r@ == encipher(subkeys(*state), lr@),
{
    state.cipher.bc_encrypt(lr)
}

/// `n` rounds of the expensive key schedule, each expanding with the key,
/// then with the salt.
pub open spec fn eks_rounds(k: Seq<u32>, salt: Seq<u8>, key: Seq<u8>, n: nat) -> Seq<u32>
    decreases n,
{
    if n == 0 {
        k
    } else {
        expansion(expansion(eks_rounds(k, salt, key, (n - 1) as nat), key), salt)
    }
}

/// The subkeys of EksBlowfish with the given cost, salt and key.
pub open spec fn eks_subkeys(cost: nat, salt: Seq<u8>, key: Seq<u8>) -> Seq<u32> {
    eks_rounds(salted_expansion(initial_subkeys(), salt, key), salt, key, pow2(cost))
}

/// `block` encrypted `n` times in a chain.
pub open spec fn encipher_times(k: Seq<u32>, block: Seq<u32>, n: nat) -> Seq<u32>
    decreases n,
{
    if n == 0 {
        block
    } else {
        encipher(k, encipher_times(k, block, (n - 1) as nat))
    }
}

/// "OrpheanBeholderScryDoubt" as six big-endian words.
pub open spec fn magic_words() -> Seq<u32> {
    seq![0x4f727068u32, 0x65616e42u32, 0x65686f6cu32, 0x64657253u32, 0x63727944u32, 0x6f756274u32]
}

/// The six words of the bcrypt digest: each half of the magic text, two
/// words, encrypted 64 times with the EksBlowfish subkeys.
pub open spec fn bcrypt_words(cost: nat, salt: Seq<u8>, key: Seq<u8>) -> Seq<u32> {
    Seq::new(
        6,
        |j: int|
            encipher_times(
                eks_subkeys(cost, salt, key),
                magic_words().subrange(2 * (j / 2), 2 * (j / 2) + 2),
                64,
            )[j % 2],
    )
}

/// The 24-byte bcrypt digest: the six words, big-endian.
pub open spec fn bcrypt_digest(cost: nat, salt: Seq<u8>, key: Seq<u8>) -> Seq<u8> {
    let w = bcrypt_words(cost, salt, key);
    u32_be_bytes(w[0]) + u32_be_bytes(w[1]) + u32_be_bytes(w[2]) + u32_be_bytes(w[3])
        + u32_be_bytes(w[4]) + u32_be_bytes(w[5])
}

/// The digest is a function of cost, salt and password alone: equal inputs
/// give equal digests.
pub proof fn lemma_bcrypt_deterministic(
    cost: nat,
    salt1: Seq<u8>,
    key1: Seq<u8>,
    salt2: Seq<u8>,
    key2: Seq<u8>,
)
    requires
        salt1 == salt2,
        key1 == key2,
    ensures
        bcrypt_digest(cost, salt1, key1) == bcrypt_digest(cost, salt2, key2),
{
}

/// The EksBlowfish key setup: a salted expansion of a fresh state, then
/// 2^cost rounds of expansion with the key and with the salt.
fn setup(cost: u32, salt: &[u8], key: &[u8]) -> (r: BlowfishState)
    requires
        cost < 32,
        salt@.len() > 0,
        key@.len() > 0,
    ensures
        subkeys(r) == eks_subkeys(cost as nat, salt@, key@),
{
    let mut state = init_state();
    salted_expand(&mut state, salt, key);
    let ghost k0 = subkeys(state);
    let rounds: u32 = 1u32 << cost;
    proof {
        lemma_u32_pow2_no_overflow(cost as nat);
        lemma_u32_shl_is_mul(1, cost);
    }
    let mut i: u32 = 0;
    while i < rounds
        invariant
            i <= rounds,
            rounds == pow2(cost as nat),
            salt@.len() > 0,
            key@.len() > 0,
            subkeys(state) == eks_rounds(k0, salt@, key@, i as nat),
        decreases rounds - i,
    {
        expand(&mut state, key);
        expand(&mut state, salt);
        i += 1;
    }
    state
}

/// Computes bcrypt of `password` with `salt` at the given cost into the
/// 24 bytes of `output`.
pub fn bcrypt(cost: u32, salt: &[u8], password: &[u8], output: &mut [u8])
    requires
        cost < 32,
        salt@.len() == 16,
        0 < password@.len() <= 72,
        old(output)@.len() == 24,
    ensures
        final(output)@ == bcrypt_digest(cost as nat, salt@, password@),
{
    let state = setup(cost, salt, password);
    let ghost k = subkeys(state);
    let ghost w = bcrypt_words(cost as nat, salt@, password@);
    let mut ctext: [u32; 6] = [0x4f727068, 0x65616e42, 0x65686f6c, 0x64657253, 0x63727944, 0x6f756274];
    assert(ctext@ =~= magic_words());
    let mut i: usize = 0;
    while i < 6
        invariant
            i <= 6,
            i % 2 == 0,
            output@.len() == 24,
            k == subkeys(state),
            w == bcrypt_words(cost as nat, salt@, password@),
            k == eks_subkeys(cost as nat, salt@, password@),
            forall|j: int| i <= j < 6 ==> #[trigger] ctext@[j] == magic_words()[j],
            forall|j: int| 0 <= j < i ==> #[trigger] output@.subrange(4 * j, 4 * j + 4) == u32_be_bytes(w[j]),
        decreases 6 - i,
    {
        let mut lr: [u32; 2] = [ctext[i], ctext[i + 1]];
        let ghost start = lr@;
        assert(start =~= magic_words().subrange(i as int, i + 2));
        let mut n: usize = 0;
        while n < 64
            invariant
                n <= 64,
                k == subkeys(state),
                lr@ == encipher_times(k, start, n as nat),
            decreases 64 - n,
        {
            lr = encrypt(&state, lr);
            n += 1;
        }
        assert(w[i as int] == lr@[0] && w[i + 1] == lr@[1]);
        ctext[i] = lr[0];
        ctext[i + 1] = lr[1];
        let ghost before = output@;
        write_u32_be(output, i * 4, ctext[i]);
        let ghost mid = output@;
        assert(mid.subrange(4 * i, 4 * i + 4) =~= u32_be_bytes(w[i as int]));
        write_u32_be(output, (i + 1) * 4, ctext[i + 1]);
        proof {
            assert(output@.subrange(4 * i, 4 * i + 4) =~= mid.subrange(4 * i, 4 * i + 4));
            assert(output@.subrange(4 * (i + 1), 4 * (i + 1) + 4) =~= u32_be_bytes(w[i + 1]));
            assert forall|j: int| 0 <= j < i + 2 implies #[trigger] output@.subrange(4 * j, 4 * j + 4)
                == u32_be_bytes(w[j]) by {
                if j < i {
                    assert(output@.subrange(4 * j, 4 * j + 4) =~= before.subrange(4 * j, 4 * j + 4));
                }
            }
        }
        i += 2;
    }
    proof {
        assert(output@ =~= bcrypt_digest(cost as nat, salt@, password@)) by {
            let d = bcrypt_digest(cost as nat, salt@, password@);
            assert forall|t: int| 0 <= t < 24 implies output@[t] == d[t] by {
                let j = t / 4;
                assert(output@.subrange(4 * j, 4 * j + 4)[t - 4 * j] == output@[t]);
            }
        }
    }
}

} // verus!
