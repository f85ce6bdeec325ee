//! Constant-time comparison and scrubbing of secret buffers.
use vstd::prelude::*;

verus! {

proof fn lemma_accumulate_difference(acc: u8, x: u8, y: u8)
    by (bit_vector)
    ensures
        (acc | (x ^ y)) == 0 <==> (acc == 0 && x == y),
{
}

/// Compares two byte strings with a fixed number of operations for a given
/// length: every byte is visited and differences are accumulated without an
/// early exit. Strings of different lengths are unequal.
pub fn fixed_time_eq(lhs: &[u8], rhs: &[u8]) -> (r: bool)
    ensures
        r == (lhs@ == rhs@),
{
    if lhs.len() != rhs.len() {
        false
    } else {
        let count = lhs.len();
        let mut acc: u8 = 0;
        let mut i: usize = 0;
        assert(lhs@.take(0) =~= rhs@.take(0));
        while i < count
            invariant
                i <= count,
                count == lhs@.len(),
                count == rhs@.len(),
                (acc == 0) == (lhs@.take(i as int) == rhs@.take(i as int)),
            decreases count - i,
        {
            let x = lhs[i];
            let y = rhs[i];
            proof {
                lemma_accumulate_difference(acc, x, y);
                let (l0, r0) = (lhs@.take(i as int), rhs@.take(i as int));
                let (l1, r1) = (lhs@.take(i + 1), rhs@.take(i + 1));
                assert(l1 =~= l0.push(x));
                assert(r1 =~= r0.push(y));
                if l0 == r0 && x == y {
                    assert(l1 =~= r1);
                }
                if l1 == r1 {
                    assert(l0 =~= l1.drop_last());
                    assert(r0 =~= r1.drop_last());
                    assert(l1[i as int] == x && r1[i as int] == y);
                }
                assert((l1 == r1) == (l0 == r0 && x == y));
            }
            acc = acc | (x ^ y);
            i += 1;
        }
        assert(lhs@.take(count as int) =~= lhs@);
        assert(rhs@.take(count as int) =~= rhs@);
        acc == 0
    }
}

/// Relies on `std::hint::black_box`: the compiler must treat the bytes as
/// read, so the writes before the call are not removed as dead stores.
#[verifier::external_body]
fn keep_observed(buf: &[u8]) {
    std::hint::black_box(buf);
}

/// Overwrites every byte of `dst` with `val`, in a way that the optimiser
/// keeps even when `dst` is not read afterwards.
pub fn secure_memset(dst: &mut [u8], val: u8)
    ensures
        final(dst)@ == Seq::new(old(dst)@.len(), |i: int| val),
{
    let count = dst.len();
    let mut i: usize = 0;
    while i < count
        invariant
            i <= count,
            count == old(dst)@.len(),
            dst@.len() == count,
            forall|j: int| 0 <= j < i ==> #[trigger] dst@[j] == val,
        decreases count - i,
    {
        dst[i] = val;
        i += 1;
    }
    keep_observed(dst);
    assert(dst@ =~= Seq::new(old(dst)@.len(), |i: int| val));
}

} // verus!
