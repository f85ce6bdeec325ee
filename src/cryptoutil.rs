//! Big-endian words and byte copies.
use vstd::prelude::*;

verus! {

/// The big-endian value of four bytes.
pub open spec fn be_u32(b: Seq<u8>) -> u32 {
    (b[0] as u32) << 24u32 | (b[1] as u32) << 16u32 | (b[2] as u32) << 8u32 | (b[3] as u32)
}

/// The four big-endian bytes of a word.
pub open spec fn u32_be_bytes(v: u32) -> Seq<u8> {
    seq![(v >> 24u32) as u8, (v >> 16u32) as u8, (v >> 8u32) as u8, v as u8]
}

/// Reads four bytes as a big-endian word.
pub fn read_u32_be(input: &[u8]) -> (r: u32)
    requires
        input@.len() == 4,
    ensures
        r == be_u32(input@),
{
    (input[0] as u32) << 24 | (input[1] as u32) << 16 | (input[2] as u32) << 8 | (input[3] as u32)
}

/// Writes `v` big-endian into `dst[pos..pos + 4]`.
pub fn write_u32_be(dst: &mut [u8], pos: usize, v: u32)
    requires
        pos + 4 <= old(dst)@.len(),
    ensures
        final(dst)@ == old(dst)@.take(pos as int) + u32_be_bytes(v) + old(dst)@.skip(pos + 4),
{
    dst[pos] = (v >> 24) as u8;
    dst[pos + 1] = (v >> 16) as u8;
    dst[pos + 2] = (v >> 8) as u8;
    dst[pos + 3] = v as u8;
    assert(dst@ =~= old(dst)@.take(pos as int) + u32_be_bytes(v) + old(dst)@.skip(pos + 4));
}

/// Copies `src` into `dst[pos..pos + src.len()]`.
pub fn copy_memory(src: &[u8], dst: &mut [u8], pos: usize)
    requires
        pos + src@.len() <= old(dst)@.len(),
    ensures
        final(dst)@ == old(dst)@.take(pos as int) + src@ + old(dst)@.skip(pos + src@.len()),
{
    let dst_len = dst.len();
    let mut i: usize = 0;
    while i < src.len()
        invariant
            i <= src@.len(),
            dst_len == old(dst)@.len(),
            pos + src@.len() <= dst_len,
            dst@.len() == old(dst)@.len(),
            dst@ == old(dst)@.take(pos as int) + src@.take(i as int) + old(dst)@.skip(pos + i),
        decreases src@.len() - i,
    {
        dst[pos + i] = src[i];
        i += 1;
        assert(dst@ =~= old(dst)@.take(pos as int) + src@.take(i as int) + old(dst)@.skip(pos + i));
    }
    assert(src@.take(i as int) =~= src@);
}

} // verus!
