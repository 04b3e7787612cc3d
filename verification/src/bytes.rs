//! Small byte-sequence helpers shared by the codec modules.

use vstd::prelude::*;

verus! {

/// A fresh vector holding the bytes of `s`.
pub fn copy_bytes(s: &[u8]) -> (out: Vec<u8>)
    ensures out@ == s@,
{
    let mut out: Vec<u8> = Vec::with_capacity(s.len());
    let mut i: usize = 0;
    while i < s.len()
        invariant
            i <= s@.len(),
            out@ == s@.take(i as int),
        decreases s@.len() - i,
    {
        out.push(s[i]);
        i += 1;
        assert(out@ =~= s@.take(i as int));
    }
    assert(s@.take(s@.len() as int) =~= s@);
    out
}

/// Appends the bytes of `s` to `out`.
pub fn append_bytes(out: &mut Vec<u8>, s: &[u8])
    ensures final(out)@ == old(out)@ + s@,
{
    let ghost start = out@;
    let mut i: usize = 0;
    while i < s.len()
        invariant
            i <= s@.len(),
            out@ == start + s@.take(i as int),
        decreases s@.len() - i,
    {
        out.push(s[i]);
        i += 1;
        assert(out@ =~= start + s@.take(i as int));
    }
    assert(s@.take(s@.len() as int) =~= s@);
}

/// Overwrites `buf[dst..dst + src.len()]` with `src`.
pub fn copy_into(buf: &mut Vec<u8>, dst: usize, src: &[u8])
    requires dst + src@.len() <= old(buf)@.len(),
    ensures
        final(buf)@ == old(buf)@.subrange(0, dst as int) + src@
            + old(buf)@.subrange(dst + src@.len(), old(buf)@.len() as int),
{
    let ghost b0 = buf@;
    let n = buf.len();
    let mut j: usize = 0;
    while j < src.len()
        invariant
            n == b0.len(),
            j <= src@.len(),
            dst + src@.len() <= b0.len(),
            buf@.len() == b0.len(),
            forall|t: int| 0 <= t < buf@.len() ==> #[trigger] buf@[t] == (
                if dst <= t < dst + j { src@[t - dst] } else { b0[t] }),
        decreases src@.len() - j,
    {
        buf.set(dst + j, src[j]);
        j += 1;
    }
    assert(buf@ =~= b0.subrange(0, dst as int) + src@ + b0.subrange(dst + src@.len(), b0.len() as int));
}

} // verus!
