//! Byte-string helpers shared by the container parsers: big-endian
//! fields, prefixes, comparison and copying.
use vstd::prelude::*;

verus! {

/// Big-endian value of the two bytes at `at`.
pub open spec fn be16(d: Seq<u8>, at: int) -> nat {
    d[at] as nat * 256 + d[at + 1] as nat
}

/// Big-endian value of the four bytes at `at`.
pub open spec fn be32(d: Seq<u8>, at: int) -> nat {
    be16(d, at) * 65536 + be16(d, at + 2)
}

/// The big-endian 16-bit field at `at`.
pub fn be16_at(d: &[u8], at: usize) -> (r: u32)
    requires
        at + 2 <= d@.len(),
    ensures
        r as nat == be16(d@, at as int),
{
    d[at] as u32 * 256 + d[at + 1] as u32
}

/// The big-endian 32-bit field at `at`.
pub fn be32_at(d: &[u8], at: usize) -> (r: u64)
    requires
        at + 4 <= d@.len(),
    ensures
        r as nat == be32(d@, at as int),
        r <= u32::MAX,
{
    let _n = d.len();
    be16_at(d, at) as u64 * 65536 + be16_at(d, at + 2) as u64
}

/// Whether `p` starts with `pre`.
pub open spec fn has_prefix(p: Seq<u8>, pre: Seq<u8>) -> bool {
    pre.len() <= p.len() && p.subrange(0, pre.len() as int) == pre
}

/// Whether `p` starts with `pre`.
pub fn has_prefix_exec(p: &[u8], pre: &[u8]) -> (r: bool)
    ensures
        r == has_prefix(p@, pre@),
{
    if pre.len() > p.len() {
        return false;
    }
    let mut i: usize = 0;
    while i < pre.len()
        invariant
            pre@.len() <= p@.len(),
            i <= pre@.len(),
            forall|k: int| 0 <= k < i ==> p@[k] == pre@[k],
        decreases pre@.len() - i,
    {
        if p[i] != pre[i] {
            proof {
                assert(p@.subrange(0, pre@.len() as int)[i as int] != pre@[i as int]);
            }
            return false;
        }
        i = i + 1;
    }
    proof {
        assert(p@.subrange(0, pre@.len() as int) =~= pre@);
    }
    true
}

/// Whether `a` and `b` hold the same bytes.
pub fn bytes_equal(a: &[u8], b: &[u8]) -> (r: bool)
    ensures
        r == (a@ == b@),
{
    if a.len() != b.len() {
        return false;
    }
    let mut i: usize = 0;
    while i < a.len()
        invariant
            a@.len() == b@.len(),
            i <= a@.len(),
            a@.subrange(0, i as int) == b@.subrange(0, i as int),
        decreases a@.len() - i,
    {
        if a[i] != b[i] {
            assert(a@[i as int] != b@[i as int]);
            return false;
        }
        i = i + 1;
        assert(a@.subrange(0, i as int) =~= a@.subrange(0, i as int - 1).push(a@[i - 1]));
        assert(b@.subrange(0, i as int) =~= b@.subrange(0, i as int - 1).push(b@[i - 1]));
    }
    assert(a@ =~= a@.subrange(0, a@.len() as int));
    assert(b@ =~= b@.subrange(0, b@.len() as int));
    true
}

/// A copy of `d[lo..hi]`.
pub fn copy_bytes(d: &[u8], lo: usize, hi: usize) -> (r: Vec<u8>)
    requires
        lo <= hi <= d@.len(),
    ensures
        r@ == d@.subrange(lo as int, hi as int),
{
    let mut out: Vec<u8> = Vec::new();
    let mut i = lo;
    while i < hi
        invariant
            lo <= i <= hi <= d@.len(),
            out@ == d@.subrange(lo as int, i as int),
        decreases hi - i,
    {
        out.push(d[i]);
        i = i + 1;
        proof {
            assert(out@ =~= d@.subrange(lo as int, i as int));
        }
    }
    out
}

} // verus!
