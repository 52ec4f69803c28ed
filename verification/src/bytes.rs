use vstd::prelude::*;

verus! {

/// `p` is a prefix of `s`.
pub open spec fn is_prefix(p: Seq<u8>, s: Seq<u8>) -> bool {
    p.len() <= s.len() && s.subrange(0, p.len() as int) == p
}

/// Appends every byte of `src` to `dst`.
pub fn push_all(dst: &mut Vec<u8>, src: &[u8])
    ensures
        final(dst)@ == old(dst)@ + src@,
{
    let n = src.len();
    let mut i: usize = 0;
    while i < n
        invariant
            n == src@.len(),
            0 <= i <= n,
            dst@ == old(dst)@ + src@.subrange(0, i as int),
        decreases n - i,
    {
        dst.push(src[i]);
        i += 1;
        assert(src@.subrange(0, i as int) == src@.subrange(0, i - 1) + seq![src@[i - 1]]);
    }
    assert(src@.subrange(0, n as int) == src@);
}

/// Copies `src` into a fresh vector.
pub fn to_vec(src: &[u8]) -> (v: Vec<u8>)
    ensures
        v@ == src@,
{
    let mut v: Vec<u8> = Vec::with_capacity(src.len());
    push_all(&mut v, src);
    v
}

/// Whether `piece` occurs in `bytes` starting at `pos`.
pub fn matches_at(piece: &[u8], bytes: &[u8], pos: usize) -> (r: bool)
    requires
        pos <= bytes@.len(),
    ensures
        r == is_prefix(piece@, bytes@.skip(pos as int)),
{
    let m = piece.len();
    if m > bytes.len() - pos {
        return false;
    }
    let mut i: usize = 0;
    while i < m
        invariant
            m == piece@.len(),
            pos + m <= bytes.len(),
            0 <= i <= m,
            forall|j: int| 0 <= j < i ==> bytes@[pos + j] == piece@[j],
        decreases m - i,
    {
        if bytes[pos + i] != piece[i] {
            assert(bytes@.skip(pos as int).subrange(0, m as int)[i as int] != piece@[i as int]);
            return false;
        }
        i += 1;
    }
    assert(bytes@.skip(pos as int).subrange(0, m as int) =~= piece@);
    true
}

/// Whether two byte strings are equal.
pub fn bytes_eq(a: &[u8], b: &[u8]) -> (r: bool)
    ensures
        r == (a@ == b@),
{
    if a.len() != b.len() {
        return false;
    }
    let r = matches_at(b, a, 0);
    assert(a@.skip(0) =~= a@);
    proof {
        if r {
            assert(a@.subrange(0, b@.len() as int) =~= a@);
        }
    }
    r
}

} // verus!