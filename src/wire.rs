//! Fixed-width big-endian fields of the wire format, and byte-sequence helpers.
use vstd::prelude::*;

verus! {

pub open spec fn be16(x: u16) -> Seq<u8> {
    seq![(x >> 8u16) as u8, x as u8]
}

pub open spec fn be32(x: u32) -> Seq<u8> {
    seq![(x >> 24u32) as u8, (x >> 16u32) as u8, (x >> 8u32) as u8, x as u8]
}

pub open spec fn be64(x: u64) -> Seq<u8> {
    seq![
        (x >> 56u64) as u8,
        (x >> 48u64) as u8,
        (x >> 40u64) as u8,
        (x >> 32u64) as u8,
        (x >> 24u64) as u8,
        (x >> 16u64) as u8,
        (x >> 8u64) as u8,
        x as u8,
    ]
}

/// The big-endian value of the two bytes at `p`.
pub open spec fn read16(s: Seq<u8>, p: int) -> u16 {
    ((s[p] as u16) << 8u16) | (s[p + 1] as u16)
}

pub open spec fn read32(s: Seq<u8>, p: int) -> u32 {
    ((s[p] as u32) << 24u32) | ((s[p + 1] as u32) << 16u32) | ((s[p + 2] as u32) << 8u32) | (s[p
        + 3] as u32)
}

pub open spec fn read64(s: Seq<u8>, p: int) -> u64 {
    ((read32(s, p) as u64) << 32u64) | (read32(s, p + 4) as u64)
}

/// Consecutive 32-bit big-endian words.
pub open spec fn be32_all(s: Seq<u32>) -> Seq<u8>
    decreases s.len(),
{
    if s.len() == 0 {
        Seq::empty()
    } else {
        be32(s[0]) + be32_all(s.drop_first())
    }
}

pub proof fn lemma_read16(x: u16, s: Seq<u8>, p: int)
    requires
        0 <= p,
        p + 2 <= s.len(),
        s.subrange(p, p + 2) == be16(x),
    ensures
        read16(s, p) == x,
{
    assert(s[p] == be16(x)[0] && s[p + 1] == be16(x)[1]);
    let a = s[p];
    let b = s[p + 1];
    assert(a == (x >> 8u16) as u8 && b == x as u8 ==> ((a as u16) << 8u16) | (b as u16) == x)
        by (bit_vector);
}

pub proof fn lemma_read32(x: u32, s: Seq<u8>, p: int)
    requires
        0 <= p,
        p + 4 <= s.len(),
        s.subrange(p, p + 4) == be32(x),
    ensures
        read32(s, p) == x,
{
    assert(s[p] == be32(x)[0] && s[p + 1] == be32(x)[1] && s[p + 2] == be32(x)[2] && s[p + 3]
        == be32(x)[3]);
    let a = s[p];
    let b = s[p + 1];
    let c = s[p + 2];
    let d = s[p + 3];
    assert(a == (x >> 24u32) as u8 && b == (x >> 16u32) as u8 && c == (x >> 8u32) as u8 && d
        == x as u8 ==> ((a as u32) << 24u32) | ((b as u32) << 16u32) | ((c as u32) << 8u32) | (
    d as u32) == x) by (bit_vector);
}

pub proof fn lemma_read64(x: u64, s: Seq<u8>, p: int)
    requires
        0 <= p,
        p + 8 <= s.len(),
        s.subrange(p, p + 8) == be64(x),
    ensures
        read64(s, p) == x,
{
    let hi = (x >> 32u64) as u32;
    let lo = x as u32;
    assert(be32(hi) =~= be64(x).subrange(0, 4)) by {
        assert((hi >> 24u32) as u8 == (x >> 56u64) as u8) by (bit_vector)
            requires hi == (x >> 32u64) as u32;
        assert((hi >> 16u32) as u8 == (x >> 48u64) as u8) by (bit_vector)
            requires hi == (x >> 32u64) as u32;
        assert((hi >> 8u32) as u8 == (x >> 40u64) as u8) by (bit_vector)
            requires hi == (x >> 32u64) as u32;
        assert(hi as u8 == (x >> 32u64) as u8) by (bit_vector)
            requires hi == (x >> 32u64) as u32;
    }
    assert(be32(lo) =~= be64(x).subrange(4, 8)) by {
        assert((lo >> 24u32) as u8 == (x >> 24u64) as u8) by (bit_vector)
            requires lo == x as u32;
        assert((lo >> 16u32) as u8 == (x >> 16u64) as u8) by (bit_vector)
            requires lo == x as u32;
        assert((lo >> 8u32) as u8 == (x >> 8u64) as u8) by (bit_vector)
            requires lo == x as u32;
        assert(lo as u8 == x as u8) by (bit_vector)
            requires lo == x as u32;
    }
    assert(s.subrange(p, p + 4) =~= be64(x).subrange(0, 4));
    assert(s.subrange(p + 4, p + 8) =~= be64(x).subrange(4, 8));
    lemma_read32(hi, s, p);
    lemma_read32(lo, s, p + 4);
    assert(((hi as u64) << 32u64) | (lo as u64) == x) by (bit_vector)
        requires
            hi == (x >> 32u64) as u32,
            lo == x as u32,
    ;
}

pub fn push16(buf: &mut Vec<u8>, x: u16)
    ensures
        final(buf)@ == old(buf)@ + be16(x),
{
    buf.push((x >> 8u16) as u8);
    buf.push(x as u8);
    assert(final(buf)@ =~= old(buf)@ + be16(x));
}

pub fn push32(buf: &mut Vec<u8>, x: u32)
    ensures
        final(buf)@ == old(buf)@ + be32(x),
{
    buf.push((x >> 24u32) as u8);
    buf.push((x >> 16u32) as u8);
    buf.push((x >> 8u32) as u8);
    buf.push(x as u8);
    assert(final(buf)@ =~= old(buf)@ + be32(x));
}

pub fn push64(buf: &mut Vec<u8>, x: u64)
    ensures
        final(buf)@ == old(buf)@ + be64(x),
{
    buf.push((x >> 56u64) as u8);
    buf.push((x >> 48u64) as u8);
    buf.push((x >> 40u64) as u8);
    buf.push((x >> 32u64) as u8);
    buf.push((x >> 24u64) as u8);
    buf.push((x >> 16u64) as u8);
    buf.push((x >> 8u64) as u8);
    buf.push(x as u8);
    assert(final(buf)@ =~= old(buf)@ + be64(x));
}

/// Appends every byte of `src`.
pub fn push_bytes(buf: &mut Vec<u8>, src: &Vec<u8>)
    ensures
        final(buf)@ == old(buf)@ + src@,
{
    let mut i: usize = 0;
    while i < src.len()
        invariant
            i <= src.len(),
            buf@ == old(buf)@ + src@.take(i as int),
        decreases src.len() - i,
    {
        buf.push(src[i]);
        i += 1;
        assert(buf@ =~= old(buf)@ + src@.take(i as int));
    }
    assert(src@.take(src.len() as int) =~= src@);
}

pub fn read16_at(s: &Vec<u8>, p: usize) -> (r: u16)
    requires
        p + 2 <= s.len(),
    ensures
        r == read16(s@, p as int),
{
    ((s[p] as u16) << 8u16) | (s[p + 1] as u16)
}

pub fn read32_at(s: &Vec<u8>, p: usize) -> (r: u32)
    requires
        p + 4 <= s.len(),
    ensures
        r == read32(s@, p as int),
{
    ((s[p] as u32) << 24u32) | ((s[p + 1] as u32) << 16u32) | ((s[p + 2] as u32) << 8u32) | (s[p
        + 3] as u32)
}

pub fn read64_at(s: &Vec<u8>, p: usize) -> (r: u64)
    requires
        p + 8 <= s.len(),
    ensures
        r == read64(s@, p as int),
{
    ((read32_at(s, p) as u64) << 32u64) | (read32_at(s, p + 4) as u64)
}

/// Copies `len` bytes starting at `p`.
pub fn slice_copy(s: &Vec<u8>, p: usize, len: usize) -> (r: Vec<u8>)
    requires
        p + len <= s.len(),
    ensures
        r@ == s@.subrange(p as int, p + len),
{
    let mut r: Vec<u8> = Vec::new();
    let mut i: usize = 0;
    while i < len
        invariant
            i <= len,
            p + len <= s.len(),
            r@ == s@.subrange(p as int, p + i),
        decreases len - i,
    {
        r.push(s[p + i]);
        i += 1;
        assert(r@ =~= s@.subrange(p as int, p + i));
    }
    r
}

/// Strict lexicographic order on byte strings (a proper prefix comes first).
pub open spec fn lex_lt(a: Seq<u8>, b: Seq<u8>) -> bool
    decreases a.len(),
{
    if a.len() == 0 {
        b.len() > 0
    } else if b.len() == 0 {
        false
    } else if a[0] != b[0] {
        a[0] < b[0]
    } else {
        lex_lt(a.drop_first(), b.drop_first())
    }
}

pub proof fn lemma_lex_irreflexive(a: Seq<u8>)
    ensures
        !lex_lt(a, a),
    decreases a.len(),
{
    if a.len() > 0 {
        lemma_lex_irreflexive(a.drop_first());
    }
}

pub proof fn lemma_lex_total(a: Seq<u8>, b: Seq<u8>)
    ensures
        a == b || lex_lt(a, b) || lex_lt(b, a),
        !(lex_lt(a, b) && lex_lt(b, a)),
    decreases a.len(),
{
    if a.len() > 0 && b.len() > 0 && a[0] == b[0] {
        lemma_lex_total(a.drop_first(), b.drop_first());
        if a.drop_first() == b.drop_first() {
            assert(a =~= seq![a[0]] + a.drop_first());
            assert(b =~= seq![b[0]] + b.drop_first());
        }
    } else if a.len() == 0 && b.len() == 0 {
        assert(a =~= b);
    }
}

pub proof fn lemma_lex_transitive(a: Seq<u8>, b: Seq<u8>, c: Seq<u8>)
    requires
        lex_lt(a, b),
        lex_lt(b, c),
    ensures
        lex_lt(a, c),
    decreases a.len(),
{
    if a.len() > 0 && b.len() > 0 && c.len() > 0 && a[0] == b[0] && b[0] == c[0] {
        lemma_lex_transitive(a.drop_first(), b.drop_first(), c.drop_first());
    }
}

/// Compares two byte strings: -1, 0 or 1.
pub fn lex_cmp(a: &Vec<u8>, b: &Vec<u8>) -> (r: i8)
    ensures
        r == 0 <==> a@ == b@,
        r < 0 <==> lex_lt(a@, b@),
        r > 0 <==> lex_lt(b@, a@),
{
    let mut i: usize = 0;
    proof {
        assert(a@.skip(0) =~= a@);
        assert(b@.skip(0) =~= b@);
        assert(a@.take(0) =~= b@.take(0));
    }
    while i < a.len() && i < b.len()
        invariant
            i <= a.len(),
            i <= b.len(),
            a@.take(i as int) == b@.take(i as int),
            lex_lt(a@, b@) == lex_lt(a@.skip(i as int), b@.skip(i as int)),
            lex_lt(b@, a@) == lex_lt(b@.skip(i as int), a@.skip(i as int)),
            (a@ == b@) == (a@.skip(i as int) == b@.skip(i as int)),
        decreases a.len() - i,
    {
        if a[i] < b[i] {
            proof {
                lemma_lex_total(a@, b@);
            }
            return -1;
        }
        if a[i] > b[i] {
            proof {
                lemma_lex_total(a@, b@);
            }
            return 1;
        }
        proof {
            let sa = a@.skip(i as int);
            let sb = b@.skip(i as int);
            assert(sa.drop_first() =~= a@.skip(i + 1));
            assert(sb.drop_first() =~= b@.skip(i + 1));
            assert(a@.take(i + 1) =~= a@.take(i as int).push(a[i as int]));
            assert(b@.take(i + 1) =~= b@.take(i as int).push(b[i as int]));
            if sa.drop_first() == sb.drop_first() {
                assert(sa =~= seq![sa[0]] + sa.drop_first());
                assert(sb =~= seq![sb[0]] + sb.drop_first());
            }
        }
        i += 1;
    }
    proof {
        lemma_lex_total(a@, b@);
        if a.len() == b.len() {
            assert(a@ =~= a@.take(i as int));
            assert(b@ =~= b@.take(i as int));
        }
    }
    if a.len() == b.len() {
        0
    } else if a.len() < b.len() {
        -1
    } else {
        1
    }
}

} // verus!
