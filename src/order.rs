//! The canonical order of map keys, stated over the keys' canonical encodings.
//!
//! Keys fall into classes: numbers < atoms < references
//! < ports < pids < tuples < maps < lists < binaries < funs. Within a class
//! numbers compare by value (an integer before a float of the same value), atoms by
//! name and binaries by content;
//! remaining ties fall back on the encoded bytes, so that the order is total.
use vstd::prelude::*;
use vstd::relations::*;
use crate::fields::le_value;
use crate::numeric::{
    eff_len, eff_len_of, lemma_eff_len, lemma_le_value_concat, lemma_pow256_pos, lemma_pow2_split,
    magnitude_cmp, pow2, pow256, pow2_small, shift_bytes,
};
use crate::wire::{lemma_lex_irreflexive, lemma_lex_total, lemma_lex_transitive, lex_cmp, lex_lt, read32, read32_at, read64, read64_at, slice_copy};

verus! {

/// A map pair as encoded key bytes and encoded value bytes.
pub type Record = (Seq<u8>, Seq<u8>);

pub open spec fn key_rank(k: Seq<u8>) -> int {
    if k.len() == 0 {
        0
    } else {
        let t = k[0];
        if t == 97 || t == 98 || t == 110 || t == 111 || t == 70 {
            1
        } else if t == 100 || t == 115 || t == 118 || t == 119 {
            4
        } else if t == 114 {
            5
        } else if t == 102 {
            6
        } else if t == 103 {
            7
        } else if t == 104 || t == 105 {
            8
        } else if t == 116 {
            9
        } else if t == 106 || t == 108 {
            10
        } else if t == 109 || t == 77 || t == 107 {
            11
        } else if t == 112 || t == 113 || t == 117 {
            12
        } else {
            13
        }
    }
}

/// A sign byte applied to a magnitude (any non-zero sign byte is negative).
pub open spec fn signed_value(sign: u8, magnitude: Seq<u8>) -> int {
    if sign != 0 {
        -le_value(magnitude)
    } else {
        le_value(magnitude) as int
    }
}

/// The value of an integer key (small, 32-bit or big).
pub open spec fn int_key_value(k: Seq<u8>) -> int {
    if k.len() >= 2 && k[0] == 97 {
        k[1] as int
    } else if k.len() >= 5 && k[0] == 98 {
        (read32(k, 1) as i32) as int
    } else if k.len() >= 3 && k[0] == 110 {
        signed_value(k[2], k.skip(3))
    } else if k.len() >= 6 && k[0] == 111 {
        signed_value(k[5], k.skip(6))
    } else {
        0
    }
}

/// Numbers are compared as their values times `2^1080`: every finite float is a
/// whole multiple of `2^-1074`, so this makes every number a whole number.
pub open spec fn number_scale() -> nat {
    pow2(1080)
}

pub open spec fn float_negative(bits: u64) -> bool {
    (bits >> 63u64) == 1
}

pub open spec fn float_exponent(bits: u64) -> u64 {
    (bits >> 52u64) & 0x7ffu64
}

pub open spec fn float_fraction(bits: u64) -> u64 {
    bits & 0xf_ffff_ffff_ffffu64
}

/// The integer significand of a float: the fraction, with the hidden bit when normal.
pub open spec fn float_mantissa(bits: u64) -> nat {
    if float_exponent(bits) == 0 {
        float_fraction(bits) as nat
    } else {
        (float_fraction(bits) + 0x10_0000_0000_0000) as nat
    }
}

/// The power of two that the significand is multiplied by in `|value| · 2^1080`:
/// `|value| = mantissa · 2^(exponent − 1075)` (`2^-1074` for subnormals).
pub open spec fn float_shift(bits: u64) -> nat {
    if float_exponent(bits) == 0 {
        6
    } else {
        (float_exponent(bits) + 5) as nat
    }
}

/// A float's value times `2^1080`. The all-ones exponent (infinities and NaN, which
/// the term format does not carry) is read by the same formula.
pub open spec fn float_scaled(bits: u64) -> int {
    let m = float_mantissa(bits) * pow2(float_shift(bits));
    if float_negative(bits) {
        -m
    } else {
        m as int
    }
}

/// A number key's value times `2^1080`.
pub open spec fn number_scaled(k: Seq<u8>) -> int {
    if k.len() > 0 && k[0] == 70 {
        if k.len() >= 9 {
            float_scaled(read64(k, 1))
        } else {
            0
        }
    } else {
        int_key_value(k) * number_scale()
    }
}

/// What orders a key within its class, where the class has one: for numbers, twice
/// the scaled value, plus one for a float, so that numbers order by value and an
/// integer comes before a float of the same value.
pub open spec fn key_number(k: Seq<u8>) -> int {
    if key_rank(k) == 1 {
        2 * number_scaled(k) + if k[0] == 70 {
            1int
        } else {
            0int
        }
    } else {
        0
    }
}

/// The bytes that order a key within its class: an atom's name, a binary's content.
pub open spec fn key_text(k: Seq<u8>) -> Seq<u8> {
    if k.len() >= 2 && (k[0] == 119 || k[0] == 115) {
        k.skip(2)
    } else if k.len() >= 3 && (k[0] == 118 || k[0] == 100 || k[0] == 107) {
        k.skip(3)
    } else if k.len() >= 5 && k[0] == 109 {
        k.skip(5)
    } else if k.len() >= 6 && k[0] == 77 {
        k.skip(6)
    } else {
        Seq::empty()
    }
}

/// Strict canonical order of two encoded keys.
pub open spec fn key_lt(a: Seq<u8>, b: Seq<u8>) -> bool {
    if key_rank(a) != key_rank(b) {
        key_rank(a) < key_rank(b)
    } else if key_number(a) != key_number(b) {
        key_number(a) < key_number(b)
    } else if key_text(a) != key_text(b) {
        lex_lt(key_text(a), key_text(b))
    } else {
        lex_lt(a, b)
    }
}

/// Strict order of records: by key, then by value bytes.
pub open spec fn record_lt(a: Record, b: Record) -> bool {
    if a.0 != b.0 {
        key_lt(a.0, b.0)
    } else {
        lex_lt(a.1, b.1)
    }
}

pub open spec fn record_le(a: Record, b: Record) -> bool {
    a == b || record_lt(a, b)
}

pub open spec fn record_order() -> spec_fn(Record, Record) -> bool {
    |a: Record, b: Record| record_le(a, b)
}

pub proof fn lemma_key_lt_total(a: Seq<u8>, b: Seq<u8>)
    ensures
        a == b || key_lt(a, b) || key_lt(b, a),
        !(key_lt(a, b) && key_lt(b, a)),
        !key_lt(a, a),
{
    lemma_lex_total(a, b);
    lemma_lex_total(key_text(a), key_text(b));
    lemma_lex_irreflexive(a);
    lemma_lex_irreflexive(key_text(a));
}

pub proof fn lemma_key_lt_transitive(a: Seq<u8>, b: Seq<u8>, c: Seq<u8>)
    requires
        key_lt(a, b),
        key_lt(b, c),
    ensures
        key_lt(a, c),
{
    lemma_key_lt_total(a, c);
    if key_rank(a) == key_rank(b) && key_rank(b) == key_rank(c) && key_number(a) == key_number(b)
        && key_number(b) == key_number(c) {
        if key_text(a) != key_text(b) && key_text(b) != key_text(c) {
            lemma_lex_transitive(key_text(a), key_text(b), key_text(c));
            lemma_lex_irreflexive(key_text(a));
        } else if key_text(a) == key_text(b) && key_text(b) == key_text(c) {
            lemma_lex_transitive(a, b, c);
        }
    }
}

pub proof fn lemma_record_order_total()
    ensures
        total_ordering(record_order()),
{
    let le = record_order();
    assert forall|a: Record| #[trigger] le(a, a) by {}
    assert forall|a: Record, b: Record| #[trigger] le(a, b) && #[trigger] le(b, a) implies a == b by {
        lemma_key_lt_total(a.0, b.0);
        lemma_lex_total(a.1, b.1);
    }
    assert forall|a: Record, b: Record, c: Record| #[trigger]
        le(a, b) && #[trigger] le(b, c) implies le(a, c) by {
        if a != b && b != c {
            lemma_key_lt_total(a.0, c.0);
            lemma_lex_total(a.1, c.1);
            if a.0 != b.0 && b.0 != c.0 {
                lemma_key_lt_transitive(a.0, b.0, c.0);
            } else if a.0 == b.0 && b.0 == c.0 {
                lemma_lex_transitive(a.1, b.1, c.1);
            }
            if a == c {
                lemma_key_lt_total(a.0, b.0);
                lemma_lex_total(a.1, b.1);
            }
        }
    }
    assert forall|a: Record, b: Record| #[trigger] le(a, b) || #[trigger] le(b, a) by {
        lemma_key_lt_total(a.0, b.0);
        lemma_lex_total(a.1, b.1);
    }
    assert(reflexive(le));
    assert(antisymmetric(le));
    assert(transitive(le));
    assert(strongly_connected(le));
}

pub fn key_rank_of(k: &Vec<u8>) -> (r: u8)
    ensures
        r as int == key_rank(k@),
{
    if k.len() == 0 {
        return 0;
    }
    let t = k[0];
    if t == 97 || t == 98 || t == 110 || t == 111 || t == 70 {
        1
    } else if t == 100 || t == 115 || t == 118 || t == 119 {
        4
    } else if t == 114 {
        5
    } else if t == 102 {
        6
    } else if t == 103 {
        7
    } else if t == 104 || t == 105 {
        8
    } else if t == 116 {
        9
    } else if t == 106 || t == 108 {
        10
    } else if t == 109 || t == 77 || t == 107 {
        11
    } else if t == 112 || t == 113 || t == 117 {
        12
    } else {
        13
    }
}

pub fn key_text_of(k: &Vec<u8>) -> (r: Vec<u8>)
    ensures
        r@ == key_text(k@),
{
    let n = k.len();
    if n >= 2 && (k[0] == 119 || k[0] == 115) {
        slice_copy(k, 2, n - 2)
    } else if n >= 3 && (k[0] == 118 || k[0] == 100 || k[0] == 107) {
        slice_copy(k, 3, n - 3)
    } else if n >= 5 && k[0] == 109 {
        slice_copy(k, 5, n - 5)
    } else if n >= 6 && k[0] == 77 {
        slice_copy(k, 6, n - 6)
    } else {
        Vec::new()
    }
}

/// Little-endian bytes of `x`.
fn le_bytes(x: u64) -> (r: Vec<u8>)
    ensures
        le_value(r@) == x,
{
    let mut out: Vec<u8> = Vec::new();
    let mut y: u64 = x;
    proof {
        assert(le_value(out@) == 0);
        assert(pow256(0) == 1);
        assert(out@.len() == 0);
        assert(pow256(out@.len()) * y == y) by (nonlinear_arith)
            requires
                pow256(out@.len()) == 1,
        ;
    }
    while y > 0
        invariant
            le_value(out@) + pow256(out@.len()) * y == x,
        decreases y,
    {
        let b = (y % 256) as u8;
        let ghost before = out@;
        out.push(b);
        proof {
            lemma_le_value_concat(before, seq![b]);
            assert(before + seq![b] =~= out@);
            assert(seq![b].drop_first() =~= Seq::<u8>::empty());
            assert(le_value(Seq::<u8>::empty()) == 0);
            assert(le_value(seq![b]) == seq![b][0] + 256 * le_value(seq![b].drop_first()));
            let p = pow256(before.len());
            assert(pow256(out@.len()) == 256 * p);
            assert(p * y == p * (b as int) + (256 * p) * (y / 256)) by (nonlinear_arith)
                requires
                    b as int == y % 256,
            ;
        }
        y = y / 256;
    }
    proof {
        assert(pow256(out@.len()) * 0 == 0) by (nonlinear_arith);
    }
    out
}

/// An integer key as a sign and a magnitude.
fn int_parts(k: &Vec<u8>) -> (r: (bool, Vec<u8>))
    ensures
        int_key_value(k@) == if r.0 {
            -le_value(r.1@)
        } else {
            le_value(r.1@) as int
        },
{
    let n = k.len();
    if n >= 2 && k[0] == 97 {
        let m = vec![k[1]];
        proof {
            assert(m@.drop_first() =~= Seq::<u8>::empty());
            assert(le_value(Seq::<u8>::empty()) == 0);
            assert(le_value(m@) == m@[0] + 256 * le_value(m@.drop_first()));
        }
        (false, m)
    } else if n >= 5 && k[0] == 98 {
        let v = read32_at(k, 1) as i32;
        if v < 0 {
            (true, le_bytes((-(v as i64)) as u64))
        } else {
            (false, le_bytes(v as u64))
        }
    } else if n >= 3 && k[0] == 110 {
        let m = slice_copy(k, 3, n - 3);
        assert(m@ =~= k@.skip(3));
        (k[2] != 0, m)
    } else if n >= 6 && k[0] == 111 {
        let m = slice_copy(k, 6, n - 6);
        assert(m@ =~= k@.skip(6));
        (k[5] != 0, m)
    } else {
        proof {
            assert(le_value(Seq::<u8>::empty()) == 0);
        }
        (false, Vec::new())
    }
}

/// A float's bits as a sign and the magnitude of its value times `2^1080`.
fn float_parts(bits: u64) -> (r: (bool, Vec<u8>))
    ensures
        float_scaled(bits) == if r.0 {
            -le_value(r.1@)
        } else {
            le_value(r.1@) as int
        },
{
    let negative = (bits >> 63u64) == 1;
    let e = (bits >> 52u64) & 0x7ffu64;
    let f = bits & 0xf_ffff_ffff_ffffu64;
    assert(f <= 0xf_ffff_ffff_ffffu64) by (bit_vector)
        requires
            f == bits & 0xf_ffff_ffff_ffffu64,
    ;
    assert(e <= 0x7ff) by (bit_vector)
        requires
            e == (bits >> 52u64) & 0x7ffu64,
    ;
    let (m, t): (u64, u64) = if e == 0 { (f, 6) } else { (f + 0x10_0000_0000_0000, e + 5) };
    let q = t / 8;
    let r = t % 8;
    let p = pow2_small(r);
    assert(m * p <= 0x1f_ffff_ffff_ffff * 128) by (nonlinear_arith)
        requires
            m <= 0x1f_ffff_ffff_ffff,
            p <= 128,
    ;
    let x = m * p;
    let low = le_bytes(x);
    let mag = shift_bytes(&low, q as usize);
    proof {
        assert(t == 8 * q + r);
        lemma_pow2_split(q as nat, r as nat);
        assert(pow256(q as nat) * (m * pow2(r as nat)) == m * (pow256(q as nat) * pow2(r as nat)))
            by (nonlinear_arith);
        assert(le_value(mag@) == float_mantissa(bits) * pow2(float_shift(bits)));
    }
    (negative, mag)
}

/// A number key as a sign and the magnitude of its value times `2^1080`.
fn number_parts(k: &Vec<u8>) -> (r: (bool, Vec<u8>))
    ensures
        number_scaled(k@) == if r.0 {
            -le_value(r.1@)
        } else {
            le_value(r.1@) as int
        },
{
    if k.len() > 0 && k[0] == 70 {
        if k.len() >= 9 {
            float_parts(read64_at(k, 1))
        } else {
            proof {
                assert(le_value(Seq::<u8>::empty()) == 0);
            }
            (false, Vec::new())
        }
    } else {
        let (neg, m) = int_parts(k);
        let mag = shift_bytes(&m, 135);
        proof {
            lemma_pow2_split(135, 0);
            assert(pow2(0) == 1);
            assert(pow2(1080) == pow256(135)) by {
                assert(8 * 135 + 0 == 1080);
            }
            let v = le_value(m@);
            let p = pow256(135);
            assert((-v) * p == -(p * v)) by (nonlinear_arith);
            assert(v * p == p * v) by (nonlinear_arith);
        }
        (neg, mag)
    }
}

/// Compares two number keys: by value, then an integer before a float. -1, 0 or 1.
fn number_cmp(a: &Vec<u8>, b: &Vec<u8>) -> (r: i8)
    requires
        key_rank(a@) == 1,
        key_rank(b@) == 1,
    ensures
        r < 0 <==> key_number(a@) < key_number(b@),
        r == 0 <==> key_number(a@) == key_number(b@),
        r > 0 <==> key_number(a@) > key_number(b@),
{
    let (na, ma) = number_parts(a);
    let (nb, mb) = number_parts(b);
    let za = eff_len_of(&ma) == 0;
    let zb = eff_len_of(&mb) == 0;
    proof {
        lemma_eff_len(ma@);
        lemma_eff_len(mb@);
        lemma_pow256_pos((eff_len(ma@) - 1) as nat);
        lemma_pow256_pos((eff_len(mb@) - 1) as nat);
    }
    let sa = na && !za;
    let sb = nb && !zb;
    let c: i8 = if sa != sb {
        if sa { -1 } else { 1 }
    } else {
        let m = magnitude_cmp(&ma, &mb);
        if sa {
            if m < 0 {
                1
            } else if m > 0 {
                -1
            } else {
                0
            }
        } else {
            m
        }
    };
    if c != 0 {
        return c;
    }
    let fa = a[0] == 70;
    let fb = b[0] == 70;
    if fa == fb {
        0
    } else if fb {
        -1
    } else {
        1
    }
}

/// Compares two encoded keys in the canonical order: -1, 0 or 1.
pub fn key_cmp(a: &Vec<u8>, b: &Vec<u8>) -> (r: i8)
    ensures
        r == 0 <==> a@ == b@,
        r < 0 <==> key_lt(a@, b@),
        r > 0 <==> key_lt(b@, a@),
{
    proof {
        lemma_key_lt_total(a@, b@);
    }
    let ra = key_rank_of(a);
    let rb = key_rank_of(b);
    if ra != rb {
        return if ra < rb { -1 } else { 1 };
    }
    if ra == 1 {
        let c = number_cmp(a, b);
        if c != 0 {
            return c;
        }
    }
    let ta = key_text_of(a);
    let tb = key_text_of(b);
    let c = lex_cmp(&ta, &tb);
    if c != 0 {
        return c;
    }
    lex_cmp(a, b)
}

pub fn record_less(a: &(Vec<u8>, Vec<u8>), b: &(Vec<u8>, Vec<u8>)) -> (r: bool)
    ensures
        r == record_lt((a.0@, a.1@), (b.0@, b.1@)),
{
    let c = key_cmp(&a.0, &b.0);
    if c != 0 {
        c < 0
    } else {
        lex_cmp(&a.1, &b.1) < 0
    }
}

} // verus!
