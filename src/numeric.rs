//! Integer values of little-endian magnitudes, and their comparison.
use vstd::prelude::*;
use crate::fields::le_value;

verus! {

pub open spec fn pow256(n: nat) -> nat
    decreases n,
{
    if n == 0 {
        1
    } else {
        256 * pow256((n - 1) as nat)
    }
}

pub proof fn lemma_pow256_pos(n: nat)
    ensures
        pow256(n) >= 1,
    decreases n,
{
    if n > 0 {
        lemma_pow256_pos((n - 1) as nat);
    }
}

pub proof fn lemma_pow256_mono(a: nat, b: nat)
    requires
        a <= b,
    ensures
        pow256(a) <= pow256(b),
    decreases b,
{
    if a < b {
        lemma_pow256_mono(a, (b - 1) as nat);
        lemma_pow256_pos((b - 1) as nat);
    }
}

/// The value of a concatenation.
pub proof fn lemma_le_value_concat(s: Seq<u8>, t: Seq<u8>)
    ensures
        le_value(s + t) == le_value(s) + pow256(s.len()) * le_value(t),
    decreases s.len(),
{
    if s.len() == 0 {
        assert(s + t =~= t);
    } else {
        lemma_le_value_concat(s.drop_first(), t);
        assert((s + t).drop_first() =~= s.drop_first() + t);
        assert((s + t)[0] == s[0]);
        let a = le_value(s.drop_first());
        let p = pow256((s.len() - 1) as nat);
        let v = le_value(t);
        assert(le_value(s + t) == (s + t)[0] + 256 * le_value((s + t).drop_first()));
        assert(le_value(s) == s[0] + 256 * a);
        assert(pow256(s.len()) == 256 * p);
        assert(256 * (a + p * v) == 256 * a + (256 * p) * v) by (nonlinear_arith);
    }
}

/// A magnitude of `n` bytes is below `256^n`.
pub proof fn lemma_le_value_bound(s: Seq<u8>)
    ensures
        le_value(s) < pow256(s.len()),
    decreases s.len(),
{
    if s.len() > 0 {
        lemma_le_value_bound(s.drop_first());
        let a = le_value(s.drop_first());
        let p = pow256((s.len() - 1) as nat);
        assert(s[0] + 256 * a < 256 * p) by (nonlinear_arith)
            requires
                a < p,
                s[0] < 256,
        ;
    }
}

/// The number of bytes up to and including the last non-zero one.
pub open spec fn eff_len(s: Seq<u8>) -> nat
    decreases s.len(),
{
    if s.len() == 0 {
        0
    } else if s.last() != 0 {
        s.len()
    } else {
        eff_len(s.drop_last())
    }
}

pub proof fn lemma_eff_len(s: Seq<u8>)
    ensures
        eff_len(s) <= s.len(),
        le_value(s) == le_value(s.take(eff_len(s) as int)),
        eff_len(s) > 0 ==> s[eff_len(s) - 1] != 0,
        eff_len(s) > 0 ==> le_value(s) >= pow256((eff_len(s) - 1) as nat),
        eff_len(s) == 0 ==> le_value(s) == 0,
    decreases s.len(),
{
    if s.len() == 0 {
        assert(s.take(0) =~= s);
        assert(le_value(s) == 0);
    } else if s.last() != 0 {
        assert(s.take(s.len() as int) =~= s);
        let d = s.drop_last();
        assert(s =~= d + seq![s.last()]);
        lemma_le_value_concat(d, seq![s.last()]);
        assert(seq![s.last()].drop_first() =~= Seq::<u8>::empty());
        assert(le_value(Seq::<u8>::empty()) == 0);
        assert(le_value(seq![s.last()]) == seq![s.last()][0] + 256 * le_value(seq![s.last()].drop_first()));
        assert(le_value(seq![s.last()]) == s.last());
        let p = pow256(d.len());
        assert(p * (s.last() as nat) >= p) by (nonlinear_arith)
            requires
                s.last() >= 1,
        ;
    } else {
        let d = s.drop_last();
        lemma_eff_len(d);
        assert(s =~= d + seq![0u8]);
        lemma_le_value_concat(d, seq![0u8]);
        assert(seq![0u8].drop_first() =~= Seq::<u8>::empty());
        assert(le_value(Seq::<u8>::empty()) == 0);
        assert(le_value(seq![0u8]) == seq![0u8][0] + 256 * le_value(seq![0u8].drop_first()));
        assert(le_value(seq![0u8]) == 0);
        let p = pow256(d.len());
        let z = le_value(seq![0u8]);
        assert(p * z == 0) by (nonlinear_arith)
            requires
                z == 0,
        ;
        assert(le_value(s) == le_value(d));
        assert(eff_len(s) == eff_len(d));
        assert(d.take(eff_len(d) as int) =~= s.take(eff_len(d) as int));
    }
}

/// Two magnitudes with the same bytes above `j`, compared at byte `j`.
pub proof fn lemma_le_value_at(a: Seq<u8>, b: Seq<u8>, j: int)
    requires
        a.len() == b.len(),
        0 <= j < a.len(),
        a.skip(j + 1) == b.skip(j + 1),
        a[j] < b[j],
    ensures
        le_value(a) < le_value(b),
{
    let n = j as nat;
    assert(a =~= a.take(j) + a.skip(j));
    assert(b =~= b.take(j) + b.skip(j));
    lemma_le_value_concat(a.take(j), a.skip(j));
    lemma_le_value_concat(b.take(j), b.skip(j));
    assert(a.skip(j).drop_first() =~= a.skip(j + 1));
    assert(b.skip(j).drop_first() =~= b.skip(j + 1));
    lemma_le_value_bound(a.take(j));
    let la = le_value(a.take(j));
    let lb = le_value(b.take(j));
    let h = le_value(a.skip(j + 1));
    let p = pow256(n);
    assert(a.skip(j)[0] == a[j] && b.skip(j)[0] == b[j]);
    assert(la + p * (a[j] + 256 * h) < lb + p * (b[j] + 256 * h)) by (nonlinear_arith)
        requires
            la < p,
            lb >= 0,
            a[j] < b[j],
    ;
}

/// Effective length of the magnitude in `s`.
pub fn eff_len_of(s: &Vec<u8>) -> (r: usize)
    ensures
        r == eff_len(s@),
{
    let mut n: usize = s.len();
    assert(s@.take(n as int) =~= s@);
    while n > 0 && s[n - 1] == 0
        invariant
            n <= s.len(),
            eff_len(s@) == eff_len(s@.take(n as int)),
        decreases n,
    {
        assert(s@.take(n as int).drop_last() =~= s@.take(n - 1));
        n -= 1;
    }
    proof {
        if n > 0 {
            assert(s@.take(n as int).last() == s@[n - 1]);
        }
    }
    n
}

/// Compares two magnitudes by value: -1, 0 or 1.
pub fn magnitude_cmp(a: &Vec<u8>, b: &Vec<u8>) -> (r: i8)
    ensures
        r < 0 <==> le_value(a@) < le_value(b@),
        r == 0 <==> le_value(a@) == le_value(b@),
        r > 0 <==> le_value(a@) > le_value(b@),
{
    let la = eff_len_of(a);
    let lb = eff_len_of(b);
    proof {
        lemma_eff_len(a@);
        lemma_eff_len(b@);
        lemma_le_value_bound(a@.take(la as int));
        lemma_le_value_bound(b@.take(lb as int));
    }
    if la != lb {
        proof {
            if la < lb {
                lemma_pow256_mono(la as nat, (lb - 1) as nat);
            } else {
                lemma_pow256_mono(lb as nat, (la - 1) as nat);
            }
        }
        return if la < lb { -1 } else { 1 };
    }
    let ghost ta = a@.take(la as int);
    let ghost tb = b@.take(lb as int);
    let mut j: usize = la;
    assert(ta.skip(la as int) =~= tb.skip(la as int));
    while j > 0
        invariant
            j <= la,
            la == lb,
            la <= a.len(),
            la <= b.len(),
            ta == a@.take(la as int),
            tb == b@.take(lb as int),
            ta.skip(j as int) == tb.skip(j as int),
            le_value(a@) == le_value(ta),
            le_value(b@) == le_value(tb),
        decreases j,
    {
        let x = a[j - 1];
        let y = b[j - 1];
        assert(ta[j - 1] == x && tb[j - 1] == y);
        if x != y {
            proof {
                if x < y {
                    lemma_le_value_at(ta, tb, j - 1);
                } else {
                    lemma_le_value_at(tb, ta, j - 1);
                }
            }
            return if x < y { -1 } else { 1 };
        }
        proof {
            assert(ta.skip(j - 1) =~= seq![x] + ta.skip(j as int));
            assert(tb.skip(j - 1) =~= seq![y] + tb.skip(j as int));
        }
        j -= 1;
    }
    assert(ta =~= ta.skip(0));
    assert(tb =~= tb.skip(0));
    0
}

pub open spec fn pow2(n: nat) -> nat
    decreases n,
{
    if n == 0 {
        1
    } else {
        2 * pow2((n - 1) as nat)
    }
}

pub proof fn lemma_pow2_pos(n: nat)
    ensures
        pow2(n) >= 1,
    decreases n,
{
    if n > 0 {
        lemma_pow2_pos((n - 1) as nat);
    }
}

/// Shifting by whole bytes and then by bits: `2^(8q + r) == 256^q · 2^r`.
pub proof fn lemma_pow2_split(q: nat, r: nat)
    ensures
        pow2(8 * q + r) == pow256(q) * pow2(r),
    decreases q,
{
    if q > 0 {
        lemma_pow2_split((q - 1) as nat, r);
        let n = (8 * (q - 1) + r) as nat;
        assert(pow2(n + 8) == 256 * pow2(n)) by {
            reveal_with_fuel(pow2, 9);
        }
        assert(8 * q + r == n + 8) by (nonlinear_arith)
            requires
                n == 8 * (q - 1) + r,
                q > 0,
        ;
        let a = pow256((q - 1) as nat);
        assert(pow256(q) == 256 * a);
        assert(pow2(8 * q + r) == pow2(n + 8));
        assert(pow2(n) == a * pow2(r));
        assert(pow2(8 * q + r) == 256 * (a * pow2(r)));
        assert(256 * (a * pow2(r)) == (256 * a) * pow2(r)) by (nonlinear_arith);
    } else {
        assert(8 * q + r == r);
        assert(pow256(0) == 1);
        assert(pow256(q) * pow2(r) == pow2(r)) by (nonlinear_arith)
            requires
                pow256(q) == 1,
        ;
    }
}

/// A run of zero bytes has value 0.
pub proof fn lemma_zeros_value(n: nat)
    ensures
        le_value(Seq::new(n, |i: int| 0u8)) == 0,
    decreases n,
{
    if n > 0 {
        lemma_zeros_value((n - 1) as nat);
        assert(Seq::new(n, |i: int| 0u8).drop_first() =~= Seq::new((n - 1) as nat, |i: int| 0u8));
    }
}

/// `q` zero bytes, then `m`: the magnitude `m · 256^q`.
pub fn shift_bytes(m: &Vec<u8>, q: usize) -> (r: Vec<u8>)
    ensures
        le_value(r@) == pow256(q as nat) * le_value(m@),
{
    let mut r: Vec<u8> = Vec::new();
    let mut i: usize = 0;
    while i < q
        invariant
            i <= q,
            r@ == Seq::new(i as nat, |j: int| 0u8),
        decreases q - i,
    {
        r.push(0u8);
        i += 1;
        assert(r@ =~= Seq::new(i as nat, |j: int| 0u8));
    }
    let ghost z = r@;
    crate::wire::push_bytes(&mut r, m);
    proof {
        lemma_le_value_concat(z, m@);
        lemma_zeros_value(q as nat);
    }
    r
}

/// `2^r` for a shift below 8.
pub fn pow2_small(r: u64) -> (p: u64)
    requires
        r < 8,
    ensures
        p as nat == pow2(r as nat),
        p <= 128,
{
    proof {
        reveal_with_fuel(pow2, 8);
    }
    if r == 0 {
        1
    } else if r == 1 {
        2
    } else if r == 2 {
        4
    } else if r == 3 {
        8
    } else if r == 4 {
        16
    } else if r == 5 {
        32
    } else if r == 6 {
        64
    } else {
        128
    }
}

} // verus!
