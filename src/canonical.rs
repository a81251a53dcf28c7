//! The canonical order on terms, and what canonical encoding guarantees.
use vstd::prelude::*;
use vstd::relations::total_ordering;
use crate::encode::{canon_records, enc, encode_into, keys_distinct, lemma_canon_records, Mode};
use crate::order::{
    float_scaled, int_key_value, key_cmp, key_lt, key_number, key_rank, key_text,
    lemma_record_order_total, number_scale, record_order, Record,
};
use crate::numeric::lemma_pow2_pos;
use crate::term::{wf, Term, TermModel};
use crate::fields::le_value;
use crate::wire::{be32, be64, lemma_lex_irreflexive, lemma_read32, lemma_read64, lex_lt};

verus! {

/// Compares two terms in the canonical order of map keys: -1, 0 or 1.
pub fn compare_terms(a: &Term, b: &Term) -> (r: i8)
    requires
        wf(a@),
        wf(b@),
    ensures
        r < 0 <==> key_lt(enc(a@, Mode::Canonical), enc(b@, Mode::Canonical)),
        r > 0 <==> key_lt(enc(b@, Mode::Canonical), enc(a@, Mode::Canonical)),
        r == 0 <==> enc(a@, Mode::Canonical) == enc(b@, Mode::Canonical),
{
    let mut ka: Vec<u8> = Vec::new();
    encode_into(a, Mode::Canonical, &mut ka);
    let mut kb: Vec<u8> = Vec::new();
    encode_into(b, Mode::Canonical, &mut kb);
    assert(ka@ =~= enc(a@, Mode::Canonical));
    assert(kb@ =~= enc(b@, Mode::Canonical));
    key_cmp(&ka, &kb)
}

pub open spec fn is_number(t: TermModel) -> bool {
    t is Int || t is BigInt || t is Float
}

/// Every number sorts before every atom, and every atom before every binary.
pub proof fn lemma_class_order(n: TermModel, a: TermModel, b: TermModel, mode: Mode)
    requires
        is_number(n),
        a is Atom,
        b is Binary,
        wf(a),
        mode == Mode::Canonical,
    ensures
        key_lt(enc(n, mode), enc(a, mode)),
        key_lt(enc(a, mode), enc(b, mode)),
        key_lt(enc(n, mode), enc(b, mode)),
{
    let en = enc(n, mode);
    let ea = enc(a, mode);
    let eb = enc(b, mode);
    assert(en.len() > 0 && ea.len() > 0 && eb.len() > 0);
    assert(1 <= key_rank(en) <= 3);
    assert(key_rank(ea) == 4);
    assert(key_rank(eb) == 11);
}

/// Atoms sort by name.
pub proof fn lemma_atoms_by_name(x: Seq<u8>, y: Seq<u8>)
    requires
        x.len() <= 0xffff,
        y.len() <= 0xffff,
    ensures
        key_lt(enc(TermModel::Atom(x), Mode::Canonical), enc(TermModel::Atom(y), Mode::Canonical))
            <==> lex_lt(x, y),
{
    let ex = enc(TermModel::Atom(x), Mode::Canonical);
    let ey = enc(TermModel::Atom(y), Mode::Canonical);
    if x.len() <= 255 {
        assert(ex.skip(2) =~= x);
    } else {
        assert(ex.skip(3) =~= x);
    }
    if y.len() <= 255 {
        assert(ey.skip(2) =~= y);
    } else {
        assert(ey.skip(3) =~= y);
    }
    assert(key_text(ex) == x);
    assert(key_text(ey) == y);
    assert(key_number(ex) == 0 && key_number(ey) == 0);
    if x == y {
        lemma_lex_irreflexive(x);
        lemma_lex_irreflexive(ex);
    }
}

proof fn lemma_canon_records_multiset(ps1: Seq<(TermModel, TermModel)>, ps2: Seq<(TermModel, TermModel)>)
    requires
        ps1.to_multiset() == ps2.to_multiset(),
    ensures
        canon_records(ps1).to_multiset() == canon_records(ps2).to_multiset(),
    decreases ps1.len(),
{
    broadcast use vstd::seq_lib::group_to_multiset_ensures, vstd::multiset::group_multiset_axioms;

    lemma_canon_records(ps1);
    lemma_canon_records(ps2);
    if ps1.len() == 0 {
        assert(ps1.to_multiset().len() == 0);
        assert(ps2.len() == ps2.to_multiset().len());
        assert(ps2.len() == 0);
        assert(canon_records(ps1) =~= canon_records(ps2));
    } else {
        let x = ps1[0];
        assert(ps1.to_multiset().count(x) > 0) by {
            assert(ps1.contains(x));
        }
        assert(ps2.contains(x));
        let j = choose|j: int| 0 <= j < ps2.len() && ps2[j] == x;
        assert(ps1.remove(0) =~= ps1.drop_first());
        assert(ps1.drop_first().to_multiset() == ps1.to_multiset().remove(x));
        assert(ps2.remove(j).to_multiset() == ps2.to_multiset().remove(x));
        lemma_canon_records_multiset(ps1.drop_first(), ps2.remove(j));
        lemma_canon_records(ps2.remove(j));
        lemma_canon_records(ps1.drop_first());
        let c2 = canon_records(ps2);
        assert(canon_records(ps2.remove(j)) =~= c2.remove(j)) by {
            assert forall|i: int| 0 <= i < c2.remove(j).len() implies #[trigger] canon_records(
                ps2.remove(j),
            )[i] == c2.remove(j)[i] by {
                if i < j {
                    assert(ps2.remove(j)[i] == ps2[i]);
                } else {
                    assert(ps2.remove(j)[i] == ps2[i + 1]);
                }
            }
        }
        let fx = (enc(x.0, Mode::Canonical), enc(x.1, Mode::Canonical));
        assert(c2[j] == fx);
        assert(c2.to_multiset().count(fx) > 0) by {
            assert(c2.contains(fx));
        }
        assert(c2.remove(j).to_multiset() == c2.to_multiset().remove(fx));
        let c1 = canon_records(ps1);
        assert(c1 =~= seq![fx] + canon_records(ps1.drop_first()));
        assert(c1.remove(0) =~= canon_records(ps1.drop_first()));
        assert(c1.remove(0).to_multiset() == c1.to_multiset().remove(fx));
        assert(c1.to_multiset().count(fx) > 0) by {
            assert(c1.contains(fx));
        }
        assert(c1.to_multiset() =~= c1.to_multiset().remove(fx).insert(fx));
        assert(c2.to_multiset() =~= c2.to_multiset().remove(fx).insert(fx));
    }
}

/// Canonical encoding does not depend on the order in which a map's pairs were
/// inserted: two maps that hold the same pairs encode to the same bytes.
pub proof fn lemma_canonical_order_independent(
    ps1: Seq<(TermModel, TermModel)>,
    ps2: Seq<(TermModel, TermModel)>,
)
    requires
        ps1.to_multiset() == ps2.to_multiset(),
    ensures
        enc(TermModel::Dict(ps1), Mode::Canonical) == enc(TermModel::Dict(ps2), Mode::Canonical),
{
    broadcast use vstd::seq_lib::group_to_multiset_ensures;

    lemma_canon_records_multiset(ps1, ps2);
    let le = record_order();
    lemma_record_order_total();
    let r1 = canon_records(ps1);
    let r2 = canon_records(ps2);
    r1.lemma_sort_by_ensures(le);
    r2.lemma_sort_by_ensures(le);
    vstd::seq_lib::lemma_sorted_unique(r1.sort_by(le), r2.sort_by(le), le);
    assert(ps1.len() == ps1.to_multiset().len());
    assert(ps2.len() == ps2.to_multiset().len());
}

/// The value of an integer term, small or big.
pub open spec fn int_value(t: TermModel) -> int {
    match t {
        TermModel::Int(v) => v as int,
        TermModel::BigInt { negative, magnitude } => if negative {
            -le_value(magnitude)
        } else {
            le_value(magnitude) as int
        },
        _ => 0,
    }
}

/// A number term's value times `2^1080`, a whole number for every integer and float.
pub open spec fn scaled_value(t: TermModel) -> int {
    match t {
        TermModel::Float(bits) => float_scaled(bits),
        _ => int_value(t) * number_scale(),
    }
}

proof fn lemma_number_key(t: TermModel)
    requires
        is_number(t),
        wf(t),
    ensures
        key_rank(enc(t, Mode::Canonical)) == 1,
        key_number(enc(t, Mode::Canonical)) == 2 * scaled_value(t) + if t is Float {
            1int
        } else {
            0int
        },
{
    let e = enc(t, Mode::Canonical);
    match t {
        TermModel::Int(v) => {
            if 0 <= v <= 255 {
                assert(((v as u8) as int) == v);
            } else {
                assert(e.subrange(1, 5) =~= be32(v as u32));
                lemma_read32(v as u32, e, 1);
                assert(((v as u32) as i32) == v) by (bit_vector);
            }
            assert(int_key_value(e) == int_value(t));
        },
        TermModel::BigInt { negative, magnitude } => {
            if magnitude.len() <= 255 {
                assert(e.skip(3) =~= magnitude);
            } else {
                assert(e.skip(6) =~= magnitude);
            }
            assert(int_key_value(e) == int_value(t));
        },
        TermModel::Float(bits) => {
            assert(e.subrange(1, 9) =~= be64(bits));
            lemma_read64(bits, e, 1);
        },
        _ => {},
    }
}

/// Number keys sort by value, and an integer sorts before a float of the same value.
/// (`scaled_value` is the value times `2^1080`, so it orders numbers as their values do.)
pub proof fn lemma_numbers_by_value(a: TermModel, b: TermModel)
    requires
        is_number(a),
        is_number(b),
        wf(a),
        wf(b),
    ensures
        scaled_value(a) < scaled_value(b) ==> key_lt(
            enc(a, Mode::Canonical),
            enc(b, Mode::Canonical),
        ),
        scaled_value(a) == scaled_value(b) && !(a is Float) && b is Float ==> key_lt(
            enc(a, Mode::Canonical),
            enc(b, Mode::Canonical),
        ),
{
    lemma_number_key(a);
    lemma_number_key(b);
}

/// Integer keys, small or big, sort by value.
pub proof fn lemma_integers_by_value(a: TermModel, b: TermModel)
    requires
        a is Int || a is BigInt,
        b is Int || b is BigInt,
        wf(a),
        wf(b),
        int_value(a) < int_value(b),
    ensures
        key_lt(enc(a, Mode::Canonical), enc(b, Mode::Canonical)),
{
    lemma_pow2_pos(1080);
    let p = number_scale();
    assert(int_value(a) * p < int_value(b) * p) by (nonlinear_arith)
        requires
            int_value(a) < int_value(b),
            p >= 1,
    ;
    lemma_numbers_by_value(a, b);
}

pub open spec fn record_keys_distinct(s: Seq<Record>) -> bool {
    forall|i: int, j: int| 0 <= i < j < s.len() ==> (#[trigger] s[i]).0 != (#[trigger] s[j]).0
}

/// Reordering records keeps their keys distinct.
proof fn lemma_distinct_keys_permutation(s: Seq<Record>, t: Seq<Record>)
    requires
        record_keys_distinct(s),
        s.to_multiset() == t.to_multiset(),
    ensures
        record_keys_distinct(t),
    decreases t.len(),
{
    broadcast use vstd::seq_lib::group_to_multiset_ensures, vstd::multiset::group_multiset_axioms;

    if t.len() > 0 {
        let x = t[0];
        assert(t.to_multiset().count(x) > 0) by {
            assert(t.contains(x));
        }
        assert(s.contains(x));
        let k = choose|k: int| 0 <= k < s.len() && s[k] == x;
        let s2 = s.remove(k);
        assert(t.remove(0) =~= t.drop_first());
        assert(s2.to_multiset() == t.drop_first().to_multiset());
        assert(record_keys_distinct(s2)) by {
            assert forall|i: int, j: int| 0 <= i < j < s2.len() implies (#[trigger] s2[i]).0 != (
            #[trigger] s2[j]).0 by {
                let si = if i < k { i } else { i + 1 };
                let sj = if j < k { j } else { j + 1 };
                assert(s2[i] == s[si] && s2[j] == s[sj]);
            }
        }
        lemma_distinct_keys_permutation(s2, t.drop_first());
        assert forall|i: int, j: int| 0 <= i < j < t.len() implies (#[trigger] t[i]).0 != (
        #[trigger] t[j]).0 by {
            if i == 0 {
                let y = t[j];
                assert(t.drop_first()[j - 1] == y);
                assert(t.drop_first().contains(y));
                assert(s2.to_multiset().count(y) > 0);
                assert(s2.contains(y));
                let z = choose|z: int| 0 <= z < s2.len() && s2[z] == y;
                let sz = if z < k { z } else { z + 1 };
                assert(s[sz] == y && sz != k);
            } else {
                assert(t.drop_first()[i - 1] == t[i] && t.drop_first()[j - 1] == t[j]);
            }
        }
    }
}

/// The canonical encoding of a map whose keys are distinct lists its pairs in
/// strictly ascending key order.
pub proof fn lemma_canonical_keys_ascending(ps: Seq<(TermModel, TermModel)>)
    requires
        keys_distinct(ps),
    ensures
        ({
            let s = canon_records(ps).sort_by(record_order());
            &&& s.len() == ps.len()
            &&& forall|i: int, j: int| 0 <= i < j < s.len() ==> key_lt((#[trigger] s[i]).0, (#[trigger] s[j]).0)
        }),
{
    broadcast use vstd::seq_lib::group_to_multiset_ensures;

    reveal(keys_distinct);
    let c = canon_records(ps);
    let le = record_order();
    lemma_canon_records(ps);
    lemma_record_order_total();
    c.lemma_sort_by_ensures(le);
    let s = c.sort_by(le);
    assert(record_keys_distinct(c)) by {
        assert forall|i: int, j: int| 0 <= i < j < c.len() implies (#[trigger] c[i]).0 != (
        #[trigger] c[j]).0 by {
            assert(c[i].0 == enc(ps[i].0, Mode::Canonical));
            assert(c[j].0 == enc(ps[j].0, Mode::Canonical));
        }
    }
    lemma_distinct_keys_permutation(c, s);
    assert(s.len() == s.to_multiset().len());
    assert(c.len() == c.to_multiset().len());
    assert forall|i: int, j: int| 0 <= i < j < s.len() implies key_lt(
        (#[trigger] s[i]).0,
        (#[trigger] s[j]).0,
    ) by {
        assert(le(s[i], s[j]));
        assert(s[i].0 != s[j].0);
    }
}

} // verus!
