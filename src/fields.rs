//! Typed access to the named fields of a decoded map.
use vstd::prelude::*;
use crate::term::{lemma_view_pairs, view_pairs, Term, TermModel};
use crate::wire::lex_cmp;

verus! {

/// Whether a map key names the field `name`, as an atom or as a binary.
pub open spec fn key_names(k: TermModel, name: Seq<u8>) -> bool {
    match k {
        TermModel::Atom(n) => n == name,
        TermModel::Binary(n) => n == name,
        _ => false,
    }
}

/// The value of the first pair whose key names `name`.
pub open spec fn find_field(ps: Seq<(TermModel, TermModel)>, name: Seq<u8>) -> Option<TermModel>
    decreases ps.len(),
{
    if ps.len() == 0 {
        None
    } else if key_names(ps[0].0, name) {
        Some(ps[0].1)
    } else {
        find_field(ps.drop_first(), name)
    }
}

/// The unsigned value of an integer that is neither negative nor above `u64::MAX`.
pub open spec fn le_value(s: Seq<u8>) -> nat
    decreases s.len(),
{
    if s.len() == 0 {
        0
    } else {
        (s[0] + 256 * le_value(s.drop_first())) as nat
    }
}

pub open spec fn uint_of(t: TermModel) -> Option<u64> {
    match t {
        TermModel::Int(v) => if v >= 0 {
            Some(v as u64)
        } else {
            None
        },
        TermModel::BigInt { negative, magnitude } => if !negative && le_value(magnitude)
            <= u64::MAX {
            Some(le_value(magnitude) as u64)
        } else {
            None
        },
        _ => None,
    }
}

pub open spec fn uint_field(ps: Seq<(TermModel, TermModel)>, name: Seq<u8>) -> Option<u64> {
    match find_field(ps, name) {
        Some(t) => uint_of(t),
        None => None,
    }
}

fn key_names_exec(k: &Term, name: &Vec<u8>) -> (r: bool)
    ensures
        r == key_names(k@, name@),
{
    match k {
        Term::Atom(n) => lex_cmp(n, name) == 0,
        Term::Binary(n) => lex_cmp(n, name) == 0,
        _ => false,
    }
}

/// The index of the first pair whose key names `name`.
pub fn find_field_index(ps: &Vec<(Term, Term)>, name: &Vec<u8>) -> (r: Option<usize>)
    ensures
        match r {
            None => find_field(view_pairs(ps@), name@) is None,
            Some(i) => i < ps.len() && find_field(view_pairs(ps@), name@) == Some(ps@[i as int].1@),
        },
{
    let ghost ms = view_pairs(ps@);
    proof {
        lemma_view_pairs(ps@);
        assert(ms.skip(0) =~= ms);
    }
    let mut i: usize = 0;
    while i < ps.len()
        invariant
            i <= ps.len(),
            ms == view_pairs(ps@),
            ms.len() == ps.len(),
            forall|j: int| 0 <= j < ps.len() ==> #[trigger] ms[j] == (ps@[j].0@, ps@[j].1@),
            find_field(ms, name@) == find_field(ms.skip(i as int), name@),
        decreases ps.len() - i,
    {
        assert(ms.skip(i as int)[0] == ms[i as int]);
        if key_names_exec(&ps[i].0, name) {
            return Some(i);
        }
        assert(ms.skip(i as int).drop_first() =~= ms.skip(i + 1));
        i += 1;
    }
    None
}

pub proof fn lemma_le_value_suffix(s: Seq<u8>, k: int)
    requires
        0 <= k <= s.len(),
    ensures
        le_value(s) >= le_value(s.skip(k)),
    decreases k,
{
    if k > 0 {
        lemma_le_value_suffix(s.drop_first(), k - 1);
        assert(s.drop_first().skip(k - 1) =~= s.skip(k));
    } else {
        assert(s.skip(0) =~= s);
    }
}

/// The unsigned value of an integer term, where it fits in 64 bits.
pub fn uint_value(t: &Term) -> (r: Option<u64>)
    ensures
        r == uint_of(t@),
{
    match t {
        Term::Int(v) => if *v >= 0 {
            Some(*v as u64)
        } else {
            None
        },
        Term::BigInt { negative, magnitude } => {
            if *negative {
                return None;
            }
            let mut acc: u64 = 0;
            let mut i: usize = magnitude.len();
            proof {
                assert(magnitude@.skip(magnitude.len() as int) =~= Seq::<u8>::empty());
            }
            while i > 0
                invariant
                    i <= magnitude.len(),
                    acc as nat == le_value(magnitude@.skip(i as int)),
                    uint_of(t@) == (if le_value(magnitude@) <= u64::MAX {
                        Some(le_value(magnitude@) as u64)
                    } else {
                        None
                    }),
                decreases i,
            {
                let b = magnitude[i - 1];
                proof {
                    assert(magnitude@.skip(i - 1).drop_first() =~= magnitude@.skip(i as int));
                }
                if acc > (u64::MAX - b as u64) / 256 {
                    proof {
                        assert(magnitude@.skip(i - 1)[0] == b);
                        assert(le_value(magnitude@.skip(i - 1)) == b + 256 * le_value(
                            magnitude@.skip(i as int),
                        ));
                        assert(acc * 256 + b > u64::MAX) by (nonlinear_arith)
                            requires
                                acc > (u64::MAX - b as u64) / 256,
                                b <= 255,
                        ;
                        lemma_le_value_suffix(magnitude@, i - 1);
                        assert(le_value(magnitude@) > u64::MAX);
                    }
                    return None;
                }
                proof {
                    assert(acc * 256 + b <= u64::MAX) by (nonlinear_arith)
                        requires
                            acc <= (u64::MAX - b as u64) / 256,
                            b <= 255,
                    ;
                }
                proof {
                    assert(magnitude@.skip(i - 1)[0] == b);
                }
                acc = acc * 256 + b as u64;
                i -= 1;
            }
            assert(magnitude@.skip(0) =~= magnitude@);
            Some(acc)
        },
        _ => None,
    }
}

/// The unsigned value of the named integer field.
pub fn uint_field_of(ps: &Vec<(Term, Term)>, name: &Vec<u8>) -> (r: Option<u64>)
    ensures
        r == uint_field(view_pairs(ps@), name@),
{
    match find_field_index(ps, name) {
        Some(i) => uint_value(&ps[i].1),
        None => None,
    }
}

} // verus!
