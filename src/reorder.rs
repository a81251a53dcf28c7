//! Canonical encoding depends on the pairs of a map, at any depth, and not on their order.
use vstd::prelude::*;
use crate::canonical::lemma_canonical_order_independent;
use crate::encode::{canon_records, enc, enc_all, Mode};
use crate::term::TermModel;

verus! {

/// `a` and `b` are the same term up to the order of the pairs of their maps, at
/// any depth.
pub open spec fn same_up_to_order(a: TermModel, b: TermModel) -> bool
    decreases a,
{
    match a {
        TermModel::List(v) => b matches TermModel::List(w) && all_same(v, w),
        TermModel::ImproperList { elements, tail } => b matches TermModel::ImproperList {
            elements: e2,
            tail: t2,
        } && all_same(elements, e2) && same_up_to_order(*tail, *t2),
        TermModel::Tuple(v) => b matches TermModel::Tuple(w) && all_same(v, w),
        TermModel::Dict(ps) => b matches TermModel::Dict(qs) && exists|rs: Seq<
            (TermModel, TermModel),
        >| #[trigger] rs.to_multiset() == qs.to_multiset() && pairs_same(ps, rs),
        TermModel::OldFun { pid, module, index, uniq, free_vars } => b matches TermModel::OldFun {
            pid: p2,
            module: m2,
            index: i2,
            uniq: u2,
            free_vars: f2,
        } && pid == p2 && module == m2 && index == i2 && uniq == u2 && all_same(free_vars, f2),
        TermModel::NewFun { arity, uniq, index, module, old_index, old_uniq, pid, free_vars } =>
            b matches TermModel::NewFun {
            arity: a2,
            uniq: u2,
            index: i2,
            module: m2,
            old_index: o2,
            old_uniq: ou2,
            pid: p2,
            free_vars: f2,
        } && arity == a2 && uniq == u2 && index == i2 && module == m2 && old_index == o2
            && old_uniq == ou2 && pid == p2 && all_same(free_vars, f2),
        _ => a == b,
    }
}

/// Elementwise `same_up_to_order`.
pub open spec fn all_same(v: Seq<TermModel>, w: Seq<TermModel>) -> bool
    decreases v,
{
    v.len() == w.len() && (v.len() == 0 || (same_up_to_order(v[0], w[0]) && all_same(
        v.drop_first(),
        w.drop_first(),
    )))
}

/// Pairwise `same_up_to_order`, keys with keys and values with values.
pub open spec fn pairs_same(ps: Seq<(TermModel, TermModel)>, rs: Seq<(TermModel, TermModel)>) -> bool
    decreases ps,
{
    ps.len() == rs.len() && (ps.len() == 0 || (same_up_to_order(ps[0].0, rs[0].0)
        && same_up_to_order(ps[0].1, rs[0].1) && pairs_same(ps.drop_first(), rs.drop_first())))
}

proof fn lemma_all_same_enc(v: Seq<TermModel>, w: Seq<TermModel>)
    requires
        all_same(v, w),
    ensures
        enc_all(v, Mode::Canonical) == enc_all(w, Mode::Canonical),
    decreases v, 0nat,
{
    if v.len() > 0 {
        lemma_same_enc(v[0], w[0]);
        lemma_all_same_enc(v.drop_first(), w.drop_first());
    }
}

proof fn lemma_pairs_same_records(ps: Seq<(TermModel, TermModel)>, rs: Seq<(TermModel, TermModel)>)
    requires
        pairs_same(ps, rs),
    ensures
        canon_records(ps) == canon_records(rs),
    decreases ps, 0nat,
{
    if ps.len() > 0 {
        lemma_same_enc(ps[0].0, rs[0].0);
        lemma_same_enc(ps[0].1, rs[0].1);
        lemma_pairs_same_records(ps.drop_first(), rs.drop_first());
    } else {
        assert(rs.len() == 0);
    }
}

/// Terms that differ only in the order in which pairs were put into their maps, at any
/// depth, have the same canonical encoding.
pub proof fn lemma_same_enc(a: TermModel, b: TermModel)
    requires
        same_up_to_order(a, b),
    ensures
        enc(a, Mode::Canonical) == enc(b, Mode::Canonical),
    decreases a, 1nat,
{
    reveal_with_fuel(same_up_to_order, 2);
    match a {
        TermModel::List(v) => {
            let w = b->List_0;
            assert(b == TermModel::List(w));
            lemma_all_same_enc(v, w);
            assert(v.len() == w.len());
        },
        TermModel::ImproperList { elements, tail } => {
            lemma_all_same_enc(elements, b->ImproperList_elements);
            lemma_same_enc(*tail, *b->ImproperList_tail);
        },
        TermModel::Tuple(v) => {
            lemma_all_same_enc(v, b->Tuple_0);
        },
        TermModel::Dict(ps) => {
            let qs = b->Dict_0;
            assert(b == TermModel::Dict(qs));
            assert(exists|rs: Seq<(TermModel, TermModel)>|
                #[trigger] rs.to_multiset() == qs.to_multiset() && pairs_same(ps, rs));
            let rs = choose|rs: Seq<(TermModel, TermModel)>|
                #[trigger] rs.to_multiset() == qs.to_multiset() && pairs_same(ps, rs);
            lemma_pairs_same_records(ps, rs);
            lemma_canonical_order_independent(rs, qs);
            assert(ps.len() == rs.len());
        },
        TermModel::OldFun { free_vars, .. } => {
            lemma_all_same_enc(free_vars, b->OldFun_free_vars);
        },
        TermModel::NewFun { free_vars, .. } => {
            lemma_all_same_enc(free_vars, b->NewFun_free_vars);
        },
        _ => {},
    }
}

} // verus!
