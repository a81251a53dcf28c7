//! The three encoders: native, safe (no legacy atom tag) and canonical
//! (safe, with every map's pairs in the canonical key order).
use vstd::prelude::*;
use vstd::multiset::Multiset;
use vstd::relations::*;
use crate::order::{record_less, record_lt, record_order, lemma_record_order_total, Record};
use crate::term::{
    atom_name_ok, lemma_view_all, lemma_view_pairs, pid_ok, view_all, view_pairs, view_term, wf,
    wf_all, wf_pairs, Pid, PidModel, Term, TermModel,
};
use crate::wire::{be16, be32, be32_all, be64, push16, push32, push64, push_bytes};

verus! {

/// How a term is written.
#[derive(Clone, Copy, Debug, PartialEq, Eq, Structural)]
pub enum Mode {
    /// Atoms take the legacy atom tag; map pairs keep their order.
    Native,
    /// Atoms take the small or long UTF-8 atom tag; map pairs keep their order.
    Safe,
    /// As `Safe`, with the pairs of every map sorted in the canonical key order.
    Canonical,
}

pub open spec fn atom_enc(name: Seq<u8>, mode: Mode) -> Seq<u8> {
    if mode == Mode::Native {
        seq![100u8] + be16(name.len() as u16) + name
    } else if name.len() <= 255 {
        seq![119u8, name.len() as u8] + name
    } else {
        seq![118u8] + be16(name.len() as u16) + name
    }
}

pub open spec fn int_enc(v: i32) -> Seq<u8> {
    if 0 <= v <= 255 {
        seq![97u8, v as u8]
    } else {
        seq![98u8] + be32(v as u32)
    }
}

pub open spec fn pid_enc(p: PidModel, mode: Mode) -> Seq<u8> {
    seq![103u8] + atom_enc(p.node, mode) + be32(p.id) + be32(p.serial) + seq![p.creation]
}

pub open spec fn sign_byte(negative: bool) -> u8 {
    if negative {
        1
    } else {
        0
    }
}

/// The encoded pairs of a map, key then value, in order.
pub open spec fn enc_pairs(s: Seq<(TermModel, TermModel)>, mode: Mode) -> Seq<u8>
    decreases s,
{
    if s.len() == 0 {
        Seq::empty()
    } else {
        enc(s[0].0, mode) + enc(s[0].1, mode) + enc_pairs(s.drop_first(), mode)
    }
}

/// The canonical encodings of a map's pairs, in the map's order.
pub open spec fn canon_records(s: Seq<(TermModel, TermModel)>) -> Seq<Record>
    decreases s,
{
    if s.len() == 0 {
        Seq::empty()
    } else {
        seq![(enc(s[0].0, Mode::Canonical), enc(s[0].1, Mode::Canonical))] + canon_records(
            s.drop_first(),
        )
    }
}

pub open spec fn join_records(s: Seq<Record>) -> Seq<u8>
    decreases s.len(),
{
    if s.len() == 0 {
        Seq::empty()
    } else {
        s[0].0 + s[0].1 + join_records(s.drop_first())
    }
}

pub open spec fn enc_all(s: Seq<TermModel>, mode: Mode) -> Seq<u8>
    decreases s,
{
    if s.len() == 0 {
        Seq::empty()
    } else {
        enc(s[0], mode) + enc_all(s.drop_first(), mode)
    }
}

/// The bytes of a map's pairs under `mode`.
pub open spec fn map_body(ps: Seq<(TermModel, TermModel)>, mode: Mode) -> Seq<u8> {
    if mode == Mode::Canonical {
        join_records(canon_records(ps).sort_by(record_order()))
    } else {
        enc_pairs(ps, mode)
    }
}

/// The part of a new-style fun that follows its size field.
pub open spec fn new_fun_rest(
    arity: u8,
    uniq: Seq<u8>,
    index: u32,
    module: Seq<u8>,
    old_index: i32,
    old_uniq: i32,
    pid: PidModel,
    free_count: nat,
    free_bytes: Seq<u8>,
    mode: Mode,
) -> Seq<u8> {
    seq![arity] + uniq + be32(index) + be32(free_count as u32) + atom_enc(module, mode) + int_enc(
        old_index,
    ) + int_enc(old_uniq) + pid_enc(pid, mode) + free_bytes
}

/// The encoding of a term, without the version marker.
pub open spec fn enc(t: TermModel, mode: Mode) -> Seq<u8>
    decreases t,
{
    match t {
        TermModel::Atom(n) => atom_enc(n, mode),
        TermModel::Int(v) => int_enc(v),
        TermModel::BigInt { negative, magnitude } => if magnitude.len() <= 255 {
            seq![110u8, magnitude.len() as u8, sign_byte(negative)] + magnitude
        } else {
            seq![111u8] + be32(magnitude.len() as u32) + seq![sign_byte(negative)] + magnitude
        },
        TermModel::Float(b) => seq![70u8] + be64(b),
        TermModel::Binary(b) => seq![109u8] + be32(b.len() as u32) + b,
        TermModel::BitBinary { bytes, tail_bits } => seq![77u8] + be32(bytes.len() as u32)
            + seq![tail_bits] + bytes,
        TermModel::ByteList(b) => seq![107u8] + be16(b.len() as u16) + b,
        TermModel::List(v) => if v.len() == 0 {
            seq![106u8]
        } else {
            seq![108u8] + be32(v.len() as u32) + enc_all(v, mode) + seq![106u8]
        },
        TermModel::ImproperList { elements, tail } => seq![108u8] + be32(elements.len() as u32)
            + enc_all(elements, mode) + enc(*tail, mode),
        TermModel::Tuple(v) => if v.len() <= 255 {
            seq![104u8, v.len() as u8] + enc_all(v, mode)
        } else {
            seq![105u8] + be32(v.len() as u32) + enc_all(v, mode)
        },
        TermModel::Dict(ps) => seq![116u8] + be32(ps.len() as u32) + if mode == Mode::Canonical {
            join_records(canon_records(ps).sort_by(record_order()))
        } else {
            enc_pairs(ps, mode)
        },
        TermModel::Pid(p) => pid_enc(p, mode),
        TermModel::Port { node, id, creation } => seq![102u8] + atom_enc(node, mode) + be32(id)
            + seq![creation],
        TermModel::Reference { node, creation, ids } => seq![114u8] + be16(ids.len() as u16)
            + atom_enc(node, mode) + seq![creation] + be32_all(ids),
        TermModel::ExternalFun { module, function, arity } => seq![113u8] + atom_enc(module, mode)
            + atom_enc(function, mode) + seq![97u8, arity],
        TermModel::OldFun { pid, module, index, uniq, free_vars } => seq![117u8] + be32(
            free_vars.len() as u32,
        ) + pid_enc(pid, mode) + atom_enc(module, mode) + int_enc(index) + int_enc(uniq) + enc_all(
            free_vars,
            mode,
        ),
        TermModel::NewFun { arity, uniq, index, module, old_index, old_uniq, pid, free_vars } => {
            let rest = new_fun_rest(
                arity,
                uniq,
                index,
                module,
                old_index,
                old_uniq,
                pid,
                free_vars.len(),
                enc_all(free_vars, mode),
                mode,
            );
            seq![112u8] + be32((((rest.len() as int) % 0x1_0000_0000) + 4) as u32) + rest
        },
    }
}

pub proof fn lemma_enc_all_push(s: Seq<TermModel>, x: TermModel, mode: Mode)
    ensures
        enc_all(s.push(x), mode) == enc_all(s, mode) + enc(x, mode),
    decreases s.len(),
{
    if s.len() == 0 {
        assert(s.push(x).drop_first() =~= Seq::<TermModel>::empty());
        assert(s.push(x)[0] == x);
        assert(enc_all(Seq::<TermModel>::empty(), mode) =~= Seq::empty());
        assert(enc_all(s.push(x), mode) =~= enc_all(s, mode) + enc(x, mode));
    } else {
        lemma_enc_all_push(s.drop_first(), x, mode);
        assert(s.push(x).drop_first() =~= s.drop_first().push(x));
        assert(s.push(x)[0] == s[0]);
        assert(enc_all(s.push(x), mode) =~= enc_all(s, mode) + enc(x, mode));
    }
}

pub proof fn lemma_enc_pairs_push(s: Seq<(TermModel, TermModel)>, x: (TermModel, TermModel), mode: Mode)
    ensures
        enc_pairs(s.push(x), mode) == enc_pairs(s, mode) + enc(x.0, mode) + enc(x.1, mode),
    decreases s.len(),
{
    if s.len() == 0 {
        assert(s.push(x).drop_first() =~= Seq::<(TermModel, TermModel)>::empty());
        assert(s.push(x)[0] == x);
        assert(enc_pairs(Seq::<(TermModel, TermModel)>::empty(), mode) =~= Seq::empty());
        assert(enc_pairs(s.push(x), mode) =~= enc_pairs(s, mode) + enc(x.0, mode) + enc(x.1, mode));
    } else {
        lemma_enc_pairs_push(s.drop_first(), x, mode);
        assert(s.push(x).drop_first() =~= s.drop_first().push(x));
        assert(s.push(x)[0] == s[0]);
        assert(enc_pairs(s.push(x), mode) =~= enc_pairs(s, mode) + enc(x.0, mode) + enc(x.1, mode));
    }
}

pub proof fn lemma_join_push(s: Seq<Record>, x: Record)
    ensures
        join_records(s.push(x)) == join_records(s) + x.0 + x.1,
    decreases s.len(),
{
    if s.len() == 0 {
        assert(s.push(x).drop_first() =~= Seq::<Record>::empty());
        assert(s.push(x)[0] == x);
        assert(join_records(Seq::<Record>::empty()) =~= Seq::empty());
        assert(join_records(s.push(x)) =~= join_records(s) + x.0 + x.1);
    } else {
        lemma_join_push(s.drop_first(), x);
        assert(s.push(x).drop_first() =~= s.drop_first().push(x));
        assert(s.push(x)[0] == s[0]);
        assert(join_records(s.push(x)) =~= join_records(s) + x.0 + x.1);
    }
}

pub proof fn lemma_canon_records(s: Seq<(TermModel, TermModel)>)
    ensures
        canon_records(s).len() == s.len(),
        forall|i: int|
            0 <= i < s.len() ==> #[trigger] canon_records(s)[i] == (
                enc(s[i].0, Mode::Canonical),
                enc(s[i].1, Mode::Canonical),
            ),
    decreases s.len(),
{
    if s.len() > 0 {
        lemma_canon_records(s.drop_first());
        assert forall|i: int| 0 <= i < s.len() implies #[trigger] canon_records(s)[i] == (
            enc(s[i].0, Mode::Canonical),
            enc(s[i].1, Mode::Canonical),
        ) by {
            if i > 0 {
                assert(s.drop_first()[i - 1] == s[i]);
            }
        }
    }
}

pub fn encode_atom(name: &Vec<u8>, mode: Mode, buf: &mut Vec<u8>)
    requires
        atom_name_ok(name@),
    ensures
        final(buf)@ == old(buf)@ + atom_enc(name@, mode),
{
    if mode == Mode::Native {
        buf.push(100u8);
        push16(buf, name.len() as u16);
    } else if name.len() <= 255 {
        buf.push(119u8);
        buf.push(name.len() as u8);
    } else {
        buf.push(118u8);
        push16(buf, name.len() as u16);
    }
    push_bytes(buf, name);
    assert(final(buf)@ =~= old(buf)@ + atom_enc(name@, mode));
}

pub fn encode_int(v: i32, buf: &mut Vec<u8>)
    ensures
        final(buf)@ == old(buf)@ + int_enc(v),
{
    if 0 <= v && v <= 255 {
        buf.push(97u8);
        buf.push(v as u8);
    } else {
        buf.push(98u8);
        push32(buf, v as u32);
    }
    assert(final(buf)@ =~= old(buf)@ + int_enc(v));
}

pub fn encode_pid(p: &Pid, mode: Mode, buf: &mut Vec<u8>)
    requires
        pid_ok(p@),
    ensures
        final(buf)@ == old(buf)@ + pid_enc(p@, mode),
{
    buf.push(103u8);
    encode_atom(&p.node, mode, buf);
    push32(buf, p.id);
    push32(buf, p.serial);
    buf.push(p.creation);
    assert(final(buf)@ =~= old(buf)@ + pid_enc(p@, mode));
}

fn encode_elements(v: &Vec<Term>, mode: Mode, buf: &mut Vec<u8>)
    requires
        wf_all(view_all(v@)),
    ensures
        final(buf)@ == old(buf)@ + enc_all(view_all(v@), mode),
    decreases v, 0nat,
{
    proof {
        lemma_view_all(v@);
        lemma_wf_all(view_all(v@));
    }
    let ghost ms = view_all(v@);
    let mut i: usize = 0;
    while i < v.len()
        invariant
            i <= v.len(),
            ms == view_all(v@),
            ms.len() == v.len(),
            forall|j: int| 0 <= j < v.len() ==> #[trigger] ms[j] == view_term(v@[j]),
            forall|j: int| 0 <= j < ms.len() ==> wf(#[trigger] ms[j]),
            buf@ == old(buf)@ + enc_all(ms.take(i as int), mode),
        decreases v.len() - i,
    {
        proof {
            assert(decreases_to!(*v => v[i as int]));
        }
        encode_into(&v[i], mode, buf);
        proof {
            lemma_enc_all_push(ms.take(i as int), ms[i as int], mode);
            assert(ms.take(i + 1) =~= ms.take(i as int).push(ms[i as int]));
        }
        i += 1;
    }
    assert(ms.take(v.len() as int) =~= ms);
}

pub proof fn lemma_wf_all(s: Seq<TermModel>)
    requires
        wf_all(s),
    ensures
        forall|j: int| 0 <= j < s.len() ==> wf(#[trigger] s[j]),
    decreases s.len(),
{
    if s.len() > 0 {
        lemma_wf_all(s.drop_first());
        assert forall|j: int| 0 <= j < s.len() implies wf(#[trigger] s[j]) by {
            if j > 0 {
                assert(s.drop_first()[j - 1] == s[j]);
            }
        }
    }
}

pub proof fn lemma_wf_pairs(s: Seq<(TermModel, TermModel)>)
    requires
        wf_pairs(s),
    ensures
        forall|j: int| 0 <= j < s.len() ==> wf(#[trigger] s[j].0) && wf(s[j].1),
    decreases s.len(),
{
    if s.len() > 0 {
        lemma_wf_pairs(s.drop_first());
        assert forall|j: int| 0 <= j < s.len() implies wf(#[trigger] s[j].0) && wf(s[j].1) by {
            if j > 0 {
                assert(s.drop_first()[j - 1] == s[j]);
            }
        }
    }
}

pub open spec fn rec_views(s: Seq<(Vec<u8>, Vec<u8>)>) -> Seq<Record> {
    s.map_values(|r: (Vec<u8>, Vec<u8>)| (r.0@, r.1@))
}

/// Sorts encoded map pairs into the canonical order.
fn sort_records(v: Vec<(Vec<u8>, Vec<u8>)>) -> (r: Vec<(Vec<u8>, Vec<u8>)>)
    ensures
        rec_views(r@) == rec_views(v@).sort_by(record_order()),
{
    let ghost orig = rec_views(v@);
    let mut rest = v;
    let mut out: Vec<(Vec<u8>, Vec<u8>)> = Vec::new();
    proof {
        broadcast use vstd::seq_lib::group_to_multiset_ensures, vstd::multiset::group_multiset_axioms;
        lemma_record_order_total();
        assert(rec_views(out@) =~= Seq::<Record>::empty());
        assert(rec_views(out@).to_multiset() =~= Multiset::empty());
        assert(rec_views(rest@) == orig);
        assert(rec_views(out@).to_multiset().add(rec_views(rest@).to_multiset()) =~= orig.to_multiset());
    }
    while rest.len() > 0
        invariant
            total_ordering(record_order()),
            rec_views(out@).to_multiset().add(rec_views(rest@).to_multiset()) == orig.to_multiset(),
            sorted_by(rec_views(out@), record_order()),
        decreases rest.len(),
    {
        let ghost before_rest = rest@;
        let x = rest.pop().unwrap();
        proof {
            assert(before_rest =~= rest@.push(x));
            assert(rec_views(before_rest) =~= rec_views(rest@).push((x.0@, x.1@)));
            rec_views(rest@).to_multiset_ensures();
        }
        let mut p: usize = 0;
        while p < out.len() && !record_less(&x, &out[p])
            invariant
                p <= out.len(),
                forall|j: int| 0 <= j < p ==> !record_lt((x.0@, x.1@), #[trigger] rec_views(out@)[j]),
            decreases out.len() - p,
        {
            p += 1;
        }
        let ghost old_out = rec_views(out@);
        let ghost xv = (x.0@, x.1@);
        out.insert(p, x);
        proof {
            let le = record_order();
            let nv = rec_views(out@);
            assert(nv =~= old_out.insert(p as int, xv));
            old_out.insert_ensures(p as int, xv);
            // before p: elements are at most x; from p on: greater than x
            assert forall|j: int| 0 <= j < p implies #[trigger] le(old_out[j], xv) by {
                assert(!record_lt(xv, old_out[j]));
                assert(le(old_out[j], xv) || le(xv, old_out[j]));
            }
            if p < old_out.len() {
                assert(record_lt(xv, old_out[p as int]));
                assert forall|j: int| p <= j < old_out.len() implies #[trigger] le(xv, old_out[j]) by {
                    assert(le(xv, old_out[p as int]));
                    if j > p {
                        assert(le(old_out[p as int], old_out[j]));
                    }
                }
            }
            assert forall|i: int, j: int| 0 <= i < j < nv.len() implies #[trigger] le(nv[i], nv[j]) by {
                if j < p {
                    assert(nv[i] == old_out[i] && nv[j] == old_out[j]);
                } else if j == p {
                    assert(nv[i] == old_out[i]);
                } else if i < p {
                    assert(nv[i] == old_out[i] && nv[j] == old_out[j - 1]);
                    assert(le(old_out[i], xv));
                    assert(le(xv, old_out[j - 1]));
                } else if i == p {
                    assert(nv[j] == old_out[j - 1]);
                } else {
                    assert(nv[i] == old_out[i - 1] && nv[j] == old_out[j - 1]);
                }
            }
            assert(nv.remove(p as int) =~= old_out);
            nv.to_multiset_ensures();
            assert(nv[p as int] == xv);
            assert(nv.to_multiset() =~= old_out.to_multiset().insert(xv)) by {
                assert(nv.to_multiset().count(xv) > 0) by {
                    assert(nv.contains(xv));
                }
            }
            broadcast use vstd::multiset::group_multiset_axioms;
            assert(rec_views(before_rest).to_multiset() =~= rec_views(rest@).to_multiset().insert(xv));
            assert(nv.to_multiset().add(rec_views(rest@).to_multiset()) =~= old_out.to_multiset().add(
                rec_views(before_rest).to_multiset(),
            ));
        }
    }
    proof {
        broadcast use vstd::seq_lib::group_to_multiset_ensures, vstd::multiset::group_multiset_axioms;
        assert(rec_views(rest@) =~= Seq::<Record>::empty());
        assert(rec_views(rest@).to_multiset() =~= Multiset::empty());
        assert(rec_views(out@).to_multiset() =~= orig.to_multiset());
        orig.lemma_sort_by_ensures(record_order());
        vstd::seq_lib::lemma_sorted_unique(rec_views(out@), orig.sort_by(record_order()), record_order());
    }
    out
}

fn encode_map(ps: &Vec<(Term, Term)>, mode: Mode, buf: &mut Vec<u8>)
    requires
        wf_pairs(view_pairs(ps@)),
    ensures
        final(buf)@ == old(buf)@ + map_body(view_pairs(ps@), mode),
    decreases ps, 0nat,
{
    proof {
        lemma_view_pairs(ps@);
        lemma_wf_pairs(view_pairs(ps@));
    }
    let ghost ms = view_pairs(ps@);
    if mode == Mode::Canonical {
        let mut recs: Vec<(Vec<u8>, Vec<u8>)> = Vec::new();
        let mut i: usize = 0;
        proof {
            lemma_canon_records(ms);
        }
        while i < ps.len()
            invariant
                i <= ps.len(),
                ms == view_pairs(ps@),
                ms.len() == ps.len(),
                forall|j: int| 0 <= j < ps.len() ==> #[trigger] ms[j] == (view_term(ps@[j].0), view_term(ps@[j].1)),
                forall|j: int| 0 <= j < ms.len() ==> wf(#[trigger] ms[j].0) && wf(ms[j].1),
                canon_records(ms).len() == ms.len(),
                forall|j: int| 0 <= j < ms.len() ==> #[trigger] canon_records(ms)[j] == (
                    enc(ms[j].0, Mode::Canonical),
                    enc(ms[j].1, Mode::Canonical),
                ),
                rec_views(recs@) == canon_records(ms).take(i as int),
            decreases ps.len() - i,
        {
            proof {
                assert(decreases_to!(*ps => ps[i as int]));
                assert(decreases_to!(ps[i as int] => ps[i as int].0));
                assert(decreases_to!(ps[i as int] => ps[i as int].1));
            }
            assert(ms[i as int] == (view_term(ps@[i as int].0), view_term(ps@[i as int].1)));
            assert(wf(ms[i as int].0) && wf(ms[i as int].1));
            let mut kb: Vec<u8> = Vec::new();
            encode_into(&ps[i].0, Mode::Canonical, &mut kb);
            let mut vb: Vec<u8> = Vec::new();
            encode_into(&ps[i].1, Mode::Canonical, &mut vb);
            let ghost prev = recs@;
            recs.push((kb, vb));
            proof {
                assert(rec_views(recs@) =~= rec_views(prev).push(
                    (enc(ms[i as int].0, Mode::Canonical), enc(ms[i as int].1, Mode::Canonical)),
                ));
                assert(canon_records(ms).take(i + 1) =~= canon_records(ms).take(i as int).push(
                    canon_records(ms)[i as int],
                ));
            }
            i += 1;
        }
        assert(canon_records(ms).take(ps.len() as int) =~= canon_records(ms));
        let sorted = sort_records(recs);
        let ghost sv = rec_views(sorted@);
        let mut k: usize = 0;
        while k < sorted.len()
            invariant
                k <= sorted.len(),
                sv == rec_views(sorted@),
                buf@ == old(buf)@ + join_records(sv.take(k as int)),
            decreases sorted.len() - k,
        {
            push_bytes(buf, &sorted[k].0);
            push_bytes(buf, &sorted[k].1);
            proof {
                lemma_join_push(sv.take(k as int), sv[k as int]);
                assert(sv.take(k + 1) =~= sv.take(k as int).push(sv[k as int]));
            }
            k += 1;
        }
        assert(sv.take(sorted.len() as int) =~= sv);
    } else {
        let mut i: usize = 0;
        while i < ps.len()
            invariant
                i <= ps.len(),
                mode != Mode::Canonical,
                ms == view_pairs(ps@),
                ms.len() == ps.len(),
                forall|j: int| 0 <= j < ps.len() ==> #[trigger] ms[j] == (view_term(ps@[j].0), view_term(ps@[j].1)),
                forall|j: int| 0 <= j < ms.len() ==> wf(#[trigger] ms[j].0) && wf(ms[j].1),
                buf@ == old(buf)@ + enc_pairs(ms.take(i as int), mode),
            decreases ps.len() - i,
        {
            proof {
                assert(decreases_to!(*ps => ps[i as int]));
                assert(decreases_to!(ps[i as int] => ps[i as int].0));
                assert(decreases_to!(ps[i as int] => ps[i as int].1));
            }
            assert(ms[i as int] == (view_term(ps@[i as int].0), view_term(ps@[i as int].1)));
            assert(wf(ms[i as int].0) && wf(ms[i as int].1));
            encode_into(&ps[i].0, mode, buf);
            encode_into(&ps[i].1, mode, buf);
            proof {
                lemma_enc_pairs_push(ms.take(i as int), ms[i as int], mode);
                assert(ms.take(i + 1) =~= ms.take(i as int).push(ms[i as int]));
            }
            i += 1;
        }
        assert(ms.take(ps.len() as int) =~= ms);
    }
}

/// Appends the encoding of `t` (without the version marker) to `buf`.
/// Appends the encoding of a term that holds no other term.
#[verifier::spinoff_prover]
#[verifier::rlimit(60)]
fn encode_flat(t: &Term, mode: Mode, buf: &mut Vec<u8>)
    requires
        wf(t@),
        !(t is List || t is ImproperList || t is Tuple || t is Dict || t is OldFun || t is NewFun),
    ensures
        final(buf)@ == old(buf)@ + enc(t@, mode),
{
    match t {
        Term::Atom(n) => {
            encode_atom(n, mode, buf);
            assert(buf@ =~= old(buf)@ + enc(t@, mode));
        },
        Term::Int(v) => {
            encode_int(*v, buf);
            assert(buf@ =~= old(buf)@ + enc(t@, mode));
        },
        Term::BigInt { negative, magnitude } => {
            if magnitude.len() <= 255 {
                buf.push(110u8);
                buf.push(magnitude.len() as u8);
            } else {
                buf.push(111u8);
                push32(buf, magnitude.len() as u32);
            }
            buf.push(if *negative { 1u8 } else { 0u8 });
            push_bytes(buf, magnitude);
            assert(buf@ =~= old(buf)@ + enc(t@, mode));
        },
        Term::Float(b) => {
            buf.push(70u8);
            push64(buf, *b);
            assert(buf@ =~= old(buf)@ + enc(t@, mode));
        },
        Term::Binary(b) => {
            buf.push(109u8);
            push32(buf, b.len() as u32);
            push_bytes(buf, b);
            assert(buf@ =~= old(buf)@ + enc(t@, mode));
        },
        Term::BitBinary { bytes, tail_bits } => {
            buf.push(77u8);
            push32(buf, bytes.len() as u32);
            buf.push(*tail_bits);
            push_bytes(buf, bytes);
            assert(buf@ =~= old(buf)@ + enc(t@, mode));
        },
        Term::ByteList(b) => {
            buf.push(107u8);
            push16(buf, b.len() as u16);
            push_bytes(buf, b);
            assert(buf@ =~= old(buf)@ + enc(t@, mode));
        },
        Term::Pid(p) => {
            encode_pid(p, mode, buf);
            assert(buf@ =~= old(buf)@ + enc(t@, mode));
        },
        Term::Port { node, id, creation } => {
            buf.push(102u8);
            encode_atom(node, mode, buf);
            push32(buf, *id);
            buf.push(*creation);
            assert(buf@ =~= old(buf)@ + enc(t@, mode));
        },
        Term::Reference { node, creation, ids } => {
            buf.push(114u8);
            push16(buf, ids.len() as u16);
            encode_atom(node, mode, buf);
            buf.push(*creation);
            let mut i: usize = 0;
            let ghost start = buf@;
            while i < ids.len()
                invariant
                    i <= ids.len(),
                    buf@ == start + be32_all(ids@.take(i as int)),
                decreases ids.len() - i,
            {
                push32(buf, ids[i]);
                proof {
                    lemma_be32_all_push(ids@.take(i as int), ids@[i as int]);
                    assert(ids@.take(i + 1) =~= ids@.take(i as int).push(ids@[i as int]));
                }
                i += 1;
            }
            assert(ids@.take(ids.len() as int) =~= ids@);
            assert(buf@ =~= old(buf)@ + enc(t@, mode));
        },
        Term::ExternalFun { module, function, arity } => {
            buf.push(113u8);
            encode_atom(module, mode, buf);
            encode_atom(function, mode, buf);
            buf.push(97u8);
            buf.push(*arity);
            assert(buf@ =~= old(buf)@ + enc(t@, mode));
        },
        _ => {},
    }
}

#[verifier::spinoff_prover]
#[verifier::rlimit(60)]
fn encode_old_fun(t: &Term, mode: Mode, buf: &mut Vec<u8>)
    requires
        wf(t@),
        t is OldFun,
    ensures
        final(buf)@ == old(buf)@ + enc(t@, mode),
    decreases t, 1nat,
{
    match t {
        Term::OldFun { pid, module, index, uniq, free_vars } => {
            proof {
                lemma_view_all(free_vars@);
            }
            buf.push(117u8);
            push32(buf, free_vars.len() as u32);
            encode_pid(pid, mode, buf);
            encode_atom(module, mode, buf);
            encode_int(*index, buf);
            encode_int(*uniq, buf);
            encode_elements(free_vars, mode, buf);
            assert(buf@ =~= old(buf)@ + enc(t@, mode));
        },
        _ => {},
    }
}

#[verifier::spinoff_prover]
#[verifier::rlimit(60)]
fn encode_new_fun(t: &Term, mode: Mode, buf: &mut Vec<u8>)
    requires
        wf(t@),
        t is NewFun,
    ensures
        final(buf)@ == old(buf)@ + enc(t@, mode),
    decreases t, 1nat,
{
    match t {
        Term::NewFun { arity, uniq, index, module, old_index, old_uniq, pid, free_vars } => {
            proof {
                lemma_view_all(free_vars@);
            }
            let mut rest: Vec<u8> = Vec::new();
            rest.push(*arity);
            push_bytes(&mut rest, uniq);
            push32(&mut rest, *index);
            push32(&mut rest, free_vars.len() as u32);
            encode_atom(module, mode, &mut rest);
            encode_int(*old_index, &mut rest);
            encode_int(*old_uniq, &mut rest);
            encode_pid(pid, mode, &mut rest);
            encode_elements(free_vars, mode, &mut rest);
            buf.push(112u8);
            let n: u64 = rest.len() as u64;
            push32(buf, ((n % 0x1_0000_0000) + 4) as u32);
            push_bytes(buf, &rest);
            assert(rest@ =~= new_fun_rest(
                *arity,
                uniq@,
                *index,
                module@,
                *old_index,
                *old_uniq,
                pid@,
                free_vars.len() as nat,
                enc_all(view_all(free_vars@), mode),
                mode,
            ));
            assert(buf@ =~= old(buf)@ + enc(t@, mode));
        },
        _ => {},
    }
}

/// Appends the encoding of `t` (without the version marker) to `buf`.
pub fn encode_into(t: &Term, mode: Mode, buf: &mut Vec<u8>)
    requires
        wf(t@),
    ensures
        final(buf)@ == old(buf)@ + enc(t@, mode),
    decreases t, 2nat,
{
    match t {
        Term::List(v) => {
            proof {
                lemma_view_all(v@);
            }
            if v.len() == 0 {
                buf.push(106u8);
            } else {
                buf.push(108u8);
                push32(buf, v.len() as u32);
                encode_elements(v, mode, buf);
                buf.push(106u8);
            }
            assert(buf@ =~= old(buf)@ + enc(t@, mode));
        },
        Term::ImproperList { elements, tail } => {
            proof {
                lemma_view_all(elements@);
            }
            buf.push(108u8);
            push32(buf, elements.len() as u32);
            encode_elements(elements, mode, buf);
            encode_into(tail, mode, buf);
            assert(buf@ =~= old(buf)@ + enc(t@, mode));
        },
        Term::Tuple(v) => {
            proof {
                lemma_view_all(v@);
            }
            if v.len() <= 255 {
                buf.push(104u8);
                buf.push(v.len() as u8);
            } else {
                buf.push(105u8);
                push32(buf, v.len() as u32);
            }
            encode_elements(v, mode, buf);
            assert(buf@ =~= old(buf)@ + enc(t@, mode));
        },
        Term::Dict(ps) => {
            proof {
                lemma_view_pairs(ps@);
            }
            buf.push(116u8);
            push32(buf, ps.len() as u32);
            encode_map(ps, mode, buf);
            assert(buf@ =~= old(buf)@ + enc(t@, mode));
        },
        Term::OldFun { .. } => encode_old_fun(t, mode, buf),
        Term::NewFun { .. } => encode_new_fun(t, mode, buf),
        _ => encode_flat(t, mode, buf),
    }
}

pub proof fn lemma_be32_all_push(s: Seq<u32>, x: u32)
    ensures
        be32_all(s.push(x)) == be32_all(s) + be32(x),
    decreases s.len(),
{
    if s.len() == 0 {
        assert(s.push(x).drop_first() =~= Seq::<u32>::empty());
        assert(s.push(x)[0] == x);
        assert(be32_all(Seq::<u32>::empty()) =~= Seq::empty());
        assert(be32_all(s.push(x)) =~= be32_all(s) + be32(x));
    } else {
        lemma_be32_all_push(s.drop_first(), x);
        assert(s.push(x).drop_first() =~= s.drop_first().push(x));
        assert(s.push(x)[0] == s[0]);
        assert(be32_all(s.push(x)) =~= be32_all(s) + be32(x));
    }
}

fn encode_with(t: &Term, mode: Mode) -> (r: Vec<u8>)
    requires
        wf(t@),
    ensures
        r@ == seq![131u8] + enc(t@, mode),
{
    let mut buf: Vec<u8> = Vec::new();
    buf.push(131u8);
    encode_into(t, mode, &mut buf);
    assert(buf@ =~= seq![131u8] + enc(t@, mode));
    buf
}

/// The version marker, then the term with legacy atom tags and map pairs in their order.
pub fn encode_native(t: &Term) -> (r: Vec<u8>)
    requires
        wf(t@),
    ensures
        r@ == seq![131u8] + enc(t@, Mode::Native),
{
    encode_with(t, Mode::Native)
}

/// As `encode_native`, but atoms take the small (119) or long (118) UTF-8 atom tag.
pub fn encode_safe(t: &Term) -> (r: Vec<u8>)
    requires
        wf(t@),
    ensures
        r@ == seq![131u8] + enc(t@, Mode::Safe),
{
    encode_with(t, Mode::Safe)
}

/// As `encode_safe`, with the pairs of every map, at any depth, in the canonical key order.
pub fn encode_safe_deterministic(t: &Term) -> (r: Vec<u8>)
    requires
        wf(t@),
    ensures
        r@ == seq![131u8] + enc(t@, Mode::Canonical),
{
    encode_with(t, Mode::Canonical)
}

/// No two keys of a map are equal: their canonical encodings differ (maps as keys are
/// compared as sets of pairs).
#[verifier::opaque]
pub open spec fn keys_distinct(ps: Seq<(TermModel, TermModel)>) -> bool {
    forall|i: int, j: int|
        0 <= i < j < ps.len() ==> enc(#[trigger] ps[i].0, Mode::Canonical) != enc(
            #[trigger] ps[j].0,
            Mode::Canonical,
        )
}

/// Whether the keys of a map are pairwise distinct.
pub fn distinct_keys(ps: &Vec<(Term, Term)>) -> (r: bool)
    requires
        wf_pairs(view_pairs(ps@)),
    ensures
        r == keys_distinct(view_pairs(ps@)),
{
    reveal(keys_distinct);
    let ghost ms = view_pairs(ps@);
    proof {
        lemma_view_pairs(ps@);
        lemma_wf_pairs(ms);
    }
    let mut ks: Vec<Vec<u8>> = Vec::new();
    let mut i: usize = 0;
    while i < ps.len()
        invariant
            i <= ps.len(),
            ms == view_pairs(ps@),
            ms.len() == ps.len(),
            forall|j: int| 0 <= j < ps.len() ==> #[trigger] ms[j] == (view_term(ps@[j].0), view_term(ps@[j].1)),
            forall|j: int| 0 <= j < ms.len() ==> wf(#[trigger] ms[j].0) && wf(ms[j].1),
            ks@.len() == i,
            forall|j: int| 0 <= j < i ==> #[trigger] ks@[j]@ == enc(ms[j].0, Mode::Canonical),
        decreases ps.len() - i,
    {
        assert(ms[i as int] == (view_term(ps@[i as int].0), view_term(ps@[i as int].1)));
        assert(wf(ms[i as int].0));
        let mut k: Vec<u8> = Vec::new();
        encode_into(&ps[i].0, Mode::Canonical, &mut k);
        assert(k@ =~= enc(ms[i as int].0, Mode::Canonical));
        ks.push(k);
        i += 1;
    }
    let mut a: usize = 0;
    while a < ks.len()
        invariant
            a <= ks.len(),
            ms == view_pairs(ps@),
            ks@.len() == ms.len(),
            forall|j: int| 0 <= j < ks@.len() ==> #[trigger] ks@[j]@ == enc(ms[j].0, Mode::Canonical),
            forall|x: int, y: int|
                0 <= x < a && x < y < ms.len() ==> enc(#[trigger] ms[x].0, Mode::Canonical) != enc(
                    #[trigger] ms[y].0,
                    Mode::Canonical,
                ),
        decreases ks.len() - a,
    {
        let mut b: usize = a + 1;
        while b < ks.len()
            invariant
                a < ks.len(),
                a + 1 <= b <= ks.len(),
                ms == view_pairs(ps@),
                ks@.len() == ms.len(),
                forall|j: int| 0 <= j < ks@.len() ==> #[trigger] ks@[j]@ == enc(ms[j].0, Mode::Canonical),
                forall|y: int| a < y < b ==> enc(ms[a as int].0, Mode::Canonical) != enc(
                    #[trigger] ms[y].0,
                    Mode::Canonical,
                ),
            decreases ks.len() - b,
        {
            assert(ks@[a as int]@ == enc(ms[a as int].0, Mode::Canonical));
            assert(ks@[b as int]@ == enc(ms[b as int].0, Mode::Canonical));
            if crate::wire::lex_cmp(&ks[a], &ks[b]) == 0 {
                assert(enc(ms[a as int].0, Mode::Canonical) == enc(ms[b as int].0, Mode::Canonical));
                assert(!keys_distinct(ms)) by {
                    reveal(keys_distinct);
                    assert(0 <= a < b < ms.len());
                    assert(enc(ms[a as int].0, Mode::Canonical) == enc(ms[b as int].0, Mode::Canonical));
                }
                return false;
            }
            b += 1;
        }
        a += 1;
    }
    true
}

} // verus!
