//! Decoding inverts native and safe encoding on every well-formed term.
use vstd::prelude::*;
use crate::decode_spec::{
    decoded, parse, parse_atom, parse_flat, parse_int, parse_list, parse_new_fun, parse_old_fun,
    parse_pairs, parse_pid, parse_seq, read32_all,
};
use crate::encode::{atom_enc, enc, enc_all, enc_pairs, int_enc, new_fun_rest, pid_enc, sign_byte, Mode};
use crate::term::{atom_name_ok, pid_ok, wf, wf_all, wf_pairs, PidModel, TermModel};
use crate::wire::{be16, be32, be32_all, be64, lemma_read16, lemma_read32, lemma_read64};

verus! {

pub proof fn lemma_parse_atom(n: Seq<u8>, mode: Mode, rest: Seq<u8>)
    requires
        atom_name_ok(n),
    ensures
        parse_atom(atom_enc(n, mode) + rest) == Some((n, atom_enc(n, mode).len() as int)),
{
    let e = atom_enc(n, mode) + rest;
    if mode == Mode::Native || n.len() > 255 {
        assert(e.subrange(1, 3) =~= be16(n.len() as u16));
        lemma_read16(n.len() as u16, e, 1);
        assert(e.subrange(3, 3 + (n.len() as int)) =~= n);
    } else {
        assert(e[1] == n.len() as u8);
        assert(e.subrange(2, 2 + (n.len() as int)) =~= n);
    }
}

pub proof fn lemma_parse_int(v: i32, rest: Seq<u8>)
    ensures
        parse_int(int_enc(v) + rest) == Some((v, int_enc(v).len() as int)),
{
    let e = int_enc(v) + rest;
    if 0 <= v <= 255 {
        assert(e[1] == v as u8);
        assert(((v as u8) as i32) == v) by (bit_vector)
            requires
                0 <= v <= 255,
        ;
    } else {
        assert(e.subrange(1, 5) =~= be32(v as u32));
        lemma_read32(v as u32, e, 1);
        assert(((v as u32) as i32) == v) by (bit_vector);
    }
}

pub proof fn lemma_parse_pid(p: PidModel, mode: Mode, rest: Seq<u8>)
    requires
        pid_ok(p),
    ensures
        parse_pid(pid_enc(p, mode) + rest) == Some((p, pid_enc(p, mode).len() as int)),
{
    let e = pid_enc(p, mode) + rest;
    let a = atom_enc(p.node, mode);
    let tail = be32(p.id) + be32(p.serial) + seq![p.creation] + rest;
    assert(e.skip(1) =~= a + tail);
    lemma_parse_atom(p.node, mode, tail);
    let q = 1 + (a.len() as int);
    assert(e.subrange(q, q + 4) =~= be32(p.id));
    assert(e.subrange(q + 4, q + 8) =~= be32(p.serial));
    lemma_read32(p.id, e, q);
    lemma_read32(p.serial, e, q + 4);
    assert(e[q + 8] == p.creation);
}

proof fn lemma_read32_all(ids: Seq<u32>, rest: Seq<u8>)
    ensures
        read32_all(be32_all(ids) + rest, ids.len()) == ids,
        be32_all(ids).len() == 4 * ids.len(),
    decreases ids.len(),
{
    if ids.len() > 0 {
        let e = be32_all(ids) + rest;
        lemma_read32_all(ids.drop_first(), rest);
        assert(e.subrange(0, 4) =~= be32(ids[0]));
        lemma_read32(ids[0], e, 0);
        assert(e.skip(4) =~= be32_all(ids.drop_first()) + rest);
        assert(read32_all(e, ids.len()) =~= ids);
    } else {
        assert(read32_all(be32_all(ids) + rest, 0) =~= ids);
    }
}

#[verifier::spinoff_prover]
#[verifier::rlimit(100)]
proof fn lemma_parse_scalar(m: TermModel, mode: Mode, rest: Seq<u8>)
    requires
        wf(m),
        mode != Mode::Canonical,
        m is Atom || m is Int || m is BigInt || m is Float,
    ensures
        parse_flat(enc(m, mode) + rest) == Some((m, enc(m, mode).len() as int)),
{
    reveal(parse_flat);
    let e = enc(m, mode) + rest;
    match m {
        TermModel::Atom(n) => {
            lemma_parse_atom(n, mode, rest);
        },
        TermModel::Int(v) => {
            lemma_parse_int(v, rest);
        },
        TermModel::BigInt { negative, magnitude } => {
            if magnitude.len() <= 255 {
                assert(e[1] == magnitude.len() as u8);
                assert(e[2] == sign_byte(negative));
                assert(e.subrange(3, 3 + (magnitude.len() as int)) =~= magnitude);
            } else {
                assert(e.subrange(1, 5) =~= be32(magnitude.len() as u32));
                lemma_read32(magnitude.len() as u32, e, 1);
                assert(e[5] == sign_byte(negative));
                assert(e.subrange(6, 6 + (magnitude.len() as int)) =~= magnitude);
            }
        },
        TermModel::Float(b) => {
            assert(e.subrange(1, 9) =~= be64(b));
            lemma_read64(b, e, 1);
        },
        _ => {},
    }
}

#[verifier::spinoff_prover]
#[verifier::rlimit(100)]
proof fn lemma_parse_bytes(m: TermModel, mode: Mode, rest: Seq<u8>)
    requires
        wf(m),
        mode != Mode::Canonical,
        m is Binary || m is BitBinary || m is ByteList,
    ensures
        parse_flat(enc(m, mode) + rest) == Some((m, enc(m, mode).len() as int)),
{
    reveal(parse_flat);
    let e = enc(m, mode) + rest;
    match m {
        TermModel::Binary(b) => {
            assert(e.subrange(1, 5) =~= be32(b.len() as u32));
            lemma_read32(b.len() as u32, e, 1);
            assert(e.subrange(5, 5 + (b.len() as int)) =~= b);
        },
        TermModel::BitBinary { bytes, tail_bits } => {
            assert(e.subrange(1, 5) =~= be32(bytes.len() as u32));
            lemma_read32(bytes.len() as u32, e, 1);
            assert(e.subrange(6, 6 + (bytes.len() as int)) =~= bytes);
        },
        TermModel::ByteList(b) => {
            assert(e.subrange(1, 3) =~= be16(b.len() as u16));
            lemma_read16(b.len() as u16, e, 1);
            assert(e.subrange(3, 3 + (b.len() as int)) =~= b);
        },
        _ => {},
    }
}

#[verifier::spinoff_prover]
#[verifier::rlimit(100)]
proof fn lemma_parse_node(m: TermModel, mode: Mode, rest: Seq<u8>)
    requires
        wf(m),
        mode != Mode::Canonical,
        m is Pid || m is Port,
    ensures
        parse_flat(enc(m, mode) + rest) == Some((m, enc(m, mode).len() as int)),
{
    reveal(parse_flat);
    let e = enc(m, mode) + rest;
    match m {
        TermModel::Pid(p) => {
            lemma_parse_pid(p, mode, rest);
        },
        TermModel::Port { node, id, creation } => {
            let a = atom_enc(node, mode);
            assert(e.skip(1) =~= a + (be32(id) + seq![creation] + rest));
            lemma_parse_atom(node, mode, be32(id) + seq![creation] + rest);
            let q = 1 + (a.len() as int);
            assert(e.subrange(q, q + 4) =~= be32(id));
            lemma_read32(id, e, q);
        },
        _ => {},
    }
}

#[verifier::spinoff_prover]
#[verifier::rlimit(100)]
proof fn lemma_parse_reference(m: TermModel, mode: Mode, rest: Seq<u8>)
    requires
        wf(m),
        mode != Mode::Canonical,
        m is Reference,
    ensures
        parse_flat(enc(m, mode) + rest) == Some((m, enc(m, mode).len() as int)),
{
    reveal(parse_flat);
    let e = enc(m, mode) + rest;
    match m {
        TermModel::Reference { node, creation, ids } => {
            let a = atom_enc(node, mode);
            assert(e.subrange(1, 3) =~= be16(ids.len() as u16));
            lemma_read16(ids.len() as u16, e, 1);
            assert(e.skip(3) =~= a + (seq![creation] + be32_all(ids) + rest));
            lemma_parse_atom(node, mode, seq![creation] + be32_all(ids) + rest);
            let q = 3 + (a.len() as int);
            lemma_read32_all(ids, rest);
            assert(e.skip(q + 1) =~= be32_all(ids) + rest);
        },
        _ => {},
    }
}

#[verifier::spinoff_prover]
#[verifier::rlimit(100)]
proof fn lemma_parse_export(m: TermModel, mode: Mode, rest: Seq<u8>)
    requires
        wf(m),
        mode != Mode::Canonical,
        m is ExternalFun,
    ensures
        parse_flat(enc(m, mode) + rest) == Some((m, enc(m, mode).len() as int)),
{
    reveal(parse_flat);
    let e = enc(m, mode) + rest;
    match m {
        TermModel::ExternalFun { module, function, arity } => {
            let a1 = atom_enc(module, mode);
            let a2 = atom_enc(function, mode);
            assert(e.skip(1) =~= a1 + (a2 + seq![97u8, arity] + rest));
            lemma_parse_atom(module, mode, a2 + seq![97u8, arity] + rest);
            assert(e.skip(1 + (a1.len() as int)) =~= a2 + (seq![97u8, arity] + rest));
            lemma_parse_atom(function, mode, seq![97u8, arity] + rest);
        },
        _ => {},
    }
}

proof fn lemma_parse_flat(m: TermModel, mode: Mode, rest: Seq<u8>)
    requires
        wf(m),
        mode != Mode::Canonical,
        !(m is List || m is ImproperList || m is Tuple || m is Dict || m is OldFun || m is NewFun),
    ensures
        parse(enc(m, mode) + rest) == Some((m, enc(m, mode).len() as int)),
{
    let e = enc(m, mode) + rest;
    match m {
        TermModel::Atom(_) | TermModel::Int(_) | TermModel::BigInt { .. } | TermModel::Float(_) => {
            lemma_parse_scalar(m, mode, rest)
        },
        TermModel::Binary(_) | TermModel::BitBinary { .. } | TermModel::ByteList(_) => {
            lemma_parse_bytes(m, mode, rest)
        },
        TermModel::Pid(_) | TermModel::Port { .. } => lemma_parse_node(m, mode, rest),
        TermModel::Reference { .. } => lemma_parse_reference(m, mode, rest),
        TermModel::ExternalFun { .. } => lemma_parse_export(m, mode, rest),
        _ => {},
    }
}

proof fn lemma_parse_nil(rest: Seq<u8>)
    ensures
        parse(seq![106u8] + rest) == Some((TermModel::List(Seq::empty()), 1int)),
{
    reveal(parse_flat);
    assert((seq![106u8] + rest)[0] == 106);
}

pub proof fn lemma_parse_enc_all(ms: Seq<TermModel>, mode: Mode, rest: Seq<u8>)
    requires
        wf_all(ms),
        mode != Mode::Canonical,
    ensures
        parse_seq(enc_all(ms, mode) + rest, ms.len()) == Some((ms, enc_all(ms, mode).len() as int)),
    decreases ms, 0nat,
{
    if ms.len() == 0 {
        assert(ms =~= Seq::<TermModel>::empty());
    } else {
        let e = enc_all(ms, mode) + rest;
        let h = enc(ms[0], mode);
        assert(e =~= h + (enc_all(ms.drop_first(), mode) + rest));
        lemma_parse_enc(ms[0], mode, enc_all(ms.drop_first(), mode) + rest);
        lemma_enc_nonempty(ms[0], mode);
        assert(e.skip(h.len() as int) =~= enc_all(ms.drop_first(), mode) + rest);
        lemma_parse_enc_all(ms.drop_first(), mode, rest);
        assert(seq![ms[0]] + ms.drop_first() =~= ms);
    }
}

pub proof fn lemma_parse_enc_pairs(ps: Seq<(TermModel, TermModel)>, mode: Mode, rest: Seq<u8>)
    requires
        wf_pairs(ps),
        mode != Mode::Canonical,
    ensures
        parse_pairs(enc_pairs(ps, mode) + rest, ps.len()) == Some(
            (ps, enc_pairs(ps, mode).len() as int),
        ),
    decreases ps, 0nat,
{
    if ps.len() == 0 {
        assert(ps =~= Seq::<(TermModel, TermModel)>::empty());
    } else {
        let e = enc_pairs(ps, mode) + rest;
        let k = enc(ps[0].0, mode);
        let v = enc(ps[0].1, mode);
        let after = enc_pairs(ps.drop_first(), mode) + rest;
        assert(e =~= k + (v + after));
        lemma_parse_enc(ps[0].0, mode, v + after);
        lemma_enc_nonempty(ps[0].0, mode);
        lemma_enc_nonempty(ps[0].1, mode);
        assert(e.skip(k.len() as int) =~= v + after);
        lemma_parse_enc(ps[0].1, mode, after);
        assert(e.skip((k.len() as int) + (v.len() as int)) =~= after);
        lemma_parse_enc_pairs(ps.drop_first(), mode, rest);
        assert(seq![(ps[0].0, ps[0].1)] + ps.drop_first() =~= ps);
    }
}

pub proof fn lemma_enc_nonempty(m: TermModel, mode: Mode)
    ensures
        enc(m, mode).len() >= 1,
{
}

#[verifier::spinoff_prover]
#[verifier::rlimit(100)]
proof fn lemma_parse_list(m: TermModel, mode: Mode, rest: Seq<u8>)
    requires
        wf(m),
        mode != Mode::Canonical,
        m is List || m is ImproperList,
    ensures
        parse(enc(m, mode) + rest) == Some((m, enc(m, mode).len() as int)),
    decreases m, 1nat,
{
    reveal(parse_list);
    let e = enc(m, mode) + rest;
    match m {
        TermModel::List(v) => {
            if v.len() == 0 {
                assert(v =~= Seq::<TermModel>::empty());
                lemma_parse_nil(rest);
            } else {
                assert(e.subrange(1, 5) =~= be32(v.len() as u32));
                lemma_read32(v.len() as u32, e, 1);
                assert(e.skip(5) =~= enc_all(v, mode) + (seq![106u8] + rest));
                lemma_parse_enc_all(v, mode, seq![106u8] + rest);
                let c = enc_all(v, mode).len() as int;
                assert(e.skip(5 + c) =~= seq![106u8] + rest);
                lemma_parse_nil(rest);
                assert(parse_list(e) == Some((m, enc(m, mode).len() as int)));
            }
        },
        TermModel::ImproperList { elements, tail } => {
            assert(e.subrange(1, 5) =~= be32(elements.len() as u32));
            lemma_read32(elements.len() as u32, e, 1);
            let te = enc(*tail, mode);
            assert(e.skip(5) =~= enc_all(elements, mode) + (te + rest));
            lemma_parse_enc_all(elements, mode, te + rest);
            let c = enc_all(elements, mode).len() as int;
            assert(e.skip(5 + c) =~= te + rest);
            lemma_parse_enc(*tail, mode, rest);
            lemma_enc_nonempty(*tail, mode);
            assert(parse_list(e) == Some((m, enc(m, mode).len() as int)));
        },
        _ => {},
    }
}

proof fn lemma_skip_prefix(a: Seq<u8>, b: Seq<u8>)
    ensures
        (a + b).skip(a.len() as int) == b,
{
    assert((a + b).skip(a.len() as int) =~= b);
}

#[verifier::spinoff_prover]
#[verifier::rlimit(100)]
proof fn lemma_parse_old_fun(m: TermModel, mode: Mode, rest: Seq<u8>)
    requires
        wf(m),
        mode != Mode::Canonical,
        m is OldFun,
    ensures
        parse(enc(m, mode) + rest) == Some((m, enc(m, mode).len() as int)),
    decreases m, 1nat,
{
    reveal(parse_old_fun);
    match m {
        TermModel::OldFun { pid, module, index, uniq, free_vars } => {
        let h = seq![117u8] + be32(free_vars.len() as u32);
        let pe = pid_enc(pid, mode);
        let ae = atom_enc(module, mode);
        let ie = int_enc(index);
        let ue = int_enc(uniq);
        let fe = enc_all(free_vars, mode);
        let t5 = fe + rest;
        let t4 = ue + t5;
        let t3 = ie + t4;
        let t2 = ae + t3;
        let t1 = pe + t2;
        let e = h + t1;
        assert(enc(m, mode) == h + pe + ae + ie + ue + fe);
        assert(enc(m, mode) + rest =~= e);
        assert(e.subrange(1, 5) =~= be32(free_vars.len() as u32));
        lemma_read32(free_vars.len() as u32, e, 1);
        lemma_skip_prefix(h, t1);
        lemma_parse_pid(pid, mode, t2);
        lemma_skip_prefix(pe, t2);
        crate::decode::lemma_skip_skip(e, 5, pe.len() as int);
        lemma_parse_atom(module, mode, t3);
        lemma_skip_prefix(ae, t3);
        crate::decode::lemma_skip_skip(e, (5 + pe.len()) as int, ae.len() as int);
        lemma_parse_int(index, t4);
        lemma_skip_prefix(ie, t4);
        crate::decode::lemma_skip_skip(e, (5 + pe.len() + ae.len()) as int, ie.len() as int);
        lemma_parse_int(uniq, t5);
        lemma_skip_prefix(ue, t5);
        crate::decode::lemma_skip_skip(e, (5 + pe.len() + ae.len() + ie.len()) as int, ue.len() as int);
        lemma_parse_enc_all(free_vars, mode, rest);
        assert(e.len() == 5 + pe.len() + ae.len() + ie.len() + ue.len() + fe.len() + rest.len());
        },
        _ => {},
    }
}

#[verifier::spinoff_prover]
#[verifier::rlimit(100)]
proof fn lemma_parse_new_fun(m: TermModel, mode: Mode, rest: Seq<u8>)
    requires
        wf(m),
        mode != Mode::Canonical,
        m is NewFun,
    ensures
        parse(enc(m, mode) + rest) == Some((m, enc(m, mode).len() as int)),
    decreases m, 1nat,
{
    reveal(parse_new_fun);
    match m {
        TermModel::NewFun { arity, uniq, index, module, old_index, old_uniq, pid, free_vars } => {
        let ae = atom_enc(module, mode);
        let oe = int_enc(old_index);
        let ue = int_enc(old_uniq);
        let pe = pid_enc(pid, mode);
        let fe = enc_all(free_vars, mode);
        let rest_bytes = new_fun_rest(arity, uniq, index, module, old_index, old_uniq, pid, free_vars.len(), fe, mode);
    assert(rest_bytes == seq![arity] + uniq + be32(index) + be32(free_vars.len() as u32) + ae + oe + ue + pe + fe);
        let size = be32((((rest_bytes.len() as int) % 0x1_0000_0000) + 4) as u32);
        let h = seq![112u8] + size + seq![arity] + uniq + be32(index) + be32(free_vars.len() as u32);
        let t5 = fe + rest;
        let t4 = pe + t5;
        let t3 = ue + t4;
        let t2 = oe + t3;
        let t1 = ae + t2;
        let e = h + t1;
        assert(enc(m, mode) == seq![112u8] + size + rest_bytes);
        assert(enc(m, mode) + rest =~= e);
        assert(h.len() == 30);
        assert(e[5] == arity);
        assert(e.subrange(6, 22) =~= uniq);
        assert(e.subrange(22, 26) =~= be32(index));
        lemma_read32(index, e, 22);
        assert(e.subrange(26, 30) =~= be32(free_vars.len() as u32));
        lemma_read32(free_vars.len() as u32, e, 26);
        lemma_skip_prefix(h, t1);
        lemma_parse_atom(module, mode, t2);
        lemma_skip_prefix(ae, t2);
        crate::decode::lemma_skip_skip(e, 30, ae.len() as int);
        lemma_parse_int(old_index, t3);
        lemma_skip_prefix(oe, t3);
        crate::decode::lemma_skip_skip(e, (30 + ae.len()) as int, oe.len() as int);
        lemma_parse_int(old_uniq, t4);
        lemma_skip_prefix(ue, t4);
        crate::decode::lemma_skip_skip(e, (30 + ae.len() + oe.len()) as int, ue.len() as int);
        lemma_parse_pid(pid, mode, t5);
        lemma_skip_prefix(pe, t5);
        crate::decode::lemma_skip_skip(e, (30 + ae.len() + oe.len() + ue.len()) as int, pe.len() as int);
        lemma_parse_enc_all(free_vars, mode, rest);
        assert(e.len() == 30 + ae.len() + oe.len() + ue.len() + pe.len() + fe.len() + rest.len());
        },
        _ => {},
    }
}

/// Parsing the native or safe encoding of a well-formed term, followed by any bytes,
/// reads back the term and exactly its encoding.
pub proof fn lemma_parse_enc(m: TermModel, mode: Mode, rest: Seq<u8>)
    requires
        wf(m),
        mode != Mode::Canonical,
    ensures
        parse(enc(m, mode) + rest) == Some((m, enc(m, mode).len() as int)),
    decreases m, 2nat,
{
    let e = enc(m, mode) + rest;
    match m {
        TermModel::List(_) => lemma_parse_list(m, mode, rest),
        TermModel::ImproperList { .. } => lemma_parse_list(m, mode, rest),
        TermModel::OldFun { .. } => lemma_parse_old_fun(m, mode, rest),
        TermModel::NewFun { .. } => lemma_parse_new_fun(m, mode, rest),
        TermModel::Tuple(v) => {
            if v.len() <= 255 {
                assert(e[1] == v.len() as u8);
                assert(e.skip(2) =~= enc_all(v, mode) + rest);
                lemma_parse_enc_all(v, mode, rest);
            } else {
                assert(e.subrange(1, 5) =~= be32(v.len() as u32));
                lemma_read32(v.len() as u32, e, 1);
                assert(e.skip(5) =~= enc_all(v, mode) + rest);
                lemma_parse_enc_all(v, mode, rest);
            }
        },
        TermModel::Dict(ps) => {
            assert(e.subrange(1, 5) =~= be32(ps.len() as u32));
            lemma_read32(ps.len() as u32, e, 1);
            assert(e.skip(5) =~= enc_pairs(ps, mode) + rest);
            lemma_parse_enc_pairs(ps, mode, rest);
        },
        _ => lemma_parse_flat(m, mode, rest),
    }
}

/// Decoding inverts native and safe encoding: for every well-formed term `t`,
/// `decode(encode_native(t)) == t` and `decode(encode_safe(t)) == t`.
pub proof fn lemma_decode_encode(t: TermModel)
    requires
        wf(t),
    ensures
        decoded(seq![131u8] + enc(t, Mode::Native)) == Some(t),
        decoded(seq![131u8] + enc(t, Mode::Safe)) == Some(t),
{
    let n = seq![131u8] + enc(t, Mode::Native);
    let s = seq![131u8] + enc(t, Mode::Safe);
    assert(n.skip(1) =~= enc(t, Mode::Native) + Seq::<u8>::empty());
    assert(s.skip(1) =~= enc(t, Mode::Safe) + Seq::<u8>::empty());
    lemma_parse_enc(t, Mode::Native, Seq::empty());
    lemma_parse_enc(t, Mode::Safe, Seq::empty());
}

} // verus!
