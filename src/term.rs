//! The term model: a closed variant type for values of the external term format,
//! and its mathematical view.
use vstd::prelude::*;
use crate::encode::{distinct_keys, keys_distinct};

verus! {

/// A process identifier.
#[derive(Debug, PartialEq, Eq)]
pub struct Pid {
    pub node: Vec<u8>,
    pub id: u32,
    pub serial: u32,
    pub creation: u8,
}

/// A decoded term. Atom names and byte payloads are kept as raw bytes;
/// a big integer is a sign and a little-endian magnitude, a float its IEEE-754 bits.
#[derive(Debug, PartialEq, Eq)]
pub enum Term {
    Atom(Vec<u8>),
    Int(i32),
    BigInt { negative: bool, magnitude: Vec<u8> },
    Float(u64),
    Binary(Vec<u8>),
    BitBinary { bytes: Vec<u8>, tail_bits: u8 },
    ByteList(Vec<u8>),
    List(Vec<Term>),
    ImproperList { elements: Vec<Term>, tail: Box<Term> },
    Tuple(Vec<Term>),
    Dict(Vec<(Term, Term)>),
    Pid(Pid),
    Port { node: Vec<u8>, id: u32, creation: u8 },
    Reference { node: Vec<u8>, creation: u8, ids: Vec<u32> },
    ExternalFun { module: Vec<u8>, function: Vec<u8>, arity: u8 },
    OldFun { pid: Pid, module: Vec<u8>, index: i32, uniq: i32, free_vars: Vec<Term> },
    NewFun {
        arity: u8,
        uniq: Vec<u8>,
        index: u32,
        module: Vec<u8>,
        old_index: i32,
        old_uniq: i32,
        pid: Pid,
        free_vars: Vec<Term>,
    },
}

pub struct PidModel {
    pub node: Seq<u8>,
    pub id: u32,
    pub serial: u32,
    pub creation: u8,
}

/// The mathematical value of a term.
pub enum TermModel {
    Atom(Seq<u8>),
    Int(i32),
    BigInt { negative: bool, magnitude: Seq<u8> },
    Float(u64),
    Binary(Seq<u8>),
    BitBinary { bytes: Seq<u8>, tail_bits: u8 },
    ByteList(Seq<u8>),
    List(Seq<TermModel>),
    ImproperList { elements: Seq<TermModel>, tail: Box<TermModel> },
    Tuple(Seq<TermModel>),
    Dict(Seq<(TermModel, TermModel)>),
    Pid(PidModel),
    Port { node: Seq<u8>, id: u32, creation: u8 },
    Reference { node: Seq<u8>, creation: u8, ids: Seq<u32> },
    ExternalFun { module: Seq<u8>, function: Seq<u8>, arity: u8 },
    OldFun { pid: PidModel, module: Seq<u8>, index: i32, uniq: i32, free_vars: Seq<TermModel> },
    NewFun {
        arity: u8,
        uniq: Seq<u8>,
        index: u32,
        module: Seq<u8>,
        old_index: i32,
        old_uniq: i32,
        pid: PidModel,
        free_vars: Seq<TermModel>,
    },
}

impl View for Pid {
    type V = PidModel;

    open spec fn view(&self) -> PidModel {
        PidModel { node: self.node@, id: self.id, serial: self.serial, creation: self.creation }
    }
}

pub open spec fn view_all(s: Seq<Term>) -> Seq<TermModel>
    decreases s,
{
    if s.len() == 0 {
        Seq::empty()
    } else {
        seq![view_term(s[0])] + view_all(s.drop_first())
    }
}

pub open spec fn view_pairs(s: Seq<(Term, Term)>) -> Seq<(TermModel, TermModel)>
    decreases s,
{
    if s.len() == 0 {
        Seq::empty()
    } else {
        seq![(view_term(s[0].0), view_term(s[0].1))] + view_pairs(s.drop_first())
    }
}

pub open spec fn view_term(t: Term) -> TermModel
    decreases t,
{
    match t {
        Term::Atom(n) => TermModel::Atom(n@),
        Term::Int(v) => TermModel::Int(v),
        Term::BigInt { negative, magnitude } => TermModel::BigInt {
            negative,
            magnitude: magnitude@,
        },
        Term::Float(b) => TermModel::Float(b),
        Term::Binary(b) => TermModel::Binary(b@),
        Term::BitBinary { bytes, tail_bits } => TermModel::BitBinary { bytes: bytes@, tail_bits },
        Term::ByteList(b) => TermModel::ByteList(b@),
        Term::List(v) => TermModel::List(view_all(v@)),
        Term::ImproperList { elements, tail } => TermModel::ImproperList {
            elements: view_all(elements@),
            tail: Box::new(view_term(*tail)),
        },
        Term::Tuple(v) => TermModel::Tuple(view_all(v@)),
        Term::Dict(ps) => TermModel::Dict(view_pairs(ps@)),
        Term::Pid(p) => TermModel::Pid(p@),
        Term::Port { node, id, creation } => TermModel::Port { node: node@, id, creation },
        Term::Reference { node, creation, ids } => TermModel::Reference {
            node: node@,
            creation,
            ids: ids@,
        },
        Term::ExternalFun { module, function, arity } => TermModel::ExternalFun {
            module: module@,
            function: function@,
            arity,
        },
        Term::OldFun { pid, module, index, uniq, free_vars } => TermModel::OldFun {
            pid: pid@,
            module: module@,
            index,
            uniq,
            free_vars: view_all(free_vars@),
        },
        Term::NewFun { arity, uniq, index, module, old_index, old_uniq, pid, free_vars } =>
            TermModel::NewFun {
            arity,
            uniq: uniq@,
            index,
            module: module@,
            old_index,
            old_uniq,
            pid: pid@,
            free_vars: view_all(free_vars@),
        },
    }
}

impl View for Term {
    type V = TermModel;

    open spec fn view(&self) -> TermModel {
        view_term(*self)
    }
}

pub proof fn lemma_view_all(s: Seq<Term>)
    ensures
        view_all(s).len() == s.len(),
        forall|i: int| 0 <= i < s.len() ==> #[trigger] view_all(s)[i] == view_term(s[i]),
    decreases s.len(),
{
    if s.len() > 0 {
        lemma_view_all(s.drop_first());
        assert forall|i: int| 0 <= i < s.len() implies #[trigger] view_all(s)[i] == view_term(
            s[i],
        ) by {
            if i > 0 {
                assert(s.drop_first()[i - 1] == s[i]);
            }
        }
    }
}

pub proof fn lemma_view_pairs(s: Seq<(Term, Term)>)
    ensures
        view_pairs(s).len() == s.len(),
        forall|i: int|
            0 <= i < s.len() ==> #[trigger] view_pairs(s)[i] == (
                view_term(s[i].0),
                view_term(s[i].1),
            ),
    decreases s.len(),
{
    if s.len() > 0 {
        lemma_view_pairs(s.drop_first());
        assert forall|i: int| 0 <= i < s.len() implies #[trigger] view_pairs(s)[i] == (
            view_term(s[i].0),
            view_term(s[i].1),
        ) by {
            if i > 0 {
                assert(s.drop_first()[i - 1] == s[i]);
            }
        }
    }
}

/// A term that the wire format can carry: every length fits its length field,
/// a new-style fun has a 16-byte unique id, an improper list does not end in nil
/// (such a list is an ordinary list on the wire), and no map holds two equal keys.
pub open spec fn wf_all(s: Seq<TermModel>) -> bool
    decreases s,
{
    if s.len() == 0 {
        true
    } else {
        wf(s[0]) && wf_all(s.drop_first())
    }
}

pub open spec fn wf_pairs(s: Seq<(TermModel, TermModel)>) -> bool
    decreases s,
{
    if s.len() == 0 {
        true
    } else {
        wf(s[0].0) && wf(s[0].1) && wf_pairs(s.drop_first())
    }
}

pub open spec fn atom_name_ok(n: Seq<u8>) -> bool {
    n.len() <= 0xffff
}

pub open spec fn pid_ok(p: PidModel) -> bool {
    atom_name_ok(p.node)
}

pub open spec fn wf(t: TermModel) -> bool
    decreases t,
{
    match t {
        TermModel::Atom(n) => atom_name_ok(n),
        TermModel::Int(_) => true,
        TermModel::BigInt { magnitude, .. } => magnitude.len() <= 0xffff_ffff,
        TermModel::Float(_) => true,
        TermModel::Binary(b) => b.len() <= 0xffff_ffff,
        TermModel::BitBinary { bytes, .. } => bytes.len() <= 0xffff_ffff,
        TermModel::ByteList(b) => b.len() <= 0xffff,
        TermModel::List(v) => v.len() <= 0xffff_ffff && wf_all(v),
        TermModel::ImproperList { elements, tail } => elements.len() <= 0xffff_ffff && wf_all(
            elements,
        ) && wf(*tail) && *tail != TermModel::List(Seq::empty()),
        TermModel::Tuple(v) => v.len() <= 0xffff_ffff && wf_all(v),
        TermModel::Dict(ps) => ps.len() <= 0xffff_ffff && wf_pairs(ps) && keys_distinct(ps),
        TermModel::Pid(p) => pid_ok(p),
        TermModel::Port { node, .. } => atom_name_ok(node),
        TermModel::Reference { node, ids, .. } => atom_name_ok(node) && ids.len() <= 0xffff,
        TermModel::ExternalFun { module, function, .. } => atom_name_ok(module) && atom_name_ok(
            function,
        ),
        TermModel::OldFun { pid, module, free_vars, .. } => pid_ok(pid) && atom_name_ok(module)
            && free_vars.len() <= 0xffff_ffff && wf_all(free_vars),
        TermModel::NewFun { uniq, module, pid, free_vars, .. } => uniq.len() == 16 && atom_name_ok(
            module,
        ) && pid_ok(pid) && free_vars.len() <= 0xffff_ffff && wf_all(free_vars),
    }
}

} // verus!

verus! {

proof fn lemma_wf_all_index(s: Seq<TermModel>)
    ensures
        wf_all(s) <==> forall|j: int| 0 <= j < s.len() ==> wf(#[trigger] s[j]),
    decreases s.len(),
{
    if s.len() > 0 {
        lemma_wf_all_index(s.drop_first());
        assert(forall|j: int| 0 < j < s.len() ==> s.drop_first()[j - 1] == s[j]);
        if forall|j: int| 0 <= j < s.len() ==> wf(#[trigger] s[j]) {
            assert(forall|j: int| 0 <= j < s.drop_first().len() ==> wf(#[trigger] s.drop_first()[j])) by {
                assert(forall|j: int| 0 <= j < s.drop_first().len() ==> s.drop_first()[j] == s[j + 1]);
            }
        }
    }
}

proof fn lemma_wf_pairs_index(s: Seq<(TermModel, TermModel)>)
    ensures
        wf_pairs(s) <==> forall|j: int| 0 <= j < s.len() ==> wf(#[trigger] s[j].0) && wf(s[j].1),
    decreases s.len(),
{
    if s.len() > 0 {
        lemma_wf_pairs_index(s.drop_first());
        assert(forall|j: int| 0 < j < s.len() ==> s.drop_first()[j - 1] == s[j]);
        if forall|j: int| 0 <= j < s.len() ==> wf(#[trigger] s[j].0) && wf(s[j].1) {
            assert(forall|j: int|
                0 <= j < s.drop_first().len() ==> wf(#[trigger] s.drop_first()[j].0) && wf(
                    s.drop_first()[j].1,
                )) by {
                assert(forall|j: int| 0 <= j < s.drop_first().len() ==> s.drop_first()[j] == s[j + 1]);
            }
        }
    }
}

fn check_wf_all(v: &Vec<Term>) -> (r: bool)
    ensures
        r == wf_all(view_all(v@)),
    decreases v, 0nat,
{
    proof {
        lemma_view_all(v@);
        lemma_wf_all_index(view_all(v@));
    }
    let ghost ms = view_all(v@);
    let mut i: usize = 0;
    while i < v.len()
        invariant
            i <= v.len(),
            ms == view_all(v@),
            ms.len() == v.len(),
            forall|j: int| 0 <= j < v.len() ==> #[trigger] ms[j] == view_term(v@[j]),
            forall|j: int| 0 <= j < i ==> wf(#[trigger] ms[j]),
            wf_all(ms) <==> forall|j: int| 0 <= j < ms.len() ==> wf(#[trigger] ms[j]),
        decreases v.len() - i,
    {
        proof {
            assert(decreases_to!(*v => v[i as int]));
        }
        assert(ms[i as int] == view_term(v@[i as int]));
        if !check_wf(&v[i]) {
            assert(!wf(ms[i as int]));
            return false;
        }
        i += 1;
    }
    true
}

pub(crate) fn check_wf_pairs(v: &Vec<(Term, Term)>) -> (r: bool)
    ensures
        r == wf_pairs(view_pairs(v@)),
    decreases v, 0nat,
{
    proof {
        lemma_view_pairs(v@);
        lemma_wf_pairs_index(view_pairs(v@));
    }
    let ghost ms = view_pairs(v@);
    let mut i: usize = 0;
    while i < v.len()
        invariant
            i <= v.len(),
            ms == view_pairs(v@),
            ms.len() == v.len(),
            forall|j: int| 0 <= j < v.len() ==> #[trigger] ms[j] == (view_term(v@[j].0), view_term(v@[j].1)),
            forall|j: int| 0 <= j < i ==> wf(#[trigger] ms[j].0) && wf(ms[j].1),
            wf_pairs(ms) <==> forall|j: int| 0 <= j < ms.len() ==> wf(#[trigger] ms[j].0) && wf(ms[j].1),
        decreases v.len() - i,
    {
        proof {
            assert(decreases_to!(*v => v[i as int]));
            assert(decreases_to!(v[i as int] => v[i as int].0));
            assert(decreases_to!(v[i as int] => v[i as int].1));
        }
        assert(ms[i as int] == (view_term(v@[i as int].0), view_term(v@[i as int].1)));
        if !check_wf(&v[i].0) || !check_wf(&v[i].1) {
            assert(!(wf(ms[i as int].0) && wf(ms[i as int].1)));
            return false;
        }
        i += 1;
    }
    true
}

/// Whether a term can be encoded: see `wf`.
#[verifier::spinoff_prover]
#[verifier::rlimit(60)]
pub fn check_wf(t: &Term) -> (r: bool)
    ensures
        r == wf(t@),
    decreases t, 1nat,
{
    match t {
        Term::Atom(n) => n.len() <= 0xffff,
        Term::Int(_) => true,
        Term::BigInt { magnitude, .. } => magnitude.len() <= 0xffff_ffff,
        Term::Float(_) => true,
        Term::Binary(b) => b.len() <= 0xffff_ffff,
        Term::BitBinary { bytes, .. } => bytes.len() <= 0xffff_ffff,
        Term::ByteList(b) => b.len() <= 0xffff,
        Term::List(v) => {
            proof {
                lemma_view_all(v@);
            }
            v.len() <= 0xffff_ffff && check_wf_all(v)
        },
        Term::ImproperList { elements, tail } => {
            proof {
                lemma_view_all(elements@);
            }
            let nil = match &**tail {
                Term::List(w) => {
                    proof {
                        lemma_view_all(w@);
                    }
                    w.len() == 0
                },
                _ => false,
            };
            proof {
                if !nil && tail@ == TermModel::List(Seq::empty()) {
                    assert(tail@ is List);
                }
            }
            elements.len() <= 0xffff_ffff && check_wf_all(elements) && check_wf(tail) && !nil
        },
        Term::Tuple(v) => {
            proof {
                lemma_view_all(v@);
            }
            v.len() <= 0xffff_ffff && check_wf_all(v)
        },
        Term::Dict(ps) => {
            proof {
                lemma_view_pairs(ps@);
            }
            ps.len() <= 0xffff_ffff && check_wf_pairs(ps) && distinct_keys(ps)
        },
        Term::Pid(p) => p.node.len() <= 0xffff,
        Term::Port { node, .. } => node.len() <= 0xffff,
        Term::Reference { node, ids, .. } => node.len() <= 0xffff && ids.len() <= 0xffff,
        Term::ExternalFun { module, function, .. } => module.len() <= 0xffff && function.len()
            <= 0xffff,
        Term::OldFun { pid, module, free_vars, .. } => {
            proof {
                lemma_view_all(free_vars@);
            }
            pid.node.len() <= 0xffff && module.len() <= 0xffff && free_vars.len() <= 0xffff_ffff
                && check_wf_all(free_vars)
        },
        Term::NewFun { uniq, module, pid, free_vars, .. } => {
            proof {
                lemma_view_all(free_vars@);
            }
            uniq.len() == 16 && module.len() <= 0xffff && pid.node.len() <= 0xffff
                && free_vars.len() <= 0xffff_ffff && check_wf_all(free_vars)
        },
    }
}

} // verus!
