//! The decoder: reads a term from bytes exactly as the parser in `decode_spec` says.
use vstd::prelude::*;
use crate::decode_spec::{
    decoded, parse, parse_atom, parse_flat, parse_int, parse_list, parse_new_fun, parse_old_fun,
    parse_pairs, parse_pid, parse_seq, read32_all,
};
use crate::encode::distinct_keys;
use crate::term::{check_wf_pairs, lemma_view_all, lemma_view_pairs, view_all, view_pairs, view_term, Pid, Term, TermModel};
use crate::wire::{read16, read16_at, read32, read32_at, read64_at, slice_copy};

verus! {

/// Why bytes are not a term.
#[derive(Debug, Clone, Copy, PartialEq, Eq)]
pub enum DecodeError {
    /// The first byte is not the format version marker (or there is none).
    MissingVersion,
    /// An unknown tag, a truncated field, or a field of the wrong kind.
    Malformed,
    /// A whole term was read and bytes remain after it.
    TrailingBytes,
}

pub proof fn lemma_skip_skip(s: Seq<u8>, a: int, b: int)
    requires
        0 <= a,
        0 <= b,
        a + b <= s.len(),
    ensures
        s.skip(a).skip(b) == s.skip(a + b),
{
    assert(s.skip(a).skip(b) =~= s.skip(a + b));
}

pub proof fn lemma_view_all_push(s: Seq<Term>, x: Term)
    ensures
        view_all(s.push(x)) == view_all(s).push(view_term(x)),
{
    lemma_view_all(s.push(x));
    lemma_view_all(s);
    assert(view_all(s.push(x)) =~= view_all(s).push(view_term(x)));
}

pub proof fn lemma_view_pairs_push(s: Seq<(Term, Term)>, x: (Term, Term))
    ensures
        view_pairs(s.push(x)) == view_pairs(s).push((view_term(x.0), view_term(x.1))),
{
    lemma_view_pairs(s.push(x));
    lemma_view_pairs(s);
    assert(view_pairs(s.push(x)) =~= view_pairs(s).push((view_term(x.0), view_term(x.1))));
}

fn parse_atom_at(s: &Vec<u8>, p: usize) -> (r: Option<(Vec<u8>, usize)>)
    requires
        p <= s.len(),
    ensures
        match parse_atom(s@.skip(p as int)) {
            Some((n, c)) => r matches Some((x, k)) && x@ == n && k as int == c,
            None => r is None,
        },
{
    let ghost ss = s@.skip(p as int);
    let n = s.len() - p;
    if n >= 3 && (s[p] == 100 || s[p] == 118) {
        let k = read16_at(s, p + 1) as usize;
        assert(read16(ss, 1) == read16(s@, p + 1));
        if n >= 3 + k {
            let name = slice_copy(s, p + 3, k);
            assert(name@ =~= ss.subrange(3, 3 + k));
            return Some((name, 3 + k));
        }
        return None;
    }
    if n >= 2 && (s[p] == 115 || s[p] == 119) {
        let k = s[p + 1] as usize;
        if n >= 2 + k {
            let name = slice_copy(s, p + 2, k);
            assert(name@ =~= ss.subrange(2, 2 + k));
            return Some((name, 2 + k));
        }
    }
    None
}

fn parse_int_at(s: &Vec<u8>, p: usize) -> (r: Option<(i32, usize)>)
    requires
        p <= s.len(),
    ensures
        match parse_int(s@.skip(p as int)) {
            Some((v, c)) => r == Some((v, c as usize)) && c <= s.len() - p,
            None => r is None,
        },
{
    let ghost ss = s@.skip(p as int);
    let n = s.len() - p;
    if n >= 2 && s[p] == 97 {
        Some((s[p + 1] as i32, 2))
    } else if n >= 5 && s[p] == 98 {
        assert(read32(ss, 1) == read32(s@, p + 1));
        Some((read32_at(s, p + 1) as i32, 5))
    } else {
        None
    }
}

fn parse_pid_at(s: &Vec<u8>, p: usize) -> (r: Option<(Pid, usize)>)
    requires
        p <= s.len(),
    ensures
        match parse_pid(s@.skip(p as int)) {
            Some((m, c)) => r matches Some((x, k)) && x@ == m && k as int == c && c <= s.len() - p,
            None => r is None,
        },
{
    let ghost ss = s@.skip(p as int);
    if s.len() - p >= 1 && s[p] == 103 {
        proof {
            lemma_skip_skip(s@, p as int, 1);
        }
        match parse_atom_at(s, p + 1) {
            Some((node, c)) => {
                let q = 1 + c;
                if s.len() - p >= q + 9 {
                    assert(read32(ss, q as int) == read32(s@, p + q));
                    assert(read32(ss, q + 4) == read32(s@, p + q + 4));
                    let pid = Pid {
                        node,
                        id: read32_at(s, p + q),
                        serial: read32_at(s, p + q + 4),
                        creation: s[p + q + 8],
                    };
                    return Some((pid, q + 9));
                }
                None
            },
            None => None,
        }
    } else {
        None
    }
}

fn read32_all_at(s: &Vec<u8>, p: usize, k: usize) -> (r: Vec<u32>)
    requires
        p + 4 * k <= s.len(),
    ensures
        r@ == read32_all(s@.skip(p as int), k as nat),
{
    let mut r: Vec<u32> = Vec::new();
    let mut i: usize = 0;
    while i < k
        invariant
            i <= k,
            p + 4 * k <= s.len(),
            read32_all(s@.skip(p as int), k as nat) == r@ + read32_all(
                s@.skip(p + 4 * i),
                (k - i) as nat,
            ),
        decreases k - i,
    {
        let ghost ss = s@.skip(p + 4 * i);
        assert(read32(ss, 0) == read32(s@, p + 4 * i));
        r.push(read32_at(s, p + 4 * i));
        proof {
            lemma_skip_skip(s@, p + 4 * i, 4);
            assert(p + 4 * i + 4 == p + 4 * (i + 1)) by (nonlinear_arith);
        }
        i += 1;
    }
    assert(s@.skip(p as int).skip(0) =~= s@.skip(p as int));
    assert(r@ + read32_all(s@.skip(p + 4 * i), 0) =~= r@);
    r
}

proof fn lemma_skip0(s: Seq<u8>)
    ensures
        s.skip(0) == s,
{
    assert(s.skip(0) =~= s);
}

#[verifier::spinoff_prover]
#[verifier::rlimit(60)]
fn parse_flat_at(s: &Vec<u8>, p: usize) -> (r: Option<(Term, usize)>)
    requires
        p <= s.len(),
    ensures
        match parse_flat(s@.skip(p as int)) {
            Some((m, c)) => r matches Some((x, k)) && x@ == m && k as int == c,
            None => r is None,
        },
{
    reveal(parse_flat);
    let ghost ss = s@.skip(p as int);
    let n = s.len() - p;
    if n == 0 {
        return None;
    }
    let tag = s[p];
    if tag == 100 || tag == 115 || tag == 118 || tag == 119 {
        match parse_atom_at(s, p) {
            Some((name, c)) => Some((Term::Atom(name), c)),
            None => None,
        }
    } else if tag == 97 || tag == 98 {
        match parse_int_at(s, p) {
            Some((v, c)) => Some((Term::Int(v), c)),
            None => None,
        }
    } else if tag == 110 {
        if n >= 3 && n >= 3 + s[p + 1] as usize && (s[p + 2] == 0 || s[p + 2] == 1) {
            let k = s[p + 1] as usize;
            let magnitude = slice_copy(s, p + 3, k);
            assert(magnitude@ =~= ss.subrange(3, 3 + k));
            Some((Term::BigInt { negative: s[p + 2] == 1, magnitude }, 3 + k))
        } else {
            None
        }
    } else if tag == 111 {
        if n >= 6 {
            let k = read32_at(s, p + 1) as usize;
            assert(read32(ss, 1) == read32(s@, p + 1));
            if n - 6 >= k && (s[p + 5] == 0 || s[p + 5] == 1) {
                let magnitude = slice_copy(s, p + 6, k);
                assert(magnitude@ =~= ss.subrange(6, 6 + k));
                return Some((Term::BigInt { negative: s[p + 5] == 1, magnitude }, 6 + k));
            }
        }
        None
    } else if tag == 70 {
        if n >= 9 {
            assert(crate::wire::read64(ss, 1) == crate::wire::read64(s@, p + 1));
            Some((Term::Float(read64_at(s, p + 1)), 9))
        } else {
            None
        }
    } else if tag == 109 || tag == 77 {
        let h: usize = if tag == 109 { 5 } else { 6 };
        if n >= h {
            let k = read32_at(s, p + 1) as usize;
            assert(read32(ss, 1) == read32(s@, p + 1));
            if n - h >= k {
                let bytes = slice_copy(s, p + h, k);
                assert(bytes@ =~= ss.subrange(h as int, h + k));
                if tag == 109 {
                    return Some((Term::Binary(bytes), h + k));
                } else {
                    return Some((Term::BitBinary { bytes, tail_bits: s[p + 5] }, h + k));
                }
            }
        }
        None
    } else if tag == 107 {
        if n >= 3 {
            let k = read16_at(s, p + 1) as usize;
            assert(read16(ss, 1) == read16(s@, p + 1));
            if n >= 3 + k {
                let bytes = slice_copy(s, p + 3, k);
                assert(bytes@ =~= ss.subrange(3, 3 + k));
                return Some((Term::ByteList(bytes), 3 + k));
            }
        }
        None
    } else if tag == 106 {
        let v: Vec<Term> = Vec::new();
        proof {
            assert(view_all(v@) =~= Seq::<TermModel>::empty());
        }
        Some((Term::List(v), 1))
    } else if tag == 103 {
        match parse_pid_at(s, p) {
            Some((pid, c)) => Some((Term::Pid(pid), c)),
            None => None,
        }
    } else if tag == 102 {
        proof {
            lemma_skip_skip(s@, p as int, 1);
        }
        match parse_atom_at(s, p + 1) {
            Some((node, c)) => {
                let q = 1 + c;
                if n >= q + 5 {
                    assert(read32(ss, q as int) == read32(s@, p + q));
                    Some((Term::Port { node, id: read32_at(s, p + q), creation: s[p + q + 4] }, q + 5))
                } else {
                    None
                }
            },
            None => None,
        }
    } else if tag == 114 {
        if n >= 3 {
            let k = read16_at(s, p + 1) as usize;
            assert(read16(ss, 1) == read16(s@, p + 1));
            proof {
                lemma_skip_skip(s@, p as int, 3);
            }
            match parse_atom_at(s, p + 3) {
                Some((node, c)) => {
                    let q = 3 + c;
                    if n >= q + 1 && (n - q - 1) / 4 >= k {
                        let ids = read32_all_at(s, p + q + 1, k);
                        proof {
                            lemma_skip_skip(s@, p as int, q + 1);
                        }
                        return Some((Term::Reference { node, creation: s[p + q], ids }, q + 1 + 4 * k));
                    }
                    None
                },
                None => None,
            }
        } else {
            None
        }
    } else if tag == 113 {
        proof {
            lemma_skip_skip(s@, p as int, 1);
        }
        match parse_atom_at(s, p + 1) {
            Some((module, c1)) => {
                proof {
                    lemma_skip_skip(s@, p as int, 1 + c1);
                }
                match parse_atom_at(s, p + 1 + c1) {
                    Some((function, c2)) => {
                        let q = 1 + c1 + c2;
                        if n >= q + 2 && s[p + q] == 97 {
                            Some((Term::ExternalFun { module, function, arity: s[p + q + 1] }, q + 2))
                        } else {
                            None
                        }
                    },
                    None => None,
                }
            },
            None => None,
        }
    } else {
        None
    }
}

fn parse_seq_at(s: &Vec<u8>, p: usize, n: u32) -> (r: Option<(Vec<Term>, usize)>)
    requires
        p <= s.len(),
    ensures
        match parse_seq(s@.skip(p as int), n as nat) {
            Some((ms, c)) => r matches Some((x, k)) && view_all(x@) == ms && k as int == c && c
                <= s.len() - p,
            None => r is None,
        },
    decreases s.len() - p, 1nat, n,
{
    let mut acc: Vec<Term> = Vec::new();
    let mut q: usize = p;
    let mut i: u32 = 0;
    proof {
        assert(view_all(acc@) =~= Seq::<TermModel>::empty());
        lemma_skip0(s@.skip(p as int));
        lemma_skip_skip(s@, p as int, 0);
        match parse_seq(s@.skip(p as int), n as nat) {
            Some((ts, c)) => {
                assert(view_all(acc@) + ts =~= ts);
            },
            None => {},
        }
    }
    while i < n
        invariant
            p <= q <= s.len(),
            i <= n,
            parse_seq(s@.skip(p as int), n as nat) == match parse_seq(
                s@.skip(q as int),
                (n - i) as nat,
            ) {
                Some((ts, c)) => Some((view_all(acc@) + ts, (q - p) + c)),
                None => None::<(Seq<TermModel>, int)>,
            },
        decreases n - i,
    {
        let ghost ss = s@.skip(q as int);
        match parse_at(s, q) {
            None => {
                return None;
            },
            Some((t, c)) => {
                if !(0 < c && c <= s.len() - q) {
                    return None;
                }
                proof {
                    lemma_skip_skip(s@, q as int, c as int);
                    lemma_view_all_push(acc@, t);
                    match parse_seq(s@.skip(q + c), (n - i - 1) as nat) {
                        Some((ts, c2)) => {
                            assert(view_all(acc@.push(t)) + ts =~= view_all(acc@) + (seq![t@] + ts));
                        },
                        None => {},
                    }
                }
                acc.push(t);
                q = q + c;
                i = i + 1;
            },
        }
    }
    proof {
        assert(view_all(acc@) + Seq::<TermModel>::empty() =~= view_all(acc@));
    }
    Some((acc, q - p))
}

#[verifier::spinoff_prover]
#[verifier::rlimit(100)]
fn parse_pairs_at(s: &Vec<u8>, p: usize, n: u32) -> (r: Option<(Vec<(Term, Term)>, usize)>)
    requires
        p <= s.len(),
    ensures
        match parse_pairs(s@.skip(p as int), n as nat) {
            Some((ms, c)) => r matches Some((x, k)) && view_pairs(x@) == ms && k as int == c && c
                <= s.len() - p,
            None => r is None,
        },
    decreases s.len() - p, 1nat, n,
{
    let mut acc: Vec<(Term, Term)> = Vec::new();
    let mut q: usize = p;
    let mut i: u32 = 0;
    proof {
        assert(view_pairs(acc@) =~= Seq::<(TermModel, TermModel)>::empty());
        lemma_skip_skip(s@, p as int, 0);
        match parse_pairs(s@.skip(p as int), n as nat) {
            Some((ts, c)) => {
                assert(view_pairs(acc@) + ts =~= ts);
            },
            None => {},
        }
    }
    while i < n
        invariant
            p <= q <= s.len(),
            i <= n,
            parse_pairs(s@.skip(p as int), n as nat) == match parse_pairs(
                s@.skip(q as int),
                (n - i) as nat,
            ) {
                Some((ts, c)) => Some((view_pairs(acc@) + ts, (q - p) + c)),
                None => None::<(Seq<(TermModel, TermModel)>, int)>,
            },
        decreases n - i,
    {
        let k = match parse_at(s, q) {
            None => {
                return None;
            },
            Some(x) => x,
        };
        let (key, c1) = k;
        if !(0 < c1 && c1 <= s.len() - q) {
            return None;
        }
        proof {
            lemma_skip_skip(s@, q as int, c1 as int);
        }
        let v = match parse_at(s, q + c1) {
            None => {
                return None;
            },
            Some(x) => x,
        };
        let (value, c2) = v;
        if !(0 < c2 && c2 <= s.len() - q - c1) {
            return None;
        }
        proof {
            lemma_skip_skip(s@, q as int, c1 + c2);
            lemma_view_pairs_push(acc@, (key, value));
            match parse_pairs(s@.skip(q + c1 + c2), (n - i - 1) as nat) {
                Some((ts, c3)) => {
                    assert(view_pairs(acc@.push((key, value))) + ts =~= view_pairs(acc@) + (seq![
                        (key@, value@),
                    ] + ts));
                },
                None => {},
            }
        }
        acc.push((key, value));
        q = q + c1 + c2;
        i = i + 1;
    }
    proof {
        assert(view_pairs(acc@) + Seq::<(TermModel, TermModel)>::empty() =~= view_pairs(acc@));
    }
    Some((acc, q - p))
}

fn parse_list_at(s: &Vec<u8>, p: usize) -> (r: Option<(Term, usize)>)
    requires
        p <= s.len(),
    ensures
        match parse_list(s@.skip(p as int)) {
            Some((m, c)) => r matches Some((x, k)) && x@ == m && k as int == c,
            None => r is None,
        },
    decreases s.len() - p, 0nat, 0nat,
{
    reveal(parse_list);
    let ghost ss = s@.skip(p as int);
    if !(s.len() - p >= 5 && s[p] == 108) {
        return None;
    }
    let n = read32_at(s, p + 1);
    assert(read32(ss, 1) == read32(s@, p + 1));
    proof {
        lemma_skip_skip(s@, p as int, 5);
    }
    let (elements, c) = match parse_seq_at(s, p + 5, n) {
        Some(x) => x,
        None => {
            return None;
        },
    };
    proof {
        lemma_skip_skip(s@, p as int, 5 + c);
    }
    let (tail, c2) = match parse_at(s, p + 5 + c) {
        Some(x) => x,
        None => {
            return None;
        },
    };
    if !(0 < c2 && c2 <= s.len() - p - 5 - c) {
        return None;
    }
    let nil = match &tail {
        Term::List(v) => v.len() == 0,
        _ => false,
    };
    proof {
        if nil {
            lemma_view_all(tail->List_0@);
            assert(tail@ == TermModel::List(Seq::empty()));
        } else {
            if tail is List {
                lemma_view_all(tail->List_0@);
            }
        }
    }
    if nil {
        Some((Term::List(elements), 5 + c + c2))
    } else {
        Some((Term::ImproperList { elements, tail: Box::new(tail) }, 5 + c + c2))
    }
}

#[verifier::spinoff_prover]
#[verifier::rlimit(60)]
fn parse_old_fun_at(s: &Vec<u8>, p: usize) -> (r: Option<(Term, usize)>)
    requires
        p <= s.len(),
    ensures
        match parse_old_fun(s@.skip(p as int)) {
            Some((m, c)) => r matches Some((x, k)) && x@ == m && k as int == c,
            None => r is None,
        },
    decreases s.len() - p, 0nat, 0nat,
{
    reveal(parse_old_fun);
    let ghost ss = s@.skip(p as int);
    if !(s.len() - p >= 5 && s[p] == 117) {
        return None;
    }
    let nf = read32_at(s, p + 1);
    assert(read32(ss, 1) == read32(s@, p + 1));
    proof {
        lemma_skip_skip(s@, p as int, 5);
    }
    let (pid, c1) = match parse_pid_at(s, p + 5) {
        Some(x) => x,
        None => {
            return None;
        },
    };
    proof {
        lemma_skip_skip(s@, p as int, 5 + c1);
    }
    let (module, c2) = match parse_atom_at(s, p + 5 + c1) {
        Some(x) => x,
        None => {
            return None;
        },
    };
    if c2 > s.len() - p - 5 - c1 {
        return None;
    }
    proof {
        lemma_skip_skip(s@, p as int, 5 + c1 + c2);
    }
    let (index, c3) = match parse_int_at(s, p + 5 + c1 + c2) {
        Some(x) => x,
        None => {
            return None;
        },
    };
    proof {
        lemma_skip_skip(s@, p as int, 5 + c1 + c2 + c3);
    }
    let (uniq, c4) = match parse_int_at(s, p + 5 + c1 + c2 + c3) {
        Some(x) => x,
        None => {
            return None;
        },
    };
    let q = 5 + c1 + c2 + c3 + c4;
    proof {
        lemma_skip_skip(s@, p as int, q as int);
    }
    let (free_vars, c5) = match parse_seq_at(s, p + q, nf) {
        Some(x) => x,
        None => {
            return None;
        },
    };
    Some((Term::OldFun { pid, module, index, uniq, free_vars }, q + c5))
}

#[verifier::spinoff_prover]
#[verifier::rlimit(60)]
fn parse_new_fun_at(s: &Vec<u8>, p: usize) -> (r: Option<(Term, usize)>)
    requires
        p <= s.len(),
    ensures
        match parse_new_fun(s@.skip(p as int)) {
            Some((m, c)) => r matches Some((x, k)) && x@ == m && k as int == c,
            None => r is None,
        },
    decreases s.len() - p, 0nat, 0nat,
{
    reveal(parse_new_fun);
    let ghost ss = s@.skip(p as int);
    if !(s.len() - p >= 30 && s[p] == 112) {
        return None;
    }
    let arity = s[p + 5];
    let uniq = slice_copy(s, p + 6, 16);
    assert(uniq@ =~= ss.subrange(6, 22));
    let index = read32_at(s, p + 22);
    assert(read32(ss, 22) == read32(s@, p + 22));
    let nf = read32_at(s, p + 26);
    assert(read32(ss, 26) == read32(s@, p + 26));
    proof {
        lemma_skip_skip(s@, p as int, 30);
    }
    let (module, c1) = match parse_atom_at(s, p + 30) {
        Some(x) => x,
        None => {
            return None;
        },
    };
    if c1 > s.len() - p - 30 {
        return None;
    }
    proof {
        lemma_skip_skip(s@, p as int, 30 + c1);
    }
    let (old_index, c2) = match parse_int_at(s, p + 30 + c1) {
        Some(x) => x,
        None => {
            return None;
        },
    };
    proof {
        lemma_skip_skip(s@, p as int, 30 + c1 + c2);
    }
    let (old_uniq, c3) = match parse_int_at(s, p + 30 + c1 + c2) {
        Some(x) => x,
        None => {
            return None;
        },
    };
    proof {
        lemma_skip_skip(s@, p as int, 30 + c1 + c2 + c3);
    }
    let (pid, c4) = match parse_pid_at(s, p + 30 + c1 + c2 + c3) {
        Some(x) => x,
        None => {
            return None;
        },
    };
    let q = 30 + c1 + c2 + c3 + c4;
    proof {
        lemma_skip_skip(s@, p as int, q as int);
    }
    let (free_vars, c5) = match parse_seq_at(s, p + q, nf) {
        Some(x) => x,
        None => {
            return None;
        },
    };
    Some((Term::NewFun { arity, uniq, index, module, old_index, old_uniq, pid, free_vars }, q + c5))
}

#[verifier::spinoff_prover]
#[verifier::rlimit(60)]
/// Reads one term starting at byte `p`, and the number of bytes it takes.
fn parse_at(s: &Vec<u8>, p: usize) -> (r: Option<(Term, usize)>)
    requires
        p <= s.len(),
    ensures
        match parse(s@.skip(p as int)) {
            Some((m, c)) => r matches Some((x, k)) && x@ == m && k as int == c,
            None => r is None,
        },
    decreases s.len() - p, 0nat, 1nat,
{
    let ghost ss = s@.skip(p as int);
    if s.len() - p == 0 {
        return None;
    }
    let tag = s[p];
    if tag == 108 {
        parse_list_at(s, p)
    } else if tag == 104 || tag == 105 {
        let h: usize = if tag == 104 { 2 } else { 5 };
        if s.len() - p < h {
            return None;
        }
        let n: u32 = if tag == 104 { s[p + 1] as u32 } else { read32_at(s, p + 1) };
        assert(tag == 105 ==> read32(ss, 1) == read32(s@, p + 1));
        proof {
            lemma_skip_skip(s@, p as int, h as int);
        }
        match parse_seq_at(s, p + h, n) {
            Some((v, c)) => Some((Term::Tuple(v), h + c)),
            None => None,
        }
    } else if tag == 116 {
        if s.len() - p < 5 {
            return None;
        }
        let n = read32_at(s, p + 1);
        assert(read32(ss, 1) == read32(s@, p + 1));
        proof {
            lemma_skip_skip(s@, p as int, 5);
        }
        match parse_pairs_at(s, p + 5, n) {
            Some((ps, c)) => {
                if check_wf_pairs(&ps) && distinct_keys(&ps) {
                    Some((Term::Dict(ps), 5 + c))
                } else {
                    None
                }
            },
            None => None,
        }
    } else if tag == 117 {
        parse_old_fun_at(s, p)
    } else if tag == 112 {
        parse_new_fun_at(s, p)
    } else {
        parse_flat_at(s, p)
    }
}

/// The format version marker that starts every encoded term.
pub const VERSION_MARKER: u8 = 131;

/// Decodes a whole buffer: the version marker, then exactly one term.
pub fn decode(bytes: &Vec<u8>) -> (r: Result<Term, DecodeError>)
    ensures
        bytes@.len() == 0 || bytes@[0] != VERSION_MARKER ==> r == Err::<Term, DecodeError>(
            DecodeError::MissingVersion,
        ),
        r is Ok <==> decoded(bytes@) is Some,
        r matches Ok(t) ==> decoded(bytes@) == Some(t@),
        bytes@.len() > 0 && bytes@[0] == VERSION_MARKER ==> match parse(bytes@.skip(1)) {
            None => r == Err::<Term, DecodeError>(DecodeError::Malformed),
            Some((m, c)) => if c == bytes@.len() - 1 {
                r matches Ok(t) && t@ == m
            } else {
                r == Err::<Term, DecodeError>(DecodeError::TrailingBytes)
            },
        },
{
    if bytes.len() == 0 || bytes[0] != VERSION_MARKER {
        return Err(DecodeError::MissingVersion);
    }
    match parse_at(bytes, 1) {
        None => Err(DecodeError::Malformed),
        Some((t, c)) => {
            if c == bytes.len() - 1 {
                Ok(t)
            } else {
                Err(DecodeError::TrailingBytes)
            }
        },
    }
}

} // verus!
