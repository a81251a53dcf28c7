//! What the decoder reads: a parser over byte sequences, stated as spec functions.
use vstd::prelude::*;
use crate::encode::keys_distinct;
use crate::term::{wf_pairs, PidModel, TermModel};
use crate::wire::{read16, read32, read64};

verus! {

/// An atom under any of its four tags: its name and the bytes it takes.
pub open spec fn parse_atom(s: Seq<u8>) -> Option<(Seq<u8>, int)> {
    if s.len() >= 3 && (s[0] == 100 || s[0] == 118) && s.len() >= 3 + read16(s, 1) {
        Some((s.subrange(3, 3 + read16(s, 1)), 3 + read16(s, 1)))
    } else if s.len() >= 2 && (s[0] == 115 || s[0] == 119) && s.len() >= 2 + s[1] {
        Some((s.subrange(2, 2 + s[1]), 2 + s[1]))
    } else {
        None
    }
}

/// A small or 32-bit integer.
pub open spec fn parse_int(s: Seq<u8>) -> Option<(i32, int)> {
    if s.len() >= 2 && s[0] == 97 {
        Some((s[1] as i32, 2))
    } else if s.len() >= 5 && s[0] == 98 {
        Some((read32(s, 1) as i32, 5))
    } else {
        None
    }
}

pub open spec fn parse_pid(s: Seq<u8>) -> Option<(PidModel, int)> {
    if s.len() >= 1 && s[0] == 103 {
        match parse_atom(s.skip(1)) {
            Some((node, c)) => {
                let q = 1 + c;
                if s.len() >= q + 9 {
                    Some(
                        (
                            PidModel {
                                node,
                                id: read32(s, q),
                                serial: read32(s, q + 4),
                                creation: s[q + 8],
                            },
                            q + 9,
                        ),
                    )
                } else {
                    None
                }
            },
            None => None,
        }
    } else {
        None
    }
}

pub open spec fn sign_of(b: u8) -> Option<bool> {
    if b == 0 {
        Some(false)
    } else if b == 1 {
        Some(true)
    } else {
        None
    }
}

/// `k` consecutive 32-bit big-endian words.
pub open spec fn read32_all(s: Seq<u8>, k: nat) -> Seq<u32>
    decreases k,
{
    if k == 0 {
        Seq::empty()
    } else {
        seq![read32(s, 0)] + read32_all(s.skip(4), (k - 1) as nat)
    }
}

/// A term that holds no other term.
#[verifier::opaque]
pub open spec fn parse_flat(s: Seq<u8>) -> Option<(TermModel, int)> {
    if s.len() == 0 {
        None
    } else {
        let tag = s[0];
        if tag == 100 || tag == 115 || tag == 118 || tag == 119 {
            match parse_atom(s) {
                Some((n, c)) => Some((TermModel::Atom(n), c)),
                None => None,
            }
        } else if tag == 97 || tag == 98 {
            match parse_int(s) {
                Some((v, c)) => Some((TermModel::Int(v), c)),
                None => None,
            }
        } else if tag == 110 {
            if s.len() >= 3 && s.len() >= 3 + s[1] && sign_of(s[2]) is Some {
                Some(
                    (
                        TermModel::BigInt {
                            negative: sign_of(s[2])->0,
                            magnitude: s.subrange(3, 3 + s[1]),
                        },
                        3 + s[1],
                    ),
                )
            } else {
                None
            }
        } else if tag == 111 {
            if s.len() >= 6 && s.len() >= 6 + read32(s, 1) && sign_of(s[5]) is Some {
                Some(
                    (
                        TermModel::BigInt {
                            negative: sign_of(s[5])->0,
                            magnitude: s.subrange(6, 6 + read32(s, 1)),
                        },
                        6 + read32(s, 1),
                    ),
                )
            } else {
                None
            }
        } else if tag == 70 {
            if s.len() >= 9 {
                Some((TermModel::Float(read64(s, 1)), 9))
            } else {
                None
            }
        } else if tag == 109 {
            if s.len() >= 5 && s.len() >= 5 + read32(s, 1) {
                Some((TermModel::Binary(s.subrange(5, 5 + read32(s, 1))), 5 + read32(s, 1)))
            } else {
                None
            }
        } else if tag == 77 {
            if s.len() >= 6 && s.len() >= 6 + read32(s, 1) {
                Some(
                    (
                        TermModel::BitBinary {
                            bytes: s.subrange(6, 6 + read32(s, 1)),
                            tail_bits: s[5],
                        },
                        6 + read32(s, 1),
                    ),
                )
            } else {
                None
            }
        } else if tag == 107 {
            if s.len() >= 3 && s.len() >= 3 + read16(s, 1) {
                Some(
                    (TermModel::ByteList(s.subrange(3, 3 + read16(s, 1))), 3 + read16(s, 1)),
                )
            } else {
                None
            }
        } else if tag == 106 {
            Some((TermModel::List(Seq::empty()), 1))
        } else if tag == 103 {
            match parse_pid(s) {
                Some((p, c)) => Some((TermModel::Pid(p), c)),
                None => None,
            }
        } else if tag == 102 {
            match parse_atom(s.skip(1)) {
                Some((node, c)) => {
                    let q = 1 + c;
                    if s.len() >= q + 5 {
                        Some(
                            (
                                TermModel::Port { node, id: read32(s, q), creation: s[q + 4] },
                                q + 5,
                            ),
                        )
                    } else {
                        None
                    }
                },
                None => None,
            }
        } else if tag == 114 {
            if s.len() >= 3 {
                let k = read16(s, 1);
                match parse_atom(s.skip(3)) {
                    Some((node, c)) => {
                        let q = 3 + c;
                        if s.len() >= q + 1 + 4 * k {
                            Some(
                                (
                                    TermModel::Reference {
                                        node,
                                        creation: s[q],
                                        ids: read32_all(s.skip(q + 1), k as nat),
                                    },
                                    q + 1 + 4 * k,
                                ),
                            )
                        } else {
                            None
                        }
                    },
                    None => None,
                }
            } else {
                None
            }
        } else if tag == 113 {
            match parse_atom(s.skip(1)) {
                Some((module, c1)) => match parse_atom(s.skip(1 + c1)) {
                    Some((function, c2)) => {
                        let q = 1 + c1 + c2;
                        if s.len() >= q + 2 && s[q] == 97 {
                            Some(
                                (
                                    TermModel::ExternalFun { module, function, arity: s[q + 1] },
                                    q + 2,
                                ),
                            )
                        } else {
                            None
                        }
                    },
                    None => None,
                },
                None => None,
            }
        } else {
            None
        }
    }
}

/// `n` consecutive terms.
pub open spec fn parse_seq(s: Seq<u8>, n: nat) -> Option<(Seq<TermModel>, int)>
    decreases s.len(), 1nat, n,
{
    if n == 0 {
        Some((Seq::empty(), 0))
    } else {
        match parse(s) {
            Some((t, c)) => if 0 < c <= s.len() {
                match parse_seq(s.skip(c as int), (n - 1) as nat) {
                    Some((ts, c2)) => Some((seq![t] + ts, c + c2)),
                    None => None,
                }
            } else {
                None
            },
            None => None,
        }
    }
}

/// `n` consecutive key-value pairs.
pub open spec fn parse_pairs(s: Seq<u8>, n: nat) -> Option<(Seq<(TermModel, TermModel)>, int)>
    decreases s.len(), 1nat, n,
{
    if n == 0 {
        Some((Seq::empty(), 0))
    } else {
        match parse(s) {
            Some((k, c1)) => if 0 < c1 <= s.len() {
                match parse(s.skip(c1 as int)) {
                    Some((v, c2)) => if 0 < c2 <= s.len() - c1 {
                        match parse_pairs(s.skip(c1 + c2), (n - 1) as nat) {
                            Some((ps, c3)) => Some((seq![(k, v)] + ps, c1 + c2 + c3)),
                            None => None,
                        }
                    } else {
                        None
                    },
                    None => None,
                }
            } else {
                None
            },
            None => None,
        }
    }
}

/// A list: `n` elements, then a tail; a nil tail makes it a proper list.
#[verifier::opaque]
pub open spec fn parse_list(s: Seq<u8>) -> Option<(TermModel, int)>
    decreases s.len(), 0nat, 0nat,
{
    if s.len() >= 5 && s[0] == 108 {
        match parse_seq(s.skip(5), read32(s, 1) as nat) {
            Some((elems, c)) => if 0 <= c <= s.len() - 5 {
                match parse(s.skip(5 + c)) {
                    Some((tail, c2)) => if !(0 < c2 <= s.len() - 5 - c) {
                        None
                    } else if tail == TermModel::List(Seq::empty()) {
                        Some((TermModel::List(elems), 5 + c + c2))
                    } else {
                        Some((TermModel::ImproperList { elements: elems, tail: Box::new(tail) }, 5 + c + c2))
                    },
                    None => None,
                }
            } else {
                None
            },
            None => None,
        }
    } else {
        None
    }
}

#[verifier::opaque]
pub open spec fn parse_old_fun(s: Seq<u8>) -> Option<(TermModel, int)>
    decreases s.len(), 0nat, 0nat,
{
    if s.len() >= 5 && s[0] == 117 {
        match parse_pid(s.skip(5)) {
            Some((pid, c1)) => match parse_atom(s.skip(5 + c1)) {
                Some((module, c2)) => match parse_int(s.skip(5 + c1 + c2)) {
                    Some((index, c3)) => match parse_int(s.skip(5 + c1 + c2 + c3)) {
                        Some((uniq, c4)) => {
                            let q = 5 + c1 + c2 + c3 + c4;
                            if q <= s.len() {
                                match parse_seq(s.skip(q), read32(s, 1) as nat) {
                                    Some((free_vars, c5)) => Some(
                                        (TermModel::OldFun { pid, module, index, uniq, free_vars }, q + c5),
                                    ),
                                    None => None,
                                }
                            } else {
                                None
                            }
                        },
                        None => None,
                    },
                    None => None,
                },
                None => None,
            },
            None => None,
        }
    } else {
        None
    }
}

#[verifier::opaque]
pub open spec fn parse_new_fun(s: Seq<u8>) -> Option<(TermModel, int)>
    decreases s.len(), 0nat, 0nat,
{
    if s.len() >= 30 && s[0] == 112 {
        match parse_atom(s.skip(30)) {
            Some((module, c1)) => match parse_int(s.skip(30 + c1)) {
                Some((old_index, c2)) => match parse_int(s.skip(30 + c1 + c2)) {
                    Some((old_uniq, c3)) => match parse_pid(s.skip(30 + c1 + c2 + c3)) {
                        Some((pid, c4)) => {
                            let q = 30 + c1 + c2 + c3 + c4;
                            if q <= s.len() {
                                match parse_seq(s.skip(q), read32(s, 26) as nat) {
                                    Some((free_vars, c5)) => Some(
                                        (
                                            TermModel::NewFun {
                                                arity: s[5],
                                                uniq: s.subrange(6, 22),
                                                index: read32(s, 22),
                                                module,
                                                old_index,
                                                old_uniq,
                                                pid,
                                                free_vars,
                                            },
                                            q + c5,
                                        ),
                                    ),
                                    None => None,
                                }
                            } else {
                                None
                            }
                        },
                        None => None,
                    },
                    None => None,
                },
                None => None,
            },
            None => None,
        }
    } else {
        None
    }
}

/// One term at the start of `s`, and the number of bytes it takes.
pub open spec fn parse(s: Seq<u8>) -> Option<(TermModel, int)>
    decreases s.len(), 0nat, 1nat,
{
    if s.len() == 0 {
        None
    } else if s[0] == 108 {
        parse_list(s)
    } else if s[0] == 104 {
        if s.len() >= 2 {
            match parse_seq(s.skip(2), s[1] as nat) {
                Some((v, c)) => Some((TermModel::Tuple(v), 2 + c)),
                None => None,
            }
        } else {
            None
        }
    } else if s[0] == 105 {
        if s.len() >= 5 {
            match parse_seq(s.skip(5), read32(s, 1) as nat) {
                Some((v, c)) => Some((TermModel::Tuple(v), 5 + c)),
                None => None,
            }
        } else {
            None
        }
    } else if s[0] == 116 {
        if s.len() >= 5 {
            match parse_pairs(s.skip(5), read32(s, 1) as nat) {
                Some((ps, c)) => if wf_pairs(ps) && keys_distinct(ps) {
                    Some((TermModel::Dict(ps), 5 + c))
                } else {
                    None
                },
                None => None,
            }
        } else {
            None
        }
    } else if s[0] == 117 {
        parse_old_fun(s)
    } else if s[0] == 112 {
        parse_new_fun(s)
    } else {
        parse_flat(s)
    }
}

/// The term that a whole buffer holds: the version marker, then exactly one term.
pub open spec fn decoded(b: Seq<u8>) -> Option<TermModel> {
    if b.len() > 0 && b[0] == 131 {
        match parse(b.skip(1)) {
            Some((m, c)) => if c == b.len() - 1 {
                Some(m)
            } else {
                None
            },
            None => None,
        }
    } else {
        None
    }
}

} // verus!
