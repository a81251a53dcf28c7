//! Metadata of a chain entry: height, slot, content hash and the link to its predecessor.
//!
//! An entry is a map with a `header` field. The header is itself a map, held either
//! already decoded or as a binary that holds its encoding; both forms are read.
use vstd::prelude::*;
use crate::decode::decode;
use crate::decode_spec::decoded;
use crate::encode::{enc, encode_safe_deterministic, Mode};
use crate::external::{blake3_digest, content_digest};
use crate::fields::{find_field, find_field_index, uint_field, uint_field_of};
use crate::term::{check_wf, lemma_view_pairs, view_pairs, wf, Term, TermModel};
use crate::wire::slice_copy;

verus! {

pub open spec fn name_header() -> Seq<u8> {
    seq![104u8, 101, 97, 100, 101, 114]
}

pub open spec fn name_height() -> Seq<u8> {
    seq![104u8, 101, 105, 103, 104, 116]
}

pub open spec fn name_slot() -> Seq<u8> {
    seq![115u8, 108, 111, 116]
}

pub open spec fn name_prev_hash() -> Seq<u8> {
    seq![112u8, 114, 101, 118, 95, 104, 97, 115, 104]
}

pub open spec fn name_hash() -> Seq<u8> {
    seq![104u8, 97, 115, 104]
}

fn header_name() -> (r: Vec<u8>)
    ensures
        r@ == name_header(),
{
    let r = vec![104u8, 101, 97, 100, 101, 114];
    assert(r@ =~= name_header());
    r
}

fn height_name() -> (r: Vec<u8>)
    ensures
        r@ == name_height(),
{
    let r = vec![104u8, 101, 105, 103, 104, 116];
    assert(r@ =~= name_height());
    r
}

fn slot_name() -> (r: Vec<u8>)
    ensures
        r@ == name_slot(),
{
    let r = vec![115u8, 108, 111, 116];
    assert(r@ =~= name_slot());
    r
}

fn prev_hash_name() -> (r: Vec<u8>)
    ensures
        r@ == name_prev_hash(),
{
    let r = vec![112u8, 114, 101, 118, 95, 104, 97, 115, 104];
    assert(r@ =~= name_prev_hash());
    r
}

fn hash_name() -> (r: Vec<u8>)
    ensures
        r@ == name_hash(),
{
    let r = vec![104u8, 97, 115, 104];
    assert(r@ =~= name_hash());
    r
}

/// The header of a decoded entry: its fields, and the bytes that its content hash covers
/// (the binary as stored, or the canonical encoding of a header held decoded).
pub open spec fn header_of(entry: TermModel) -> Option<(Seq<(TermModel, TermModel)>, Seq<u8>)> {
    match entry {
        TermModel::Dict(ps) => match find_field(ps, name_header()) {
            Some(TermModel::Binary(b)) => match decoded(b) {
                Some(TermModel::Dict(hps)) => Some((hps, b)),
                _ => None,
            },
            Some(TermModel::Dict(hps)) => if wf(TermModel::Dict(hps)) {
                Some((hps, seq![131u8] + enc(TermModel::Dict(hps), Mode::Canonical)))
            } else {
                None
            },
            _ => None,
        },
        _ => None,
    }
}

/// The header's `prev_hash`, where it is a 32-byte binary.
pub open spec fn prev_hash_field(hps: Seq<(TermModel, TermModel)>) -> Option<Seq<u8>> {
    match find_field(hps, name_prev_hash()) {
        Some(TermModel::Binary(b)) => if b.len() == 32 {
            Some(b)
        } else {
            None
        },
        _ => None,
    }
}

/// What a header says, read from its fields.
pub struct HeaderFacts {
    pub height: Option<u64>,
    pub slot: Option<u64>,
    pub prev_hash: Option<Vec<u8>>,
    pub hashed: Vec<u8>,
}

pub open spec fn facts_of(f: HeaderFacts, hps: Seq<(TermModel, TermModel)>, hb: Seq<u8>) -> bool {
    &&& f.height == uint_field(hps, name_height())
    &&& f.slot == uint_field(hps, name_slot())
    &&& match prev_hash_field(hps) {
        None => f.prev_hash is None,
        Some(b) => f.prev_hash matches Some(v) && v@ == b,
    }
    &&& f.hashed@ == hb
}

fn facts_of_pairs(hps: &Vec<(Term, Term)>, hashed: Vec<u8>) -> (f: HeaderFacts)
    ensures
        facts_of(f, view_pairs(hps@), hashed@),
{
    let height = uint_field_of(hps, &height_name());
    let slot = uint_field_of(hps, &slot_name());
    let prev_hash = match find_field_index(hps, &prev_hash_name()) {
        Some(i) => match &hps[i].1 {
            Term::Binary(b) => if b.len() == 32 {
                Some(slice_copy(b, 0, 32))
            } else {
                None
            },
            _ => None,
        },
        None => None,
    };
    proof {
        match prev_hash_field(view_pairs(hps@)) {
            Some(b) => {
                assert(prev_hash is Some);
                assert(b =~= prev_hash->0@);
            },
            None => {},
        }
    }
    HeaderFacts { height, slot, prev_hash, hashed }
}

/// Reads the header of a decoded entry, in either of its two forms.
pub fn header_facts(entry: &Term) -> (r: Option<HeaderFacts>)
    ensures
        match header_of(entry@) {
            None => r is None,
            Some((hps, hb)) => r matches Some(f) && facts_of(f, hps, hb),
        },
{
    let ps = match entry {
        Term::Dict(ps) => ps,
        _ => {
            return None;
        },
    };
    let i = match find_field_index(ps, &header_name()) {
        Some(i) => i,
        None => {
            return None;
        },
    };
    match &ps[i].1 {
        Term::Binary(b) => {
            let hashed = slice_copy(b, 0, b.len());
            assert(hashed@ =~= b@);
            match decode(b) {
                Ok(Term::Dict(hps)) => {
                    proof {
                        lemma_view_pairs(hps@);
                    }
                    Some(facts_of_pairs(&hps, hashed))
                },
                _ => None,
            }
        },
        Term::Dict(hps) => {
            let header = &ps[i].1;
            if !check_wf(header) {
                return None;
            }
            let hashed = encode_safe_deterministic(header);
            Some(facts_of_pairs(hps, hashed))
        },
        _ => None,
    }
}

/// Height, slot and the bytes that the content hash covers.
pub struct EntryHeader {
    pub height: u64,
    pub slot: u64,
    pub hashed: Vec<u8>,
}

/// Height, slot and content hash of an entry.
pub struct EntryMeta {
    pub height: u64,
    pub slot: u64,
    pub hash: Vec<u8>,
}

/// Height, slot and hashed bytes of an encoded entry, where all three can be read.
pub open spec fn entry_fields(entry: Seq<u8>) -> Option<(u64, u64, Seq<u8>)> {
    match decoded(entry) {
        Some(m) => match header_of(m) {
            Some((hps, hb)) => match (uint_field(hps, name_height()), uint_field(hps, name_slot())) {
                (Some(h), Some(s)) => Some((h, s, hb)),
                _ => None,
            },
            None => None,
        },
        None => None,
    }
}

/// Reads height and slot of an encoded entry and the bytes its content hash covers;
/// `None` where the entry does not decode or a field is missing.
pub fn entry_header(entry: &Vec<u8>) -> (r: Option<EntryHeader>)
    ensures
        match entry_fields(entry@) {
            None => r is None,
            Some((h, s, hb)) => r matches Some(x) && x.height == h && x.slot == s && x.hashed@ == hb,
        },
{
    let t = match decode(entry) {
        Ok(t) => t,
        Err(_) => {
            return None;
        },
    };
    match header_facts(&t) {
        Some(f) => match (f.height, f.slot) {
            (Some(height), Some(slot)) => Some(EntryHeader { height, slot, hashed: f.hashed }),
            _ => None,
        },
        None => None,
    }
}

/// Height, slot and content hash (BLAKE3 of the header's bytes) of an encoded entry;
/// `None` where the entry does not decode or a field is missing.
pub fn extract_metadata(entry: &Vec<u8>) -> (r: Option<EntryMeta>)
    ensures
        match entry_fields(entry@) {
            None => r is None,
            Some((h, s, hb)) => r matches Some(m) && m.height == h && m.slot == s && m.hash@
                == blake3_digest(hb),
        },
{
    match entry_header(entry) {
        Some(x) => {
            let hash = content_digest(&x.hashed);
            Some(EntryMeta { height: x.height, slot: x.slot, hash })
        },
        None => None,
    }
}

/// The previous-entry link of an entry.
pub enum PrevLink {
    /// The all-zero hash: the entry follows genesis.
    Genesis,
    /// The content hash of the previous entry.
    Hash(Vec<u8>),
    /// No readable 32-byte `prev_hash`.
    Missing,
}

pub open spec fn is_zero_hash(b: Seq<u8>) -> bool {
    forall|i: int| 0 <= i < b.len() ==> b[i] == 0
}

/// The `prev_hash` of a decoded entry.
pub open spec fn entry_prev_hash(m: TermModel) -> Option<Seq<u8>> {
    match header_of(m) {
        Some((hps, _)) => prev_hash_field(hps),
        None => None,
    }
}

pub open spec fn prev_link_is(r: PrevLink, p: Option<Seq<u8>>) -> bool {
    match p {
        None => r is Missing,
        Some(b) => if is_zero_hash(b) {
            r is Genesis
        } else {
            r matches PrevLink::Hash(v) && v@ == b
        },
    }
}

fn all_zero(b: &Vec<u8>) -> (r: bool)
    ensures
        r == is_zero_hash(b@),
{
    let mut i: usize = 0;
    while i < b.len()
        invariant
            i <= b.len(),
            forall|j: int| 0 <= j < i ==> b@[j] == 0,
        decreases b.len() - i,
    {
        if b[i] != 0 {
            return false;
        }
        i += 1;
    }
    true
}

fn link_of(p: Option<Vec<u8>>) -> (r: PrevLink)
    ensures
        prev_link_is(
            r,
            match p {
                Some(v) => Some(v@),
                None => None,
            },
        ),
{
    match p {
        None => PrevLink::Missing,
        Some(b) => if all_zero(&b) {
            PrevLink::Genesis
        } else {
            PrevLink::Hash(b)
        },
    }
}

/// The link from a decoded entry to its predecessor.
pub fn prev_link(entry: &Term) -> (r: PrevLink)
    ensures
        prev_link_is(r, entry_prev_hash(entry@)),
{
    match header_facts(entry) {
        Some(f) => link_of(f.prev_hash),
        None => PrevLink::Missing,
    }
}

/// The link from an encoded entry to its predecessor; `Missing` where it does not decode.
pub fn extract_prev_hash(entry: &Vec<u8>) -> (r: PrevLink)
    ensures
        prev_link_is(
            r,
            match decoded(entry@) {
                Some(m) => entry_prev_hash(m),
                None => None,
            },
        ),
{
    match decode(entry) {
        Ok(t) => prev_link(&t),
        Err(_) => PrevLink::Missing,
    }
}

/// The height of a decoded entry.
pub open spec fn entry_height(m: TermModel) -> Option<u64> {
    match header_of(m) {
        Some((hps, _)) => uint_field(hps, name_height()),
        None => None,
    }
}

/// The height of the entry before `entry_term`: 0 where its `prev_hash` is the all-zero
/// genesis hash, else the height of `prev_entry`, the decoded entry that its
/// `prev_hash` names, when the caller found one.
pub fn get_prev_height_from_vecpak_entry(entry_term: &Term, prev_entry: Option<&Term>) -> (r:
    Option<u64>)
    ensures
        match entry_prev_hash(entry_term@) {
            None => r is None,
            Some(b) => if is_zero_hash(b) {
                r == Some(0u64)
            } else {
                match prev_entry {
                    None => r is None,
                    Some(p) => r == entry_height(p@),
                }
            },
        },
{
    match prev_link(entry_term) {
        PrevLink::Genesis => Some(0),
        PrevLink::Missing => None,
        PrevLink::Hash(_) => match prev_entry {
            None => None,
            Some(p) => match header_facts(p) {
                Some(f) => f.height,
                None => None,
            },
        },
    }
}

/// The `header` binary of an encoded entry, as stored.
pub open spec fn header_binary(entry: Seq<u8>) -> Option<Seq<u8>> {
    match decoded(entry) {
        Some(TermModel::Dict(ps)) => match find_field(ps, name_header()) {
            Some(TermModel::Binary(b)) => Some(b),
            _ => None,
        },
        _ => None,
    }
}

/// The `hash` binary of an encoded entry, as stored.
pub open spec fn stored_hash(entry: Seq<u8>) -> Option<Seq<u8>> {
    match decoded(entry) {
        Some(TermModel::Dict(ps)) => match find_field(ps, name_hash()) {
            Some(TermModel::Binary(b)) => Some(b),
            _ => None,
        },
        _ => None,
    }
}

fn binary_field(entry: &Vec<u8>, name: &Vec<u8>) -> (r: Option<Vec<u8>>)
    ensures
        match decoded(entry@) {
            Some(TermModel::Dict(ps)) => match find_field(ps, name@) {
                Some(TermModel::Binary(b)) => r matches Some(v) && v@ == b,
                _ => r is None,
            },
            _ => r is None,
        },
{
    let t = match decode(entry) {
        Ok(t) => t,
        Err(_) => {
            return None;
        },
    };
    match &t {
        Term::Dict(ps) => match find_field_index(ps, name) {
            Some(i) => match &ps[i].1 {
                Term::Binary(b) => {
                    let v = slice_copy(b, 0, b.len());
                    assert(v@ =~= b@);
                    Some(v)
                },
                _ => None,
            },
            None => None,
        },
        _ => None,
    }
}

/// The stored `header` binary of an encoded entry.
pub fn extract_header_binary_from_entry(entry: &Vec<u8>) -> (r: Option<Vec<u8>>)
    ensures
        match header_binary(entry@) {
            None => r is None,
            Some(b) => r matches Some(v) && v@ == b,
        },
{
    binary_field(entry, &header_name())
}

/// The stored `hash` binary of an encoded entry.
pub fn extract_hash_from_entry(entry: &Vec<u8>) -> (r: Option<Vec<u8>>)
    ensures
        match stored_hash(entry@) {
            None => r is None,
            Some(b) => r matches Some(v) && v@ == b,
        },
{
    binary_field(entry, &hash_name())
}

/// The BLAKE3 digest of the stored `header` binary.
pub fn compute_entry_hash(entry: &Vec<u8>) -> (r: Option<Vec<u8>>)
    ensures
        match header_binary(entry@) {
            None => r is None,
            Some(b) => r matches Some(v) && v@ == blake3_digest(b),
        },
{
    match extract_header_binary_from_entry(entry) {
        Some(b) => Some(content_digest(&b)),
        None => None,
    }
}

/// The outcome of checking an entry's stored hash against its header.
pub struct HashCheck {
    pub matches: bool,
    pub stored: Vec<u8>,
    pub computed: Vec<u8>,
}

/// Whether a stored hash equals a computed one.
pub fn hashes_match(stored: &Vec<u8>, computed: &Vec<u8>) -> (r: bool)
    ensures
        r == (stored@ == computed@),
{
    crate::wire::lex_cmp(stored, computed) == 0
}

/// Checks an encoded entry's stored `hash` against the BLAKE3 digest of its `header`
/// binary; `None` where either field is missing.
pub fn check_entry_hash(entry: &Vec<u8>) -> (r: Option<HashCheck>)
    ensures
        match (stored_hash(entry@), header_binary(entry@)) {
            (Some(s), Some(h)) => r matches Some(c) && c.stored@ == s && c.computed@
                == blake3_digest(h) && c.matches == (s == blake3_digest(h)),
            _ => r is None,
        },
{
    let stored = match extract_hash_from_entry(entry) {
        Some(s) => s,
        None => {
            return None;
        },
    };
    let computed = match compute_entry_hash(entry) {
        Some(c) => c,
        None => {
            return None;
        },
    };
    let matches = hashes_match(&stored, &computed);
    Some(HashCheck { matches, stored, computed })
}

} // verus!
