//! A readable form of contract-state keys: text kept as it is, 48-byte public keys
//! in Base58, anything else in hex.
use vstd::prelude::*;
use vstd::string::StringSliceAdditionalSpecFns;
use crate::external::{base58, base58_of, hex_ascii, hex_bytes, is_utf8, utf8_valid};
use crate::wire::{push_bytes, slice_copy};

verus! {

/// Known key prefixes, tried in this order.
pub open spec fn prefix_table() -> Seq<Seq<u8>> {
    seq![
        "bic:coin:balance:".spec_bytes(),
        "bic:epoch:trainers:".spec_bytes(),
        "bic:epoch:pop:".spec_bytes(),
        "bic:base:nonce:".spec_bytes(),
        "bic:epoch:emission_address:".spec_bytes(),
        "bic:epoch:segment_vr_hash".spec_bytes(),
        "bic:epoch:solutions_count:".spec_bytes(),
        "bic:contract:account:".spec_bytes(),
        "bic:coin:".spec_bytes(),
        "bic:epoch:".spec_bytes(),
    ]
}

fn prefix_table_exec() -> (r: Vec<Vec<u8>>)
    ensures
        r@.map_values(|v: Vec<u8>| v@) == prefix_table(),
{
    let mut r: Vec<Vec<u8>> = Vec::new();
    r.push(vstd::slice::slice_to_vec("bic:coin:balance:".as_bytes()));
    r.push(vstd::slice::slice_to_vec("bic:epoch:trainers:".as_bytes()));
    r.push(vstd::slice::slice_to_vec("bic:epoch:pop:".as_bytes()));
    r.push(vstd::slice::slice_to_vec("bic:base:nonce:".as_bytes()));
    r.push(vstd::slice::slice_to_vec("bic:epoch:emission_address:".as_bytes()));
    r.push(vstd::slice::slice_to_vec("bic:epoch:segment_vr_hash".as_bytes()));
    r.push(vstd::slice::slice_to_vec("bic:epoch:solutions_count:".as_bytes()));
    r.push(vstd::slice::slice_to_vec("bic:contract:account:".as_bytes()));
    r.push(vstd::slice::slice_to_vec("bic:coin:".as_bytes()));
    r.push(vstd::slice::slice_to_vec("bic:epoch:".as_bytes()));
    assert(r@.map_values(|v: Vec<u8>| v@) =~= prefix_table());
    r
}

pub open spec fn starts_with(key: Seq<u8>, p: Seq<u8>) -> bool {
    key.len() >= p.len() && key.subrange(0, p.len() as int) == p
}

/// The first prefix of `table` that `key` starts with.
pub open spec fn matching_prefix(key: Seq<u8>, table: Seq<Seq<u8>>) -> Option<Seq<u8>>
    decreases table.len(),
{
    if table.len() == 0 {
        None
    } else if starts_with(key, table[0]) {
        Some(table[0])
    } else {
        matching_prefix(key, table.drop_first())
    }
}

pub open spec fn all_equal(b: Seq<u8>, v: u8) -> bool {
    forall|i: int| 0 <= i < b.len() ==> b[i] == v
}

pub open spec fn all_digits(b: Seq<u8>) -> bool {
    forall|i: int| 0 <= i < b.len() ==> 48 <= #[trigger] b[i] <= 57
}

/// Whether the next 48 bytes read as a public key: neither all zero nor all 0xFF.
pub open spec fn public_key_ahead(rem: Seq<u8>) -> bool {
    rem.len() >= 48 && !all_equal(rem.take(48), 0) && !all_equal(rem.take(48), 255)
}

/// The readable form of what follows a key's prefix.
pub open spec fn rest_display(rem: Seq<u8>) -> Seq<u8>
    decreases rem.len(),
{
    if rem.len() == 0 {
        Seq::empty()
    } else if public_key_ahead(rem) {
        let after = rem.skip(48);
        if after.len() > 0 && utf8_valid(after) {
            base58_of(rem.take(48)) + after
        } else {
            base58_of(rem.take(48)) + rest_display(after)
        }
    } else if rem.len() >= 12 && all_digits(rem.take(12)) {
        rem.take(12) + rest_display(rem.skip(12))
    } else if utf8_valid(rem) {
        rem
    } else {
        seq![58u8, 104, 101, 120, 58] + hex_ascii(rem)
    }
}

/// The readable form of a contract-state key: valid UTF-8 as it is; after a known
/// prefix, 48-byte public keys in Base58, 12-digit numbers and text as they are, the
/// rest in hex; without a known prefix, all in hex.
pub open spec fn key_display(key: Seq<u8>) -> Seq<u8> {
    if utf8_valid(key) {
        key
    } else {
        match matching_prefix(key, prefix_table()) {
            None => seq![104u8, 101, 120, 58] + hex_ascii(key),
            Some(p) => p + rest_display(key.skip(p.len() as int)),
        }
    }
}

fn starts_with_exec(key: &Vec<u8>, p: &Vec<u8>) -> (r: bool)
    ensures
        r == starts_with(key@, p@),
{
    if key.len() < p.len() {
        return false;
    }
    let mut i: usize = 0;
    while i < p.len()
        invariant
            i <= p.len(),
            p.len() <= key.len(),
            forall|j: int| 0 <= j < i ==> key@[j] == p@[j],
        decreases p.len() - i,
    {
        if key[i] != p[i] {
            assert(key@.subrange(0, p.len() as int)[i as int] != p@[i as int]);
            return false;
        }
        i += 1;
    }
    assert(key@.subrange(0, p.len() as int) =~= p@);
    true
}

fn all_equal_exec(b: &Vec<u8>, p: usize, n: usize, v: u8) -> (r: bool)
    requires
        p + n <= b.len(),
    ensures
        r == all_equal(b@.subrange(p as int, p + n), v),
{
    let mut i: usize = 0;
    while i < n
        invariant
            i <= n,
            p + n <= b.len(),
            forall|j: int| 0 <= j < i ==> #[trigger] b@[p + j] == v,
        decreases n - i,
    {
        if b[p + i] != v {
            assert(b@.subrange(p as int, p + n)[i as int] != v);
            return false;
        }
        i += 1;
    }
    assert forall|j: int| 0 <= j < n implies #[trigger] b@.subrange(p as int, p + n)[j] == v by {
        assert(b@.subrange(p as int, p + n)[j] == b@[p + j]);
    }
    true
}

fn all_digits_exec(b: &Vec<u8>, p: usize, n: usize) -> (r: bool)
    requires
        p + n <= b.len(),
    ensures
        r == all_digits(b@.subrange(p as int, p + n)),
{
    let mut i: usize = 0;
    while i < n
        invariant
            i <= n,
            p + n <= b.len(),
            forall|j: int| 0 <= j < i ==> 48 <= #[trigger] b@[p + j] <= 57,
        decreases n - i,
    {
        if b[p + i] < 48 || b[p + i] > 57 {
            assert(b@.subrange(p as int, p + n)[i as int] == b@[p + i]);
            return false;
        }
        i += 1;
    }
    assert forall|j: int| 0 <= j < n implies 48 <= #[trigger] b@.subrange(p as int, p + n)[j] <= 57 by {
        assert(b@.subrange(p as int, p + n)[j] == b@[p + j]);
    }
    true
}

proof fn lemma_matching_prefix(key: Seq<u8>, table: Seq<Seq<u8>>)
    ensures
        matching_prefix(key, table) matches Some(p) ==> starts_with(key, p),
    decreases table.len(),
{
    if table.len() > 0 && !starts_with(key, table[0]) {
        lemma_matching_prefix(key, table.drop_first());
    }
}

fn find_prefix(key: &Vec<u8>, table: &Vec<Vec<u8>>) -> (r: Option<usize>)
    ensures
        match r {
            None => matching_prefix(key@, table@.map_values(|v: Vec<u8>| v@)) is None,
            Some(t) => t < table.len() && matching_prefix(key@, table@.map_values(|v: Vec<u8>| v@))
                == Some(table@[t as int]@),
        },
{
    let ghost tv = table@.map_values(|v: Vec<u8>| v@);
    let mut t: usize = 0;
    assert(tv.skip(0) =~= tv);
    while t < table.len()
        invariant
            t <= table.len(),
            tv == table@.map_values(|v: Vec<u8>| v@),
            matching_prefix(key@, tv) == matching_prefix(key@, tv.skip(t as int)),
        decreases table.len() - t,
    {
        assert(tv.skip(t as int)[0] == table@[t as int]@);
        if starts_with_exec(key, &table[t]) {
            return Some(t);
        }
        assert(tv.skip(t as int).drop_first() =~= tv.skip(t + 1));
        t += 1;
    }
    None
}

/// The readable form of a contract-state key, as UTF-8 bytes.
pub fn decode_contractstate_key(key: &Vec<u8>) -> (r: Vec<u8>)
    ensures
        r@ == key_display(key@),
{
    if is_utf8(key) {
        return slice_copy(key, 0, key.len());
    }
    let table = prefix_table_exec();
    let ghost tv = table@.map_values(|v: Vec<u8>| v@);
    let found = find_prefix(key, &table);
    let t = match found {
        None => {
            let mut out = vec![104u8, 101, 120, 58];
            let h = hex_bytes(key);
            push_bytes(&mut out, &h);
            assert(out@ =~= seq![104u8, 101, 120, 58] + hex_ascii(key@));
            return out;
        },
        Some(t) => t,
    };
    assert(tv[t as int] == table@[t as int]@);
    proof {
        lemma_matching_prefix(key@, tv);
    }
    let plen = table[t].len();
    let mut out = slice_copy(&table[t], 0, plen);
    assert(out@ =~= tv[t as int]);
    let mut pos: usize = plen;
    let ghost total = key_display(key@);
    assert(total == out@ + rest_display(key@.skip(pos as int)));
    while pos < key.len()
        invariant
            plen <= pos <= key.len(),
            total == key_display(key@),
            total == out@ + rest_display(key@.skip(pos as int)),
        decreases key.len() - pos,
    {
        let ghost rem = key@.skip(pos as int);
        let n = key.len() - pos;
        if n >= 48 && !all_equal_exec(key, pos, 48, 0) && !all_equal_exec(key, pos, 48, 255) {
            assert(rem.take(48) =~= key@.subrange(pos as int, pos + 48));
            assert(public_key_ahead(rem));
            let chunk = slice_copy(key, pos, 48);
            let b = base58(&chunk);
            let ghost out0 = out@;
            push_bytes(&mut out, &b);
            pos = pos + 48;
            assert(rem.skip(48) =~= key@.skip(pos as int));
            if pos < key.len() {
                let after = slice_copy(key, pos, key.len() - pos);
                assert(after@ =~= key@.skip(pos as int));
                if is_utf8(&after) {
                    assert(rest_display(rem) == base58_of(rem.take(48)) + rem.skip(48));
                    push_bytes(&mut out, &after);
                    assert(out@ =~= out0 + (base58_of(rem.take(48)) + rem.skip(48)));
                    return out;
                }
            }
            assert(rest_display(rem) == base58_of(rem.take(48)) + rest_display(rem.skip(48)));
            assert(out@ + rest_display(key@.skip(pos as int)) =~= out0 + rest_display(rem));
            continue;
        }
        proof {
            if n >= 12 {
                assert(rem.take(12) =~= key@.subrange(pos as int, pos + 12));
            }
        }
        if n >= 12 && all_digits_exec(key, pos, 12) {
            let digits = slice_copy(key, pos, 12);
            let ghost out0 = out@;
            push_bytes(&mut out, &digits);
            pos = pos + 12;
            assert(rem.skip(12) =~= key@.skip(pos as int));
            assert(rest_display(rem) == rem.take(12) + rest_display(rem.skip(12)));
            assert(out@ + rest_display(key@.skip(pos as int)) =~= out0 + rest_display(rem));
            continue;
        }
        let r = slice_copy(key, pos, n);
        assert(r@ =~= rem);
        assert(!public_key_ahead(rem));
        assert(!(rem.len() >= 12 && all_digits(rem.take(12))));
        if is_utf8(&r) {
            assert(rest_display(rem) == rem);
            push_bytes(&mut out, &r);
            return out;
        }
        let mut tail = vec![58u8, 104, 101, 120, 58];
        let h = hex_bytes(&r);
        push_bytes(&mut tail, &h);
        assert(tail@ =~= seq![58u8, 104, 101, 120, 58] + hex_ascii(rem));
        assert(rest_display(rem) == tail@);
        push_bytes(&mut out, &tail);
        return out;
    }
    assert(key@.skip(pos as int) =~= Seq::<u8>::empty());
    assert(out@ + Seq::<u8>::empty() =~= out@);
    out
}

} // verus!
