use std::collections::{BTreeMap, HashMap};

use fabric_doctor::entry::{
    check_entry_hash, compute_entry_hash, entry_header, extract_hash_from_entry,
    extract_header_binary_from_entry, extract_metadata, extract_prev_hash, prev_link, PrevLink,
};
use fabric_doctor::walker::{
    height_prefix, index_key_bytes, key_at_height, Phase, Request, WalkStop, Walker,
};
use fabric_doctor::{decode, encode_native, encode_safe_deterministic, get_prev_height_from_vecpak_entry, Term};

fn atom(name: &str) -> Term {
    Term::Atom(name.as_bytes().to_vec())
}

fn header(height: i32, slot: i32, prev: &[u8]) -> Term {
    Term::Dict(vec![
        (atom("slot"), Term::Int(slot)),
        (atom("prev_hash"), Term::Binary(prev.to_vec())),
        (atom("height"), Term::Int(height)),
    ])
}

/// An entry whose header is stored as a binary: its content hash and its bytes.
fn entry(height: i32, slot: i32, prev: &[u8]) -> (Vec<u8>, Vec<u8>) {
    let hb = encode_safe_deterministic(&header(height, slot, prev));
    let hash = blake3::hash(&hb).as_bytes().to_vec();
    let e = Term::Dict(vec![
        (atom("header"), Term::Binary(hb)),
        (atom("hash"), Term::Binary(hash.clone())),
    ]);
    (hash, encode_native(&e))
}

#[test]
fn metadata_of_binary_header() {
    let (hash, e) = entry(42, 420, &[1; 32]);
    let m = extract_metadata(&e).unwrap();
    assert_eq!(m.height, 42);
    assert_eq!(m.slot, 420);
    assert_eq!(m.hash, hash);
    let h = entry_header(&e).unwrap();
    assert_eq!(h.hashed, encode_safe_deterministic(&header(42, 420, &[1; 32])));
}

#[test]
fn metadata_of_decoded_header_hashes_canonical_bytes() {
    let e = encode_native(&Term::Dict(vec![(atom("header"), header(7, 70, &[0; 32]))]));
    let m = extract_metadata(&e).unwrap();
    assert_eq!((m.height, m.slot), (7, 70));
    let canonical = encode_safe_deterministic(&header(7, 70, &[0; 32]));
    assert_eq!(m.hash, blake3::hash(&canonical).as_bytes().to_vec());
}

#[test]
fn metadata_with_binary_keys() {
    let h = Term::Dict(vec![
        (Term::Binary(b"height".to_vec()), Term::Int(3)),
        (Term::Binary(b"slot".to_vec()), Term::Int(4)),
    ]);
    let e = encode_native(&Term::Dict(vec![(Term::Binary(b"header".to_vec()), h)]));
    let m = extract_metadata(&e).unwrap();
    assert_eq!((m.height, m.slot), (3, 4));
}

#[test]
fn metadata_reads_big_integer_height() {
    let h = Term::Dict(vec![
        (atom("height"), Term::BigInt { negative: false, magnitude: vec![0, 0, 0, 0, 1] }),
        (atom("slot"), Term::Int(1)),
    ]);
    let e = encode_native(&Term::Dict(vec![(atom("header"), h)]));
    assert_eq!(extract_metadata(&e).unwrap().height, 1u64 << 32);
}

#[test]
fn metadata_unknown_when_field_missing() {
    let h = Term::Dict(vec![(atom("height"), Term::Int(3))]);
    let e = encode_native(&Term::Dict(vec![(atom("header"), h)]));
    assert!(extract_metadata(&e).is_none());
    assert!(extract_metadata(&vec![131, 97, 1]).is_none());
    assert!(extract_metadata(&vec![1, 2, 3]).is_none());
    let neg = Term::Dict(vec![(atom("height"), Term::Int(-1)), (atom("slot"), Term::Int(1))]);
    let e = encode_native(&Term::Dict(vec![(atom("header"), neg)]));
    assert!(extract_metadata(&e).is_none());
}

#[test]
fn prev_links() {
    let (_, genesis_child) = entry(1, 1, &[0; 32]);
    assert!(matches!(extract_prev_hash(&genesis_child), PrevLink::Genesis));
    let (_, e) = entry(2, 2, &[9; 32]);
    match extract_prev_hash(&e) {
        PrevLink::Hash(h) => assert_eq!(h, vec![9; 32]),
        _ => panic!("expected a hash"),
    }
    let (_, short) = entry(2, 2, &[9; 31]);
    assert!(matches!(extract_prev_hash(&short), PrevLink::Missing));
    assert!(matches!(prev_link(&atom("x")), PrevLink::Missing));
}

#[test]
fn prev_height_from_entry_term() {
    let (_, first) = entry(1, 1, &[0; 32]);
    let first_term = decode(&first).unwrap();
    assert_eq!(get_prev_height_from_vecpak_entry(&first_term, None), Some(0));

    let (h1, one) = entry(10, 10, &[0; 32]);
    let (_, two) = entry(20, 20, &h1);
    let two_term = decode(&two).unwrap();
    let one_term = decode(&one).unwrap();
    assert_eq!(get_prev_height_from_vecpak_entry(&two_term, Some(&one_term)), Some(10));
    assert_eq!(get_prev_height_from_vecpak_entry(&two_term, None), None);
}

#[test]
fn stored_hash_checks() {
    let (hash, e) = entry(5, 6, &[3; 32]);
    let c = check_entry_hash(&e).unwrap();
    assert!(c.matches);
    assert_eq!(c.stored, hash);
    assert_eq!(compute_entry_hash(&e).unwrap(), hash);
    assert_eq!(extract_hash_from_entry(&e).unwrap(), hash);
    assert_eq!(
        extract_header_binary_from_entry(&e).unwrap(),
        encode_safe_deterministic(&header(5, 6, &[3; 32]))
    );

    let hb = encode_safe_deterministic(&header(5, 6, &[3; 32]));
    let tampered = encode_native(&Term::Dict(vec![
        (atom("header"), Term::Binary(hb)),
        (atom("hash"), Term::Binary(vec![0; 32])),
    ]));
    let c = check_entry_hash(&tampered).unwrap();
    assert!(!c.matches);
    assert_eq!(c.computed, hash);
    assert!(check_entry_hash(&encode_native(&atom("x"))).is_none());
}

#[test]
fn index_keys() {
    assert_eq!(index_key_bytes(100, &vec![0xab, 0x01]), b"100:ab01".to_vec());
    assert_eq!(height_prefix(0), b"0:".to_vec());
    assert!(key_at_height(&b"9:ff".to_vec(), 9));
    assert!(!key_at_height(&b"90:ff".to_vec(), 9));
    assert!(!key_at_height(&b"9".to_vec(), 9));
}

/// A source store in memory: entries by content hash, and the height index.
struct Source {
    entries: HashMap<Vec<u8>, Vec<u8>>,
    index: BTreeMap<Vec<u8>, Vec<u8>>,
}

impl Source {
    fn new() -> Source {
        Source { entries: HashMap::new(), index: BTreeMap::new() }
    }

    fn add(&mut self, height: u64, hash: Vec<u8>, e: Vec<u8>, indexed: bool) {
        if indexed {
            self.index.insert(index_key_bytes(height, &hash), hash.clone());
        }
        self.entries.insert(hash, e);
    }

    fn at_height(&self, h: u64) -> Vec<(Vec<u8>, Vec<u8>)> {
        let prefix = height_prefix(h);
        self.index
            .range(prefix..)
            .take_while(|(k, _)| key_at_height(k, h))
            .filter_map(|(_, hash)| self.entries.get(hash).map(|e| (hash.clone(), e.clone())))
            .collect()
    }
}

/// Drives the walker over `src`; returns the heights of each request kind.
fn drive(w: &mut Walker, src: &Source) -> (Vec<u64>, Vec<u64>, Vec<u64>) {
    let (mut window, mut above, mut first) = (Vec::new(), Vec::new(), Vec::new());
    loop {
        match w.request() {
            Request::EntriesAt(h) => {
                if w.phase == Phase::Window {
                    window.push(h);
                } else {
                    above.push(h);
                }
                let found = src.at_height(h);
                w.on_entries(&found);
            }
            Request::FirstEntryAt(h) => {
                first.push(h);
                let found = src.at_height(h).into_iter().next();
                w.on_first_entry(found);
            }
            Request::EntryByHash(p) => {
                let found = src.entries.get(&p).cloned();
                w.on_prev_entry(found);
            }
            Request::Finished => break,
        }
    }
    (window, above, first)
}

fn linear_chain(heights: impl Iterator<Item = u64>, skip_index_at: Option<u64>) -> Source {
    let mut src = Source::new();
    let mut prev = vec![0u8; 32];
    for h in heights {
        let (hash, e) = entry(h as i32, (h * 10) as i32, &prev);
        src.add(h, hash.clone(), e, Some(h) != skip_index_at);
        prev = hash;
    }
    src
}

#[test]
fn window_and_above_window_selection() {
    let src = linear_chain(80..=110, None);
    let mut w = Walker::new(100, 90);
    let (window, above, _) = drive(&mut w, &src);
    assert_eq!(window, (90..=100).collect::<Vec<u64>>());
    assert_eq!(above, (101..=115).collect::<Vec<u64>>());
    assert_eq!(w.selected.len(), 21);
    let mut expected = Vec::new();
    for h in 90..=110u64 {
        expected.push(src.at_height(h)[0].0.clone());
    }
    assert_eq!(w.selected, expected);
}

#[test]
fn genesis_walk_reaches_height_zero() {
    let mut src = Source::new();
    let mut prev = vec![0u8; 32];
    for h in (0..=90u64).step_by(10) {
        let (hash, e) = entry(h as i32, h as i32, &prev);
        src.add(h, hash.clone(), e, true);
        prev = hash;
    }
    let mut w = Walker::new(90, 90);
    let (_, _, first) = drive(&mut w, &src);
    assert_eq!(first, vec![90, 80, 70, 60, 50, 40, 30, 20, 10, 0]);
    assert_eq!(w.chain.len(), 10);
    assert_eq!(w.stop, Some(WalkStop::ReachedGenesis));
    assert_eq!(w.selected.len(), 1);
}

#[test]
fn genesis_walk_stops_at_missing_height() {
    let mut src = Source::new();
    let mut prev = vec![0u8; 32];
    for h in (0..=90u64).step_by(10) {
        let (hash, e) = entry(h as i32, h as i32, &prev);
        src.add(h, hash.clone(), e, h != 40);
        prev = hash;
    }
    let mut w = Walker::new(90, 90);
    let (_, _, first) = drive(&mut w, &src);
    assert_eq!(first, vec![90, 80, 70, 60, 50, 40]);
    assert_eq!(w.chain.len(), 5);
    assert_eq!(w.stop, Some(WalkStop::MissingEntry(40)));
}

#[test]
fn genesis_walk_stops_at_broken_link() {
    let mut src = Source::new();
    let mut prev = vec![0u8; 32];
    for h in (0..=90u64).step_by(10) {
        let (hash, e) = entry(h as i32, h as i32, &prev);
        if h != 40 {
            src.add(h, hash.clone(), e, true);
        }
        prev = hash;
    }
    let mut w = Walker::new(90, 90);
    let (_, _, first) = drive(&mut w, &src);
    assert_eq!(first, vec![90, 80, 70, 60, 50]);
    assert_eq!(w.stop, Some(WalkStop::BrokenLink(50)));
}

#[test]
fn genesis_walk_bounded_by_chain_limit() {
    let src = linear_chain(1..=1100, None);
    let mut w = Walker::new(1100, 1100);
    let (_, _, first) = drive(&mut w, &src);
    assert_eq!(first.len(), 1000);
    assert_eq!(w.chain.len(), 1000);
    assert_eq!(w.stop, Some(WalkStop::ChainLimit));
}

#[test]
fn window_scan_skips_unreadable_entries() {
    let mut src = linear_chain(5..=6, None);
    src.add(5, vec![7; 32], vec![131, 97, 1], true);
    let mut w = Walker::new(6, 5);
    let ws = w.on_entries(&src.at_height(5));
    assert_eq!(w.selected.len(), 1);
    assert_eq!(ws.len(), 3);
    assert_eq!(w.height, 6);
}

#[test]
fn genesis_walk_stops_at_unreadable_entry() {
    let mut src = Source::new();
    src.add(5, vec![7; 32], vec![131, 97, 1], true);
    let mut w = Walker::new(5, 5);
    let (_, _, first) = drive(&mut w, &src);
    assert_eq!(first, vec![5]);
    assert_eq!(w.stop, Some(WalkStop::UnreadableEntry(5)));
    assert!(w.chain.is_empty());
}

#[test]
fn genesis_walk_rejects_link_that_does_not_descend() {
    let (h_hi, e_hi) = entry(30, 30, &[0; 32]);
    let (h, e) = entry(20, 20, &h_hi);
    let mut src = Source::new();
    src.add(20, h, e, true);
    src.add(30, h_hi, e_hi, false);
    let mut w = Walker::new(20, 20);
    drive(&mut w, &src);
    assert_eq!(w.stop, Some(WalkStop::BrokenLink(20)));
    assert_eq!(w.chain.len(), 1);
}
