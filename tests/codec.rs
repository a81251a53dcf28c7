use fabric_doctor::{
    compare_terms, decode, encode_native, encode_safe, encode_safe_deterministic, DecodeError,
    Pid, Term,
};

fn atom(name: &str) -> Term {
    Term::Atom(name.as_bytes().to_vec())
}

fn small(v: i32) -> Term {
    Term::Int(v)
}

fn binary(b: &[u8]) -> Term {
    Term::Binary(b.to_vec())
}

/// The magnitude of `v` as minimal little-endian bytes.
fn big_from_u64(v: u64) -> Term {
    let mut magnitude = v.to_le_bytes().to_vec();
    while magnitude.last() == Some(&0) {
        magnitude.pop();
    }
    Term::BigInt { negative: false, magnitude }
}

fn dict_keys(t: &Term) -> &Vec<(Term, Term)> {
    match t {
        Term::Dict(ps) => ps,
        _ => panic!("Decoded term is not a map"),
    }
}

fn contains_key(ps: &[(Term, Term)], k: &Term) -> bool {
    ps.iter().any(|(key, _)| key == k)
}

#[test]
fn test_small_atom_encoding() {
    let t = atom("test");
    let encoded = encode_safe(&t);
    assert_eq!(encoded[0], 131);
    assert_eq!(encoded[1], 119);
    assert_eq!(encoded[2], 4);
    assert_eq!(&encoded[3..7], b"test");
}

#[test]
fn test_map_with_small_atoms() {
    let term_map = Term::Dict(vec![(atom("key"), atom("value"))]);
    let encoded = encode_safe(&term_map);
    assert_eq!(encoded[0], 131);
    assert_eq!(encoded[1], 116);
    assert!(encoded.contains(&119));
}

#[test]
fn test_big_integer_encoding() {
    let test_values = vec![2147483648u64, 4294967296u64, 1693958400u64];
    for value in test_values {
        let mut eetf_encoded = Vec::new();
        eetf::Term::BigInteger(eetf::BigInteger::from(value))
            .encode(&mut eetf_encoded)
            .unwrap();
        let our_encoded = encode_safe(&big_from_u64(value));
        assert_eq!(eetf_encoded, our_encoded, "Encoding mismatch for value {}", value);

        let eetf_decoded = eetf::Term::decode(&eetf_encoded[..]).unwrap();
        let our_decoded = eetf::Term::decode(&our_encoded[..]).unwrap();
        if let (eetf::Term::BigInteger(orig), eetf::Term::BigInteger(ours)) =
            (&eetf_decoded, &our_decoded)
        {
            assert_eq!(orig.value, ours.value, "BigInteger values should match for {}", value);
        }
        assert_eq!(decode(&our_encoded), Ok(big_from_u64(value)));
    }
}

#[test]
fn test_compatibility_with_original() {
    let mut eetf_encoded = Vec::new();
    eetf::Term::Atom(eetf::Atom::from("test")).encode(&mut eetf_encoded).unwrap();
    let our_encoded = encode_safe(&atom("test"));

    println!("eetf: {:?}", eetf_encoded);
    println!("safe: {:?}", our_encoded);

    assert_eq!(eetf_encoded[0], our_encoded[0]);
    if eetf_encoded.len() == 8 && our_encoded.len() == 7 {
        assert_eq!(eetf_encoded[1], 100);
        assert_eq!(our_encoded[1], 119);
        assert_eq!(eetf_encoded[2], 0);
        assert_eq!(eetf_encoded[3], 4);
        assert_eq!(our_encoded[2], 4);
        assert_eq!(eetf_encoded[4..], our_encoded[3..]);
    } else {
        assert_eq!(eetf_encoded.len(), our_encoded.len());
        assert_eq!(eetf_encoded[1], 119);
        assert_eq!(our_encoded[1], 119);
        assert_eq!(eetf_encoded[2..], our_encoded[2..]);
    }
}

#[test]
fn test_deterministic_encoding_mixed_key_types() {
    let map = Term::Dict(vec![
        (atom("atom_key"), small(1)),
        (binary(b"binary_key"), small(2)),
        (small(42), small(3)),
    ]);
    let encoded = encode_safe_deterministic(&map);
    assert_eq!(encoded[0], 131);
    assert_eq!(encoded[1], 116);

    let decoded = decode(&encoded).unwrap();
    let ps = dict_keys(&decoded);
    assert_eq!(ps.len(), 3);
    assert!(contains_key(ps, &small(42)));
    assert!(contains_key(ps, &atom("atom_key")));
    assert!(contains_key(ps, &binary(b"binary_key")));
}

#[test]
fn test_deterministic_encoding_atom_alphabetical_order() {
    let map = Term::Dict(vec![
        (atom("zebra"), small(1)),
        (atom("apple"), small(2)),
        (atom("banana"), small(3)),
    ]);
    let encoded1 = encode_safe_deterministic(&map);
    let encoded2 = encode_safe_deterministic(&map);
    assert_eq!(encoded1, encoded2);

    let decoded = decode(&encoded1).unwrap();
    assert_eq!(dict_keys(&decoded).len(), 3);
}

#[test]
fn test_deterministic_encoding_number_ordering() {
    let map = Term::Dict(vec![
        (small(100), atom("hundred")),
        (small(5), atom("five")),
        (small(50), atom("fifty")),
    ]);
    let encoded = encode_safe_deterministic(&map);
    let decoded = decode(&encoded).unwrap();
    assert_eq!(dict_keys(&decoded).len(), 3);
}

#[test]
fn test_deterministic_vs_original_compatibility() {
    let t = atom("test_atom");
    let deterministic_encoded = encode_safe_deterministic(&t);
    let small_atoms_encoded = encode_safe(&t);
    assert_eq!(deterministic_encoded, small_atoms_encoded);
    assert_eq!(deterministic_encoded[1], 119);
    assert_eq!(small_atoms_encoded[1], 119);
}

#[test]
fn test_deterministic_encoding_anr_keys() {
    let anr_keys = ["ip4", "pk", "pop", "port", "signature", "ts", "version", "anr_name", "anr_desc"];
    let pairs: Vec<(Term, Term)> =
        anr_keys.iter().enumerate().map(|(i, k)| (atom(k), small(i as i32))).collect();
    let map = Term::Dict(pairs);
    let encoded = encode_safe_deterministic(&map);
    let encoded2 = encode_safe_deterministic(&map);
    assert_eq!(encoded, encoded2);

    let decoded = decode(&encoded).unwrap();
    let ps = dict_keys(&decoded);
    assert_eq!(ps.len(), anr_keys.len());
    for key in &anr_keys {
        assert!(contains_key(ps, &atom(key)));
    }
}

// ---- tags and exact bytes ----

#[test]
fn safe_and_native_atom_bytes() {
    assert_eq!(encode_safe(&atom("test")), vec![131, 119, 4, b't', b'e', b's', b't']);
    assert_eq!(encode_native(&atom("test")), vec![131, 100, 0, 4, b't', b'e', b's', b't']);
}

#[test]
fn long_atom_takes_utf8_tag_in_safe_mode() {
    let name = vec![b'a'; 300];
    let e = encode_safe(&Term::Atom(name.clone()));
    assert_eq!(&e[..4], &[131, 118, 1, 44]);
    assert_eq!(e.len(), 4 + 300);
    assert!(!encode_safe_deterministic(&Term::Atom(name)).contains(&100));
}

#[test]
fn integer_widths() {
    assert_eq!(encode_native(&small(7)), vec![131, 97, 7]);
    assert_eq!(encode_native(&small(255)), vec![131, 97, 255]);
    assert_eq!(encode_native(&small(256)), vec![131, 98, 0, 0, 1, 0]);
    assert_eq!(encode_native(&small(-1)), vec![131, 98, 255, 255, 255, 255]);
}

#[test]
fn big_integer_sign_and_magnitude() {
    let t = Term::BigInt { negative: true, magnitude: vec![1, 2] };
    assert_eq!(encode_native(&t), vec![131, 110, 2, 1, 1, 2]);
}

#[test]
fn float_list_and_binary_bytes() {
    let f = Term::Float(1.5f64.to_bits());
    assert_eq!(encode_native(&f), vec![131, 70, 0x3f, 0xf8, 0, 0, 0, 0, 0, 0]);
    assert_eq!(encode_native(&Term::List(vec![])), vec![131, 106]);
    assert_eq!(encode_native(&Term::List(vec![small(1)])), vec![131, 108, 0, 0, 0, 1, 97, 1, 106]);
    assert_eq!(encode_native(&binary(b"ab")), vec![131, 109, 0, 0, 0, 2, b'a', b'b']);
    let improper = Term::ImproperList { elements: vec![small(1)], tail: Box::new(small(2)) };
    assert_eq!(encode_native(&improper), vec![131, 108, 0, 0, 0, 1, 97, 1, 97, 2]);
}

#[test]
fn encodings_agree_with_eetf_where_tags_coincide() {
    let mut expected = Vec::new();
    let list = eetf::Term::List(eetf::List::from(vec![
        eetf::Term::Binary(eetf::Binary::from(vec![1u8, 2, 3])),
        eetf::Term::FixInteger(eetf::FixInteger::from(-5)),
        eetf::Term::Tuple(eetf::Tuple::from(vec![eetf::Term::Atom(eetf::Atom::from("ok"))])),
    ]));
    list.encode(&mut expected).unwrap();
    let ours = Term::List(vec![binary(&[1, 2, 3]), small(-5), Term::Tuple(vec![atom("ok")])]);
    assert_eq!(encode_safe(&ours), expected);
}

// ---- round trip ----

fn samples() -> Vec<Term> {
    vec![
        atom("a"),
        Term::Atom(vec![b'x'; 256]),
        small(0),
        small(-70000),
        big_from_u64(u64::MAX),
        Term::BigInt { negative: true, magnitude: vec![0; 300] },
        Term::Float((-2.25f64).to_bits()),
        binary(b""),
        Term::BitBinary { bytes: vec![0xf0], tail_bits: 4 },
        Term::ByteList(b"hi".to_vec()),
        Term::List(vec![]),
        Term::List(vec![small(1), atom("b")]),
        Term::ImproperList { elements: vec![small(1)], tail: Box::new(atom("t")) },
        Term::Tuple(vec![]),
        Term::Tuple((0..300).map(small).collect()),
        Term::Dict(vec![(atom("k"), Term::Dict(vec![(small(2), small(3)), (small(1), small(4))]))]),
        Term::Pid(Pid { node: b"n@h".to_vec(), id: 1, serial: 2, creation: 3 }),
        Term::Port { node: b"n@h".to_vec(), id: 9, creation: 1 },
        Term::Reference { node: b"n@h".to_vec(), creation: 2, ids: vec![1, 2, 3] },
        Term::ExternalFun { module: b"m".to_vec(), function: b"f".to_vec(), arity: 2 },
        Term::OldFun {
            pid: Pid { node: b"n".to_vec(), id: 1, serial: 0, creation: 0 },
            module: b"m".to_vec(),
            index: 3,
            uniq: -4,
            free_vars: vec![small(1)],
        },
        Term::NewFun {
            arity: 1,
            uniq: vec![7; 16],
            index: 5,
            module: b"m".to_vec(),
            old_index: 6,
            old_uniq: 1000,
            pid: Pid { node: b"n".to_vec(), id: 1, serial: 0, creation: 0 },
            free_vars: vec![atom("v"), small(2)],
        },
    ]
}

#[test]
fn decode_inverts_native_and_safe_encoding() {
    for t in samples() {
        assert_eq!(decode(&encode_native(&t)).as_ref(), Ok(&t), "native: {:?}", t);
        assert_eq!(decode(&encode_safe(&t)).as_ref(), Ok(&t), "safe: {:?}", t);
    }
}

#[test]
fn new_fun_size_field_counts_itself() {
    let t = samples().pop().unwrap();
    let e = encode_native(&t);
    let size = u32::from_be_bytes([e[2], e[3], e[4], e[5]]) as usize;
    assert_eq!(size, e.len() - 2);
    let decoded = eetf::Term::decode(&e[..]);
    assert!(decoded.is_ok());
}

// ---- decode errors ----

#[test]
fn decode_errors() {
    assert_eq!(decode(&vec![]), Err(DecodeError::MissingVersion));
    assert_eq!(decode(&vec![130, 97, 1]), Err(DecodeError::MissingVersion));
    assert_eq!(decode(&vec![131, 200]), Err(DecodeError::Malformed));
    assert_eq!(decode(&vec![131, 109, 0, 0, 0, 5, 1]), Err(DecodeError::Malformed));
    assert_eq!(decode(&vec![131, 110, 1, 2, 5]), Err(DecodeError::Malformed));
    assert_eq!(decode(&vec![131, 97, 1, 0]), Err(DecodeError::TrailingBytes));
}

#[test]
fn decode_accepts_every_atom_tag() {
    for bytes in [
        vec![131, 100, 0, 1, b'x'],
        vec![131, 115, 1, b'x'],
        vec![131, 118, 0, 1, b'x'],
        vec![131, 119, 1, b'x'],
    ] {
        assert_eq!(decode(&bytes), Ok(atom("x")));
    }
}

// ---- canonical order ----

#[test]
fn atoms_sort_by_name() {
    assert!(compare_terms(&atom("apple"), &atom("banana")) < 0);
    assert!(compare_terms(&atom("banana"), &atom("zebra")) < 0);
    assert!(compare_terms(&atom("zebra"), &atom("apple")) > 0);
    assert_eq!(compare_terms(&atom("apple"), &atom("apple")), 0);
}

#[test]
fn numbers_before_atoms_before_binaries() {
    assert!(compare_terms(&small(1000), &atom("a")) < 0);
    assert!(compare_terms(&Term::Float(0), &atom("a")) < 0);
    assert!(compare_terms(&Term::Float(1e300f64.to_bits()), &atom("a")) < 0);
    assert!(compare_terms(&atom("zzz"), &binary(b"")) < 0);
    assert!(compare_terms(&small(5), &small(50)) < 0);
    assert!(compare_terms(&small(-3), &small(2)) < 0);
}

#[test]
fn canonical_map_lists_keys_in_order() {
    let map = Term::Dict(vec![
        (binary(b"k"), small(0)),
        (atom("zebra"), small(1)),
        (small(42), small(2)),
        (atom("apple"), small(3)),
    ]);
    let e = encode_safe_deterministic(&map);
    let decoded = decode(&e).unwrap();
    let keys: Vec<&Term> = dict_keys(&decoded).iter().map(|(k, _)| k).collect();
    assert_eq!(keys, vec![&small(42), &atom("apple"), &atom("zebra"), &binary(b"k")]);
}

#[test]
fn canonical_encoding_ignores_insertion_order() {
    let a = Term::Dict(vec![(atom("x"), small(1)), (atom("y"), small(2)), (small(3), binary(b"z"))]);
    let b = Term::Dict(vec![(small(3), binary(b"z")), (atom("y"), small(2)), (atom("x"), small(1))]);
    assert_eq!(encode_safe_deterministic(&a), encode_safe_deterministic(&b));
    assert_ne!(encode_safe(&a), encode_safe(&b));
}

#[test]
fn canonical_encoding_sorts_nested_maps() {
    let inner_a = Term::Dict(vec![(atom("b"), small(1)), (atom("a"), small(2))]);
    let inner_b = Term::Dict(vec![(atom("a"), small(2)), (atom("b"), small(1))]);
    let a = Term::List(vec![inner_a]);
    let b = Term::List(vec![inner_b]);
    assert_eq!(encode_safe_deterministic(&a), encode_safe_deterministic(&b));
}

#[test]
fn integers_compare_by_value_across_widths() {
    let big = |negative: bool, magnitude: Vec<u8>| Term::BigInt { negative, magnitude };
    assert!(compare_terms(&small(5), &big_from_u64(1 << 40)) < 0);
    assert!(compare_terms(&big_from_u64(1 << 40), &small(i32::MAX)) > 0);
    assert!(compare_terms(&big(true, vec![0, 0, 0, 0, 1]), &small(-1)) < 0);
    assert!(compare_terms(&big(false, vec![7]), &small(6)) > 0);
    assert!(compare_terms(&big(false, vec![7]), &small(8)) < 0);
    assert!(compare_terms(&big(false, vec![1, 0, 0]), &big(false, vec![0, 1])) < 0);
    assert!(compare_terms(&big(true, vec![0, 1]), &big(true, vec![1])) < 0);
    assert!(compare_terms(&small(-300), &small(2)) < 0);
    assert!(compare_terms(&big_from_u64(u64::MAX), &Term::Float(0)) > 0);
}

#[test]
fn canonical_map_orders_mixed_integer_keys() {
    let map = Term::Dict(vec![
        (big_from_u64(1 << 40), small(0)),
        (small(100), small(1)),
        (Term::BigInt { negative: false, magnitude: vec![50] }, small(2)),
    ]);
    let decoded = decode(&encode_safe_deterministic(&map)).unwrap();
    let keys: Vec<&Term> = dict_keys(&decoded).iter().map(|(k, _)| k).collect();
    assert_eq!(
        keys,
        vec![&Term::BigInt { negative: false, magnitude: vec![50] }, &small(100), &big_from_u64(1 << 40)]
    );
}

fn float(x: f64) -> Term {
    Term::Float(x.to_bits())
}

#[test]
fn integers_and_floats_compare_by_value() {
    assert!(compare_terms(&float(1.5), &small(2)) < 0);
    assert!(compare_terms(&small(2), &float(1.5)) > 0);
    assert!(compare_terms(&small(1), &float(1.5)) < 0);
    let minus_2_40 = Term::BigInt { negative: true, magnitude: vec![0, 0, 0, 0, 0, 1] };
    assert!(compare_terms(&small(-5), &minus_2_40) > 0);
    assert!(compare_terms(&float(-1e12), &minus_2_40) > 0);
    assert!(compare_terms(&float(-2e12), &minus_2_40) < 0);
    assert!(compare_terms(&float(1e19), &big_from_u64(u64::MAX)) < 0);
    assert!(compare_terms(&float(2e19), &big_from_u64(u64::MAX)) > 0);
    assert!(compare_terms(&float(f64::MIN_POSITIVE / 4.0), &small(0)) > 0);
    assert!(compare_terms(&float(-f64::MIN_POSITIVE / 4.0), &small(0)) < 0);
    assert!(compare_terms(&float(-3.5), &float(-3.25)) < 0);
    assert!(compare_terms(&float(0.5), &float(0.25)) > 0);
}

#[test]
fn integer_before_float_of_equal_value() {
    assert!(compare_terms(&small(2), &float(2.0)) < 0);
    assert!(compare_terms(&float(2.0), &small(2)) > 0);
    assert!(compare_terms(&small(0), &float(0.0)) < 0);
    assert!(compare_terms(&small(0), &float(-0.0)) < 0);
    assert!(compare_terms(&big_from_u64(1 << 53), &float(9007199254740992.0)) < 0);
    assert!(compare_terms(&small(-7), &float(-7.0)) < 0);
}

#[test]
fn canonical_map_orders_mixed_number_keys() {
    let map = Term::Dict(vec![
        (float(2.5), small(0)),
        (small(3), small(1)),
        (float(-1.0), small(2)),
        (small(2), small(3)),
        (float(2.0), small(4)),
    ]);
    let decoded = decode(&encode_safe_deterministic(&map)).unwrap();
    let keys: Vec<&Term> = dict_keys(&decoded).iter().map(|(k, _)| k).collect();
    assert_eq!(keys, vec![&float(-1.0), &small(2), &float(2.0), &float(2.5), &small(3)]);
}

#[test]
fn decode_rejects_repeated_map_keys() {
    // a map of two pairs whose keys are both the atom `a`
    let bytes = vec![131, 116, 0, 0, 0, 2, 119, 1, b'a', 97, 1, 119, 1, b'a', 97, 2];
    assert_eq!(decode(&bytes), Err(DecodeError::Malformed));
    // the same key under two atom tags is still one key
    let bytes = vec![131, 116, 0, 0, 0, 2, 119, 1, b'a', 97, 1, 100, 0, 1, b'a', 97, 2];
    assert_eq!(decode(&bytes), Err(DecodeError::Malformed));
    let bytes = vec![131, 116, 0, 0, 0, 2, 119, 1, b'a', 97, 1, 119, 1, b'b', 97, 2];
    assert!(decode(&bytes).is_ok());
}

#[test]
fn nested_map_keys_are_distinct_in_canonical_output() {
    let k1 = Term::Dict(vec![(atom("x"), small(1)), (atom("y"), small(2))]);
    let k2 = Term::Dict(vec![(atom("x"), small(1))]);
    let map = Term::Dict(vec![(k1, small(0)), (k2, small(1))]);
    let decoded = decode(&encode_safe_deterministic(&map)).unwrap();
    assert_eq!(dict_keys(&decoded).len(), 2);
}
