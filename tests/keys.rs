use fabric_doctor::keys::decode_contractstate_key;

#[test]
fn text_keys_stay_as_they_are() {
    let k = b"bic:coin:balance:abc".to_vec();
    assert_eq!(decode_contractstate_key(&k), k);
}

#[test]
fn public_key_after_prefix_in_base58() {
    let pk: Vec<u8> = (0..48u8).map(|i| 0x80 | i).collect();
    let mut k = b"bic:coin:balance:".to_vec();
    k.extend_from_slice(&pk);
    k.extend_from_slice(b":AMA");
    let mut expected = b"bic:coin:balance:".to_vec();
    expected.extend_from_slice(bs58::encode(&pk).into_string().as_bytes());
    expected.extend_from_slice(b":AMA");
    assert_eq!(decode_contractstate_key(&k), expected);
}

#[test]
fn digits_then_hex_tail() {
    let mut k = b"bic:epoch:".to_vec();
    k.extend_from_slice(b"000000319557");
    k.push(0xff);
    assert_eq!(decode_contractstate_key(&k), b"bic:epoch:000000319557:hex:ff".to_vec());
}

#[test]
fn unknown_binary_key_in_hex() {
    assert_eq!(decode_contractstate_key(&vec![0xff, 0x00]), b"hex:ff00".to_vec());
}

#[test]
fn all_zero_block_is_not_a_public_key() {
    let mut k = b"bic:coin:".to_vec();
    k.extend_from_slice(&[0u8; 48]);
    k.push(0xfe);
    let mut expected = b"bic:coin::hex:".to_vec();
    expected.extend_from_slice(hex::encode([0u8; 48]).as_bytes());
    expected.extend_from_slice(b"fe");
    assert_eq!(decode_contractstate_key(&k), expected);
}
