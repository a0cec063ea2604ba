use fund_unlock::fund::FundManager;
use fund_unlock::fund::TOTAL_AMOUNT;
use fund_unlock::hex::from_hex;
use fund_unlock::hex::from_hex_str;
use fund_unlock::hex::hex_to_u128;

#[test]
fn hex_decodes_beneficiary() {
    let address = from_hex_str(FundManager::beneficiary_hex()).unwrap();
    let expected: [u8; 20] = [
        0x96, 0x21, 0xdd, 0xe6, 0x36, 0xde, 0x09, 0x8b, 0x43, 0xef, 0xb0, 0xfa, 0x9b, 0x61,
        0xfa, 0xcf, 0xe3, 0x28, 0xf9, 0x9d,
    ];
    assert_eq!(address.as_slice(), &expected);
}

#[test]
fn hex_total_amount_matches_constant() {
    let value = hex_to_u128(FundManager::total_amount_hex().as_bytes());
    assert_eq!(value, Some(TOTAL_AMOUNT));
    assert_eq!(TOTAL_AMOUNT, 21_000_000u128 * 1_000_000_000_000_000_000u128);
}

#[test]
fn hex_mixed_case() {
    let bytes = from_hex(b"aAbB").unwrap();
    assert_eq!(bytes, vec![0xaau8, 0xbbu8]);
}

#[test]
fn hex_rejects_invalid_digit() {
    assert!(from_hex(b"zz") == None);
    assert!(from_hex(b"0g") == None);
}

#[test]
fn hex_rejects_odd_length() {
    assert!(from_hex(b"abc") == None);
    assert!(from_hex_str("f") == None);
}

#[test]
fn hex_value_rejects_more_than_128_bits() {
    assert!(hex_to_u128(b"0123456789abcdef0123456789abcdef01") == None);
    assert_eq!(hex_to_u128(b"00ff"), Some(255));
    assert_eq!(hex_to_u128(b""), Some(0));
}
