use fund_unlock::codec::decode_state;
use fund_unlock::codec::encode_state;
use fund_unlock::fund::Options;

fn sample() -> Options {
    Options {
        init_timestamp: 1_000_000,
        pending_round: 21,
        unlocked_ticks: 1_234_567,
        fraction_round: 4,
        fraction_peroid: 2,
    }
}

#[test]
fn codec_round_trip() {
    let opts = sample();
    let bytes = encode_state(&opts);
    assert_eq!(bytes.len(), 128);
    let back = decode_state(&bytes);
    assert!(back == Some(opts));
}

#[test]
fn codec_layout() {
    let bytes = encode_state(&sample());
    // Slot 0: init_timestamp in the low 8 bytes, little endian.
    assert_eq!(&bytes[0..8], &1_000_000u64.to_le_bytes());
    assert_eq!(&bytes[8..32], &[0u8; 24]);
    // Slot 1: pending_round.
    assert_eq!(&bytes[32..40], &21u64.to_le_bytes());
    assert_eq!(&bytes[40..64], &[0u8; 24]);
    // Slot 2: unlocked_ticks.
    assert_eq!(&bytes[64..72], &1_234_567u64.to_le_bytes());
    assert_eq!(&bytes[72..96], &[0u8; 24]);
    // Slot 3: the two fractions, then padding.
    assert_eq!(&bytes[96..104], &4u64.to_le_bytes());
    assert_eq!(&bytes[104..112], &2u64.to_le_bytes());
    assert_eq!(&bytes[112..128], &[0u8; 16]);
}

#[test]
fn codec_rejects_bad_length() {
    let bytes = encode_state(&sample());
    assert!(decode_state(&bytes[0..127]) == None);
    let mut longer = bytes.clone();
    longer.push(0);
    assert!(decode_state(&longer) == None);
}

#[test]
fn codec_rejects_word_with_high_bit() {
    let mut bytes = encode_state(&sample());
    // Setting the top bit of a stored word makes it unreadable as a
    // non-negative 64-bit counter.
    bytes[39] = 0x80;
    assert!(decode_state(&bytes) == None);
}
