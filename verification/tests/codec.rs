use microbin::codec::{decode, encode};
use microbin::StoreError;

fn words(ws: &[&str]) -> Vec<String> {
    ws.iter().map(|w| w.to_string()) .collect()
}

#[test]
fn encode_zero_single_word() {
    assert_eq!(encode(0), words(&["ant"]));
}

#[test]
fn encode_small_values() {
    assert_eq!(encode(1), words(&["bat"]));
    assert_eq!(encode(23), words(&["xerus"]));
    assert_eq!(encode(24), words(&["bat", "ant"]));
    assert_eq!(encode(25), words(&["bat", "bat"]));
    assert_eq!(encode(24 * 24), words(&["bat", "ant", "ant"]));
}

#[test]
fn roundtrip_various_ids() {
    let ids: [u64; 8] = [0, 1, 23, 24, 577, 12345, 65535, u64::MAX];
    for id in ids {
        let ws = encode(id);
        assert_eq!(decode(&ws), Ok(id));
    }
}

#[test]
fn decode_unknown_word_fails() {
    assert_eq!(
        decode(&words(&["zebra"])),
        Err(StoreError::InvalidIdentifier)
    );
    assert_eq!(
        decode(&words(&["ant", "zebra"])),
        Err(StoreError::InvalidIdentifier)
    );
}

#[test]
fn decode_empty_fails() {
    assert_eq!(decode(&Vec::new()), Err(StoreError::InvalidIdentifier));
}

#[test]
fn decode_overflow_fails() {
    // 24^14 does not fit 64 bits.
    let mut ws = words(&["bat"]);
    for _ in 0..14 {
        ws.push("ant".to_string());
    }
    assert_eq!(decode(&ws), Err(StoreError::InvalidIdentifier));
}
