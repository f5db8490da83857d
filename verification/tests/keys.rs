use moodle_session_ext::model::{u64_from_be_bytes, u64_to_be_bytes, TokenId, UpdateQueueKey};

#[test]
fn big_endian_encoding_is_exact() {
    assert_eq!(
        u64_to_be_bytes(0x0102030405060708),
        [0x01, 0x02, 0x03, 0x04, 0x05, 0x06, 0x07, 0x08]
    );
    assert_eq!(u64_to_be_bytes(0), [0; 8]);
    assert_eq!(u64_to_be_bytes(u64::MAX), [0xFF; 8]);
    assert_eq!(u64_to_be_bytes(1000), [0, 0, 0, 0, 0, 0, 0x03, 0xE8]);
}

#[test]
fn big_endian_decoding_inverts_encoding() {
    for v in [0u64, 1, 255, 256, 1000, 0xDEADBEEF, u64::MAX, u64::MAX - 1] {
        let bytes = u64_to_be_bytes(v);
        assert_eq!(u64_from_be_bytes(&bytes), v);
    }
    assert_eq!(u64_from_be_bytes(&[0, 0, 0, 0, 0, 0, 0x03, 0xE8]), 1000);
}

#[test]
fn token_id_round_trips() {
    let id = TokenId::from_u64(42);
    assert_eq!(id.value(), 42);
    assert_eq!(id.0, [0, 0, 0, 0, 0, 0, 0, 42]);
}

#[test]
fn composite_key_holds_deadline_then_identifier() {
    let key = UpdateQueueKey::new(0x0102, TokenId::from_u64(0x0304));
    assert_eq!(
        key.0,
        [0, 0, 0, 0, 0, 0, 0x01, 0x02, 0, 0, 0, 0, 0, 0, 0x03, 0x04]
    );
    assert_eq!(key.deadline_millis(), 0x0102);
    assert_eq!(key.token_id().value(), 0x0304);
}

#[test]
fn raw_key_bytes_order_like_deadline_identifier_pairs() {
    // ordering the 16 raw bytes is ordering by (deadline, identifier)
    let mut keys = vec![
        UpdateQueueKey::new(500, TokenId::from_u64(9)).0,
        UpdateQueueKey::new(300, TokenId::from_u64(7)).0,
        UpdateQueueKey::new(300, TokenId::from_u64(2)).0,
        UpdateQueueKey::new(70000, TokenId::from_u64(0)).0,
    ];
    keys.sort();
    let decoded: Vec<(u64, u64)> = keys
        .iter()
        .map(|k| {
            let key = UpdateQueueKey(*k);
            (key.deadline_millis(), key.token_id().value())
        })
        .collect();
    assert_eq!(decoded, vec![(300, 2), (300, 7), (500, 9), (70000, 0)]);
}
