use roundtrip_tester::codec::{decode_top, encode};
use roundtrip_tester::registry::{lookup, PROB_BITS_A, PROB_BITS_B};
use roundtrip_tester::run_test;
use roundtrip_tester::DecodeError;
use roundtrip_tester::RunError;

fn canonical_bytes(id: u8) -> Vec<u8> {
    let (shape, reference) = lookup(id).expect("id in range");
    let mut out: Vec<u8> = Vec::new();
    encode(&shape, &shape, &reference, &mut out);
    out
}

#[test]
fn float_bit_patterns_match_ieee() {
    assert_eq!((0.69f64).to_bits() as u128, PROB_BITS_A);
    assert_eq!((0.01f64).to_bits() as u128, PROB_BITS_B);
}

#[test]
fn scenario_payloadless_enum() {
    // Variant ordinal 0 is the single byte 0x00.
    let out = run_test(5, &[0x00]).expect("canonical encoding accepted");
    assert_eq!(out, vec![0x00]);
    // Ordinal 1, a zero-byte unit field, then one boolean byte.
    let out = run_test(6, &[0x01, 0x01]).expect("canonical encoding accepted");
    assert_eq!(out, vec![0x01, 0x01]);
}

#[test]
fn scenario_struct_with_empty_fields() {
    let mut expected: Vec<u8> = Vec::new();
    expected.extend_from_slice(&0u32.to_le_bytes());
    expected.extend_from_slice(&699u128.to_le_bytes());
    expected.extend_from_slice(&0.01f64.to_le_bytes());
    expected.extend_from_slice(&0u32.to_le_bytes());
    assert_eq!(expected.len(), 4 + 16 + 8 + 4);
    let out = run_test(1, &expected).expect("canonical encoding accepted");
    assert_eq!(out, expected);
}

#[test]
fn scenario_recursive_tree() {
    // Depth zero: the optional child is the single byte 0x00.
    let mut leaf: Vec<u8> = Vec::new();
    leaf.extend_from_slice(&69u32.to_le_bytes());
    leaf.extend_from_slice(&3i16.to_le_bytes());
    leaf.extend_from_slice(&9i16.to_le_bytes());
    leaf.push(0x00);
    assert_eq!(run_test(2, &leaf).expect("leaf accepted"), leaf);

    // Depth one: marker 0x01 followed by the whole child encoding.
    let mut child: Vec<u8> = Vec::new();
    child.extend_from_slice(&1333u32.to_le_bytes());
    child.extend_from_slice(&6i16.to_le_bytes());
    child.extend_from_slice(&9i16.to_le_bytes());
    child.push(0x00);
    let mut node: Vec<u8> = Vec::new();
    node.extend_from_slice(&1131u32.to_le_bytes());
    node.extend_from_slice(&3i16.to_le_bytes());
    node.extend_from_slice(&10i16.to_le_bytes());
    node.push(0x01);
    node.extend_from_slice(&child);
    assert_eq!(run_test(3, &node).expect("node accepted"), node);
}

#[test]
fn round_trip_all_cases() {
    for id in 0u8..7 {
        let bytes = canonical_bytes(id);
        let out = run_test(id, &bytes).expect("canonical encoding accepted");
        assert_eq!(out, bytes);
        // Decoding and re-encoding reproduces the bytes exactly.
        let (shape, _) = lookup(id).unwrap();
        let value = decode_top(&shape, &bytes).expect("decodes");
        let mut again: Vec<u8> = Vec::new();
        encode(&shape, &shape, &value, &mut again);
        assert_eq!(again, bytes);
    }
}

#[test]
fn encoding_is_deterministic() {
    for id in 0u8..7 {
        assert_eq!(canonical_bytes(id), canonical_bytes(id));
    }
}

#[test]
fn unknown_test_case() {
    assert_eq!(run_test(7, &[]), Err(RunError::UnknownTestCase));
    assert_eq!(run_test(255, &[0x00]), Err(RunError::UnknownTestCase));
}

#[test]
fn truncation_fails_with_end_of_input() {
    for id in 0u8..7 {
        let bytes = canonical_bytes(id);
        for cut in 0..bytes.len() {
            let prefix = &bytes[..cut];
            assert_eq!(
                run_test(id, prefix),
                Err(RunError::Decode(DecodeError::UnexpectedEndOfInput)),
                "id {} cut {}",
                id,
                cut
            );
        }
    }
}

#[test]
fn trailing_byte_fails() {
    for id in 0u8..7 {
        let mut bytes = canonical_bytes(id);
        bytes.push(0x00);
        assert_eq!(
            run_test(id, &bytes),
            Err(RunError::Decode(DecodeError::TrailingBytes)),
            "id {}",
            id
        );
    }
}

#[test]
fn out_of_range_discriminants() {
    // Enum with three variants rejects ordinal 3.
    assert_eq!(
        run_test(4, &[0x03]),
        Err(RunError::Decode(DecodeError::InvalidDiscriminant))
    );
    // Optional marker must be 0 or 1.
    let mut bytes: Vec<u8> = Vec::new();
    bytes.extend_from_slice(&69u32.to_le_bytes());
    bytes.extend_from_slice(&3i16.to_le_bytes());
    bytes.extend_from_slice(&9i16.to_le_bytes());
    bytes.push(0x02);
    assert_eq!(
        run_test(2, &bytes),
        Err(RunError::Decode(DecodeError::InvalidDiscriminant))
    );
    // A boolean byte must be 0 or 1.
    assert_eq!(
        run_test(6, &[0x01, 0x02]),
        Err(RunError::Decode(DecodeError::InvalidDiscriminant))
    );
}

#[test]
fn invalid_utf8_is_rejected() {
    // Text length 1 whose single byte is an invalid lead byte.
    assert_eq!(
        run_test(0, &[0x01, 0x00, 0x00, 0x00, 0xFF]),
        Err(RunError::Decode(DecodeError::InvalidUtf8))
    );
}

#[test]
fn value_mismatch_is_reported() {
    // A valid encoding of variant 0 against the reference variant 1.
    assert_eq!(run_test(4, &[0x00]), Err(RunError::RoundtripMismatch));
    // Same shape, different number.
    let mut bytes: Vec<u8> = Vec::new();
    bytes.extend_from_slice(&70u32.to_le_bytes());
    bytes.extend_from_slice(&3i16.to_le_bytes());
    bytes.extend_from_slice(&9i16.to_le_bytes());
    bytes.push(0x00);
    assert_eq!(run_test(2, &bytes), Err(RunError::RoundtripMismatch));
}

#[test]
fn matches_borsh_struct_encoding() {
    // The struct cases laid out by borsh over an equivalent tuple.
    let b = borsh::to_vec(&(
        "ccccc".to_string(),
        541212312321534534u128,
        0.69f64,
        vec![31i32, 69i32],
    ))
    .unwrap();
    assert_eq!(canonical_bytes(0), b);
    let b = borsh::to_vec(&("".to_string(), 699u128, 0.01f64, Vec::<i32>::new())).unwrap();
    assert_eq!(canonical_bytes(1), b);
}

#[test]
fn matches_borsh_tree_encoding() {
    let b = borsh::to_vec(&(69u32, [3i16, 9i16], Option::<u8>::None)).unwrap();
    assert_eq!(canonical_bytes(2), b);
    let b = borsh::to_vec(&(
        1131u32,
        [3i16, 10i16],
        Some(Box::new((1333u32, [6i16, 9i16], Option::<u8>::None))),
    ))
    .unwrap();
    assert_eq!(canonical_bytes(3), b);
}

#[test]
fn multibyte_text_round_trips() {
    let (shape, _) = lookup(0).unwrap();
    // name = "é" (2 UTF-8 bytes), age = 1, prob bits of 0.5, data = [].
    let mut bytes: Vec<u8> = Vec::new();
    bytes.extend_from_slice(&2u32.to_le_bytes());
    bytes.extend_from_slice(&[0xC3, 0xA9]);
    bytes.extend_from_slice(&1u128.to_le_bytes());
    bytes.extend_from_slice(&0.5f64.to_le_bytes());
    bytes.extend_from_slice(&0u32.to_le_bytes());
    let value = decode_top(&shape, &bytes).expect("valid UTF-8 accepted");
    let mut again: Vec<u8> = Vec::new();
    encode(&shape, &shape, &value, &mut again);
    assert_eq!(again, bytes);
    // A lone continuation byte is not a character.
    let mut bad: Vec<u8> = Vec::new();
    bad.extend_from_slice(&2u32.to_le_bytes());
    bad.extend_from_slice(&[0xC3, 0xC3]);
    bad.extend_from_slice(&1u128.to_le_bytes());
    bad.extend_from_slice(&0.5f64.to_le_bytes());
    bad.extend_from_slice(&0u32.to_le_bytes());
    assert!(matches!(
        decode_top(&shape, &bad),
        Err(DecodeError::InvalidUtf8)
    ));
}
