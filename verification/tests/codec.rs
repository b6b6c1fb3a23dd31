use juno_keys::bech32::{create_checksum, sym_char_of};
use juno_keys::frame::frame;
use juno_keys::jumble::{invert, permute};
use juno_keys::text::{decode_text, encode_text};
use juno_keys::zip316::{decode_unified_container, encode_unified_container, CodecError};

#[test]
fn container_scenario_orchard_payload() {
    let payload = vec![0x11u8; 96];
    let s = encode_unified_container("jview", 3, &payload).expect("encode");
    let (tc, got) = decode_unified_container(&s, "jview").expect("decode");
    assert_eq!(tc, 3);
    assert_eq!(got, payload);
    let err = decode_unified_container(&s, "jviewtest").expect_err("wrong hrp");
    assert!(matches!(err, CodecError::HrpMismatch));
}

#[test]
fn container_round_trip_various() {
    let cases: Vec<(&str, u64, Vec<u8>)> = vec![
        ("jview", 0, vec![0u8; 1]),
        ("jviewregtest", 65535, vec![0xabu8; 300]),
        ("a", 9_999_999_999, (0..=255u8).collect()),
    ];
    for (hrp, tc, payload) in cases {
        let s = encode_unified_container(hrp, tc, &payload).expect("encode");
        let (got_tc, got) = decode_unified_container(&s, hrp).expect("decode");
        assert_eq!(got_tc, tc);
        assert_eq!(got, payload);
    }
}

#[test]
fn encode_is_deterministic() {
    let payload = vec![0x42u8; 50];
    let a = encode_unified_container("jview", 3, &payload).expect("a");
    let b = encode_unified_container("jview", 3, &payload).expect("b");
    assert_eq!(a, b);
}

#[test]
fn different_hrps_give_different_strings() {
    let payload = vec![0x42u8; 50];
    let a = encode_unified_container("jview", 3, &payload).expect("a");
    let b = encode_unified_container("jviewtest", 3, &payload).expect("b");
    assert_ne!(a, b);
}

#[test]
fn permutation_round_trip() {
    let buf: Vec<u8> = (0u8..=113).collect();
    let p = permute(&buf).expect("permute");
    assert_eq!(p.len(), buf.len());
    let back = invert(&p).expect("invert");
    assert_eq!(back, buf);
}

#[test]
fn permutation_round_trip_small_lengths() {
    for n in 2usize..40 {
        let buf: Vec<u8> = (0..n).map(|i| (i * 37) as u8).collect();
        let p = permute(&buf).expect("permute");
        let back = invert(&p).expect("invert");
        assert_eq!(back, buf);
    }
}

#[test]
fn permutation_differs_between_inputs() {
    let a = vec![0u8; 114];
    let mut b = a.clone();
    b[57] ^= 1;
    let pa = permute(&a).expect("pa");
    let pb = permute(&b).expect("pb");
    assert_ne!(pa, pb);
}

#[test]
fn permutation_diffuses_single_byte_change() {
    let a = vec![0u8; 114];
    let mut b = a.clone();
    b[0] ^= 1;
    let pa = permute(&a).expect("pa");
    let pb = permute(&b).expect("pb");
    let differing = pa.iter().zip(pb.iter()).filter(|(x, y)| x != y).count();
    assert!(differing > 10, "only {differing} bytes changed");
}

#[test]
fn permutation_rejects_out_of_range_lengths() {
    assert!(matches!(permute(&vec![1u8]), Err(CodecError::BufferTooShort)));
    assert!(matches!(permute(&vec![1u8; 262145]), Err(CodecError::BufferTooLong)));
    assert!(matches!(invert(&vec![1u8]), Err(CodecError::BufferTooShort)));
}

#[test]
fn checksum_flip_detected() {
    let payload = vec![0x11u8; 96];
    let s = encode_unified_container("jview", 3, &payload).expect("encode");
    let bytes = s.as_bytes().to_vec();
    // flip one data character (after the separator) to a different alphabet
    // character
    let pos = bytes.len() - 10;
    let mut flipped = bytes.clone();
    flipped[pos] = if flipped[pos] == b'q' { b'p' } else { b'q' };
    assert_ne!(flipped, bytes);
    let err = decode_text(&flipped).expect_err("flip must fail");
    assert!(matches!(err, CodecError::ChecksumInvalid));
}

#[test]
fn every_single_flip_is_rejected() {
    let payload = vec![0x5au8; 10];
    let s = encode_unified_container("jview", 7, &payload).expect("encode");
    let bytes = s.as_bytes().to_vec();
    let sep = bytes.iter().rposition(|&b| b == b'1').expect("sep");
    for pos in sep + 1..bytes.len() {
        for &c in b"qpzry9x8gf2tvdw0s3jn54khce6mua7l" {
            if c == bytes[pos] {
                continue;
            }
            let mut flipped = bytes.clone();
            flipped[pos] = c;
            assert!(decode_text(&flipped).is_err(), "flip at {pos} accepted");
        }
    }
}

#[test]
fn uppercase_string_decodes() {
    let payload = vec![0x11u8; 96];
    let s = encode_unified_container("jview", 3, &payload).expect("encode");
    let upper = s.to_uppercase();
    let (tc, got) = decode_unified_container(&upper, "jview").expect("decode");
    assert_eq!(tc, 3);
    assert_eq!(got, payload);
}

#[test]
fn mixed_case_rejected() {
    let payload = vec![0x11u8; 96];
    let s = encode_unified_container("jview", 3, &payload).expect("encode");
    let mut bytes = s.into_bytes();
    let last = bytes.len() - 1;
    bytes[last] = bytes[last].to_ascii_uppercase();
    let err = decode_text(&bytes).expect_err("mixed case");
    assert!(matches!(err, CodecError::MixedCase));
}

#[test]
fn missing_separator_rejected() {
    let err = decode_text(&b"qqqqqqqqqq".to_vec()).expect_err("no separator");
    assert!(matches!(err, CodecError::InvalidCharacter));
}

#[test]
fn bad_character_rejected() {
    let err = decode_text(&b"jview1bbbbbbbb".to_vec()).expect_err("bad char");
    assert!(matches!(err, CodecError::InvalidCharacter));
}

#[test]
fn bad_padding_rejected() {
    // one symbol of data yields zero bytes: a non-minimal symbol count
    let hrp = b"a".to_vec();
    let data_syms = vec![1u8];
    let cs = create_checksum(&hrp, &data_syms);
    let mut s = b"a1".to_vec();
    s.push(sym_char_of(1));
    for v in cs {
        s.push(sym_char_of(v));
    }
    let err = decode_text(&s).expect_err("bad padding");
    assert!(matches!(err, CodecError::InvalidPadding));
}

#[test]
fn payload_length_boundary() {
    let max = vec![0u8; 65535];
    let s = encode_unified_container("jview", 3, &max).expect("max payload");
    let (tc, got) = decode_unified_container(&s, "jview").expect("decode");
    assert_eq!(tc, 3);
    assert_eq!(got.len(), 65535);
    let over = vec![0u8; 65536];
    let err = encode_unified_container("jview", 3, &over).expect_err("over");
    assert!(matches!(err, CodecError::PayloadTooLarge));
}

#[test]
fn frame_error_cases() {
    let hrp = b"jview".to_vec();
    let err = frame(&hrp, vec![]).expect_err("empty");
    assert!(matches!(err, CodecError::EmptyContainer));
    let err = frame(&hrp, vec![(3, vec![1]), (3, vec![2])]).expect_err("dup");
    assert!(matches!(err, CodecError::DuplicateTypeCode));
    let long_hrp = vec![b'a'; 17];
    let err = frame(&long_hrp, vec![(3, vec![1])]).expect_err("long hrp");
    assert!(matches!(err, CodecError::HrpTooLong));
}

#[test]
fn frame_sorts_items_by_type_code() {
    let hrp = b"jview".to_vec();
    let sorted = frame(&hrp, vec![(1, vec![0xaa; 4]), (2, vec![0xbb; 4])]).expect("sorted");
    let unsorted = frame(&hrp, vec![(2, vec![0xbb; 4]), (1, vec![0xaa; 4])]).expect("unsorted");
    assert_eq!(sorted, unsorted);
}

#[test]
fn multi_item_container_rejected_by_single_item_decoder() {
    let hrp = b"jview".to_vec();
    let framed = frame(&hrp, vec![(1, vec![0xaa; 20]), (2, vec![0xbb; 20])]).expect("frame");
    let permuted = permute(&framed).expect("permute");
    let encoded = encode_text(&hrp, &permuted).expect("encode");
    let s = String::from_utf8(encoded).expect("utf8");
    let err = decode_unified_container(&s, "jview").expect_err("two items");
    assert!(matches!(err, CodecError::UnexpectedItemCount));
}

#[test]
fn encode_text_rejects_bad_hrp() {
    let data = vec![0u8; 20];
    let err = encode_text(&b"JVIEW".to_vec(), &data).expect_err("upper hrp");
    assert!(matches!(err, CodecError::InvalidHrp));
    let err = encode_text(&b"".to_vec(), &data).expect_err("empty hrp");
    assert!(matches!(err, CodecError::InvalidHrp));
    let err = encode_text(&b"jv iew".to_vec(), &data).expect_err("space in hrp");
    assert!(matches!(err, CodecError::InvalidHrp));
}

#[test]
fn varint_canonical_rejected() {
    // 10 encoded with the three-byte form is non-minimal
    let buf = vec![253u8, 10, 0];
    assert!(juno_keys::varint::read_varint(&buf, 0).is_none());
    // 300 in the three-byte form is minimal
    let buf = vec![253u8, 44, 1];
    assert_eq!(juno_keys::varint::read_varint(&buf, 0), Some((300, 3)));
}

#[test]
fn truncated_container_rejected() {
    let payload = vec![0x11u8; 96];
    let s = encode_unified_container("jview", 3, &payload).expect("encode");
    // drop ten characters: the checksum no longer matches
    let truncated = &s[..s.len() - 10];
    assert!(decode_unified_container(truncated, "jview").is_err());
}

#[test]
fn oversized_data_rejected_by_text_encoder() {
    let data = vec![0u8; 262145];
    let err = encode_text(&b"jview".to_vec(), &data).expect_err("too long");
    assert!(matches!(err, CodecError::EncodedTooLong));
}

#[test]
fn garbage_frame_rejected_as_malformed() {
    // a buffer whose first length field decodes to an absurd value
    let buf = vec![255u8; 20];
    let hrp = b"jview".to_vec();
    let permuted = permute(&buf).expect("permute");
    let encoded = encode_text(&hrp, &permuted).expect("encode");
    let s = String::from_utf8(encoded).expect("utf8");
    let err = decode_unified_container(&s, "jview").expect_err("malformed");
    assert!(matches!(err, CodecError::MalformedContainer));
}

#[test]
fn itemless_container_rejected_as_empty() {
    // a buffer that is nothing but the padding block
    let hrp = b"jview".to_vec();
    let mut buf = hrp.clone();
    buf.resize(16, 0);
    let permuted = permute(&buf).expect("permute");
    let encoded = encode_text(&hrp, &permuted).expect("encode");
    let s = String::from_utf8(encoded).expect("utf8");
    let err = decode_unified_container(&s, "jview").expect_err("empty");
    assert!(matches!(err, CodecError::EmptyContainer));
}
