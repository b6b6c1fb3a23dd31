use juno_keys::{decode_seed_base64, generate_seed_base64, ufvk_from_seed_base64, ufvk_hrp_from_ua_hrp, KeysError, Network};

#[test]
fn seed_roundtrip_default_len() {
    let seed_b64 = generate_seed_base64(64).expect("seed");
    let seed = decode_seed_base64(&seed_b64).expect("decode");
    assert_eq!(seed.len(), 64);
}

#[test]
fn derives_ufvk_prefixes() {
    let seed = [7u8; 64];
    let seed_b64 = base64::Engine::encode(&base64::engine::general_purpose::STANDARD, seed);

    let ufvk_main = ufvk_from_seed_base64(
        &seed_b64,
        Network::Mainnet.ua_hrp(),
        Network::Mainnet.coin_type(),
        0,
    )
    .expect("ufvk main");
    assert!(ufvk_main.starts_with("jview1"));

    let ufvk_regtest = ufvk_from_seed_base64(
        &seed_b64,
        Network::Regtest.ua_hrp(),
        Network::Regtest.coin_type(),
        0,
    )
    .expect("ufvk regtest");
    assert!(ufvk_regtest.starts_with("jviewregtest1"));
}

#[test]
fn ufvk_from_seed_rejects_invalid_coin_type() {
    let seed = [7u8; 64];
    let seed_b64 = base64::Engine::encode(&base64::engine::general_purpose::STANDARD, seed);
    let err = ufvk_from_seed_base64(&seed_b64, "j", 0x8000_0000, 0).expect_err("err");
    assert!(matches!(err, KeysError::CoinTypeInvalid));
}

#[test]
fn ufvk_from_seed_rejects_invalid_ua_hrp() {
    let seed = [7u8; 64];
    let seed_b64 = base64::Engine::encode(&base64::engine::general_purpose::STANDARD, seed);
    let err = ufvk_from_seed_base64(&seed_b64, "x", 8133, 0).expect_err("err");
    assert!(matches!(err, KeysError::UAHrpInvalid));
}

#[test]
fn ufvk_from_seed_rejects_invalid_account() {
    let seed = [7u8; 64];
    let seed_b64 = base64::Engine::encode(&base64::engine::general_purpose::STANDARD, seed);
    let err = ufvk_from_seed_base64(&seed_b64, "j", 8133, 0x8000_0000).expect_err("err");
    assert!(matches!(err, KeysError::AccountInvalid));
}

#[test]
fn ufvk_deterministic_for_fixed_seed() {
    let seed = [9u8; 64];
    let seed_b64 = base64::Engine::encode(&base64::engine::general_purpose::STANDARD, seed);
    let a = ufvk_from_seed_base64(&seed_b64, "j", 8133, 0).expect("a");
    let b = ufvk_from_seed_base64(&seed_b64, "j", 8133, 0).expect("b");
    assert_eq!(a, b);
}

#[test]
fn decode_seed_known_vector() {
    // 64 bytes of 0x07: 21 full groups then one byte left over
    let expected = vec![7u8; 64];
    let b64 = format!("{}Bw==", "BwcH".repeat(21));
    let got = decode_seed_base64(&b64).expect("decode");
    assert_eq!(got, expected);
}

#[test]
fn decode_seed_trims_whitespace() {
    let b64 = format!("  {}Bw==\n", "BwcH".repeat(21));
    let got = decode_seed_base64(&b64).expect("decode");
    assert_eq!(got, vec![7u8; 64]);
}

#[test]
fn decode_seed_rejects_bad_base64() {
    assert!(matches!(decode_seed_base64("!!notbase64!!"), Err(KeysError::SeedInvalid)));
}

#[test]
fn decode_seed_rejects_short_seed() {
    // 3 bytes decode fine as base64 but are far below the minimum length
    assert!(matches!(decode_seed_base64("BwcH"), Err(KeysError::SeedInvalid)));
}

#[test]
fn generate_seed_rejects_out_of_range() {
    assert!(matches!(generate_seed_base64(31), Err(KeysError::SeedInvalid)));
    assert!(matches!(generate_seed_base64(253), Err(KeysError::SeedInvalid)));
}

#[test]
fn generate_seed_is_random() {
    let a = generate_seed_base64(64).expect("a");
    let b = generate_seed_base64(64).expect("b");
    assert_ne!(a, b);
}

#[test]
fn ufvk_hrp_mapping() {
    assert_eq!(ufvk_hrp_from_ua_hrp("j").expect("j"), "jview");
    assert_eq!(ufvk_hrp_from_ua_hrp("jtest").expect("jtest"), "jviewtest");
    assert_eq!(ufvk_hrp_from_ua_hrp("jregtest").expect("jregtest"), "jviewregtest");
    assert_eq!(ufvk_hrp_from_ua_hrp(" j \n").expect("trimmed"), "jview");
    assert!(matches!(ufvk_hrp_from_ua_hrp(""), Err(KeysError::UAHrpInvalid)));
    assert!(matches!(ufvk_hrp_from_ua_hrp("zj"), Err(KeysError::UAHrpInvalid)));
}

#[test]
fn error_codes_are_stable() {
    assert_eq!(KeysError::SeedInvalid.code(), "seed_invalid");
    assert_eq!(KeysError::UAHrpInvalid.code(), "ua_hrp_invalid");
    assert_eq!(KeysError::CoinTypeInvalid.code(), "coin_type_invalid");
    assert_eq!(KeysError::AccountInvalid.code(), "account_invalid");
    assert_eq!(KeysError::Internal.code(), "internal");
}

#[test]
fn network_constants() {
    assert_eq!(Network::Mainnet.ua_hrp(), "j");
    assert_eq!(Network::Testnet.ua_hrp(), "jtest");
    assert_eq!(Network::Regtest.ua_hrp(), "jregtest");
    assert_eq!(Network::Mainnet.coin_type(), 8133);
    assert_eq!(Network::Testnet.coin_type(), 8134);
    assert_eq!(Network::Regtest.coin_type(), 8135);
}
