use aes_gcm::aead::{Aead, Payload};
use aes_gcm::KeyInit;
use base64::Engine;
use fitgirl_auto_downloader_mori::json::{json_to_string, JsonValue};
use fitgirl_auto_downloader_mori::paste::{
    decrypt_envelope, decrypt_paste, decrypt_would_fault, envelope_would_fault, pad_key,
    read_envelope,
};
use std::io::Write;

type Cipher = aes_gcm::AesGcm<aes::Aes256, typenum::U16>;

fn s(x: &str) -> String {
    x.to_string()
}

fn b64(bytes: &[u8]) -> String {
    base64::engine::general_purpose::STANDARD.encode(bytes)
}

fn adata(iv: &str, salt: &str, rounds: &str, bits: &str) -> JsonValue {
    JsonValue::Array(vec![
        JsonValue::Array(vec![
            JsonValue::Str(s(iv)),
            JsonValue::Str(s(salt)),
            JsonValue::Number(s(rounds)),
            JsonValue::Number(s(bits)),
            JsonValue::Number(s("128")),
            JsonValue::Str(s("aes")),
            JsonValue::Str(s("gcm")),
            JsonValue::Str(s("zlib")),
        ]),
        JsonValue::Str(s("plaintext")),
        JsonValue::Number(s("0")),
        JsonValue::Number(s("0")),
    ])
}

fn doc(adata: JsonValue, ct: Option<&str>) -> JsonValue {
    let mut entries = vec![(s("v"), JsonValue::Number(s("2"))), (s("adata"), adata)];
    if let Some(ct) = ct {
        entries.push((s("ct"), JsonValue::Str(s(ct))));
    }
    entries.push((s("meta"), JsonValue::Object(vec![])));
    JsonValue::Object(entries)
}

/// A paste encrypted the way the paste service does it, with its base58 key.
fn sealed_paste(text: &str, raw_key: &[u8]) -> (JsonValue, String) {
    let salt = [3u8, 1, 4, 1, 5, 9, 2, 6];
    let iv = [7u8; 16];
    let rounds = 1000u32;
    let mut padded = vec![0u8; 32];
    let take = raw_key.len().min(32);
    padded[32 - take..].copy_from_slice(&raw_key[..take]);
    let mut derived = [0u8; 32];
    pbkdf2::pbkdf2_hmac::<sha2::Sha256>(&padded, &salt, rounds, &mut derived);
    let mut enc = flate2::write::DeflateEncoder::new(Vec::new(), flate2::Compression::default());
    enc.write_all(text.as_bytes()).unwrap();
    let compressed = enc.finish().unwrap();
    let ad = adata(&b64(&iv), &b64(&salt), "1000", "256");
    let aad = json_to_string(&ad);
    let cipher = Cipher::new(aes_gcm::Key::<Cipher>::from_slice(&derived));
    let nonce = aes_gcm::aead::Nonce::<Cipher>::from_slice(&iv);
    let ct = cipher.encrypt(nonce, Payload { msg: &compressed, aad: aad.as_bytes() }).unwrap();
    (doc(ad, Some(&b64(&ct))), bs58::encode(raw_key).into_string())
}

#[test]
fn compact_json_matches_the_serializer() {
    let v = JsonValue::Array(vec![
        JsonValue::Str(s("a\"b\\c\n\t\u{1}é")),
        JsonValue::Number(s("12")),
        JsonValue::Bool(true),
        JsonValue::Null,
        JsonValue::Object(vec![(s("k"), JsonValue::Str(s("v"))), (s("n"), JsonValue::Array(vec![]))]),
    ]);
    let mut m = serde_json::Map::new();
    m.insert(s("k"), serde_json::Value::String(s("v")));
    m.insert(s("n"), serde_json::Value::Array(vec![]));
    let expected = serde_json::Value::Array(vec![
        serde_json::Value::String(s("a\"b\\c\n\t\u{1}é")),
        serde_json::Value::Number(12u64.into()),
        serde_json::Value::Bool(true),
        serde_json::Value::Null,
        serde_json::Value::Object(m),
    ]);
    assert_eq!(json_to_string(&v), serde_json::to_string(&expected).unwrap());
    assert_eq!(json_to_string(&v), r#"["a\"b\\c\n\t\u0001é",12,true,null,{"k":"v","n":[]}]"#);
}

#[test]
fn short_keys_are_padded_in_front_and_long_keys_cut() {
    assert_eq!(pad_key(&vec![1, 2, 3]), [vec![0u8; 29], vec![1, 2, 3]].concat());
    let long: Vec<u8> = (0..40).collect();
    assert_eq!(pad_key(&long), (0..32).collect::<Vec<u8>>());
    assert_eq!(pad_key(&Vec::new()), vec![0u8; 32]);
}

#[test]
fn a_sealed_paste_opens_with_its_key() {
    let text = "links:\nhttps://fuckingfast.co/abc#Game.part01.rar\n";
    let (d, key) = sealed_paste(text, &[42u8; 32]);
    assert_eq!(decrypt_paste(&d, &key), Some(Ok(s(text))));
    let (d, key) = sealed_paste("short key", &[9u8, 8, 7, 6, 5]);
    assert_eq!(decrypt_paste(&d, &key), Some(Ok(s("short key"))));
}

#[test]
fn the_envelope_is_read_field_by_field() {
    let (d, _) = sealed_paste("x", &[1u8; 32]);
    let e = read_envelope(&d).ok().unwrap();
    assert_eq!(e.iterations, 1000);
    assert_eq!(e.key_size, 256);
    assert_eq!(e.iv, b64(&[7u8; 16]));
    assert!(e.aad.starts_with("[[\""));
    assert!(!envelope_would_fault(&d));
}

#[test]
fn a_wrong_key_fails_the_tag() {
    let (d, _) = sealed_paste("secret", &[42u8; 32]);
    let other = bs58::encode([43u8; 32]).into_string();
    assert_eq!(decrypt_paste(&d, &other), Some(Err(s("decryption failed (wrong key?)"))));
}

#[test]
fn decoding_failures_are_named() {
    let (d, _) = sealed_paste("secret", &[42u8; 32]);
    match decrypt_paste(&d, "0OIl") {
        Some(Err(m)) => assert!(m.starts_with("base58: "), "{m}"),
        other => panic!("{other:?}"),
    }
    let key = bs58::encode([1u8; 32]).into_string();
    let bad_ct = doc(adata(&b64(&[7u8; 16]), &b64(&[1u8; 8]), "10", "256"), Some("!!!!"));
    match decrypt_paste(&bad_ct, &key) {
        Some(Err(m)) => assert!(m.starts_with("ct base64: "), "{m}"),
        other => panic!("{other:?}"),
    }
    let bad_salt = doc(adata(&b64(&[7u8; 16]), "a", "10", "256"), Some("AAAA"));
    match decrypt_paste(&bad_salt, &key) {
        Some(Err(m)) => assert!(m.starts_with("salt base64: "), "{m}"),
        other => panic!("{other:?}"),
    }
    let bad_iv = doc(adata("*", &b64(&[1u8; 8]), "10", "256"), Some("AAAA"));
    match decrypt_paste(&bad_iv, &key) {
        Some(Err(m)) => assert!(m.starts_with("iv base64: "), "{m}"),
        other => panic!("{other:?}"),
    }
}

#[test]
fn missing_fields_are_named_in_order() {
    let key = bs58::encode([1u8; 32]).into_string();
    let no_adata = JsonValue::Object(vec![(s("ct"), JsonValue::Str(s("AAAA")))]);
    assert_eq!(decrypt_paste(&no_adata, &key), Some(Err(s("missing adata"))));
    let spec_not_array = doc(JsonValue::Array(vec![JsonValue::Null]), Some("AAAA"));
    assert_eq!(decrypt_paste(&spec_not_array, &key), Some(Err(s("missing spec"))));
    let bad_rounds = doc(adata("AAAA", "AAAA", "-5", "256"), Some("AAAA"));
    assert_eq!(decrypt_paste(&bad_rounds, &key), Some(Err(s("missing iterations"))));
    let bad_size = doc(adata("AAAA", "AAAA", "5", "2.5"), Some("AAAA"));
    assert_eq!(decrypt_paste(&bad_size, &key), Some(Err(s("missing key_size"))));
    let no_ct = doc(adata("AAAA", "AAAA", "5", "256"), None);
    assert_eq!(decrypt_paste(&no_ct, &key), Some(Err(s("missing ct"))));
    let iv_number = doc(
        JsonValue::Array(vec![JsonValue::Array(vec![JsonValue::Number(s("1")), JsonValue::Null])]),
        Some("AAAA"),
    );
    assert_eq!(decrypt_paste(&iv_number, &key), Some(Err(s("missing iv"))));
}

#[test]
fn pastes_the_reader_cannot_index_are_refused() {
    let key = bs58::encode([1u8; 32]).into_string();
    let empty_adata = doc(JsonValue::Array(vec![]), Some("AAAA"));
    assert!(envelope_would_fault(&empty_adata));
    assert_eq!(decrypt_paste(&empty_adata, &key), None);
    let short_spec = doc(
        JsonValue::Array(vec![JsonValue::Array(vec![JsonValue::Str(s("AAAA"))])]),
        Some("AAAA"),
    );
    assert_eq!(decrypt_paste(&short_spec, &key), None);
    let small_key = doc(adata(&b64(&[7u8; 16]), "AAAA", "5", "128"), Some("AAAA"));
    assert_eq!(decrypt_paste(&small_key, &key), None);
    let e = read_envelope(&small_key).ok().unwrap();
    assert!(decrypt_would_fault(&e, &key));
    let short_iv = doc(adata(&b64(&[7u8; 12]), "AAAA", "5", "256"), Some("AAAA"));
    assert_eq!(decrypt_paste(&short_iv, &key), None);
}

#[test]
fn a_garbled_cipher_text_is_a_decryption_failure() {
    let key = bs58::encode([1u8; 32]).into_string();
    let d = doc(adata(&b64(&[7u8; 16]), "AAAA", "5", "256"), Some(&b64(&[0u8; 40])));
    let e = read_envelope(&d).ok().unwrap();
    assert!(!decrypt_would_fault(&e, &key));
    assert_eq!(decrypt_envelope(&e, &key), Err(s("decryption failed (wrong key?)")));
}

#[test]
fn a_leading_one_in_a_short_key_changes_nothing() {
    let (d, key) = sealed_paste("padded", &[9u8, 8, 7]);
    let longer = format!("1{key}");
    assert_eq!(decrypt_paste(&d, &longer), Some(Ok(s("padded"))));
    assert_eq!(decrypt_paste(&d, &longer), decrypt_paste(&d, &key));
}
