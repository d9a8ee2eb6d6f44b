use chainproof::signing;

#[test]
fn test_sign_and_verify_roundtrip() {
    let json_str = r#"{"name":"test"}"#;
    let key = b"secret_key";

    let signature = signing::sign(json_str, key);
    assert!(signing::verify(json_str, &signature, key), "Signature should verify");
}

#[test]
fn test_verify_fails_with_wrong_key() {
    let json_str = r#"{"name":"test"}"#;
    let key1 = b"secret_key_1";
    let key2 = b"secret_key_2";

    let signature = signing::sign(json_str, key1);
    assert!(!signing::verify(json_str, &signature, key2), "Signature should fail with wrong key");
}

#[test]
fn test_verify_fails_with_tampered_payload() {
    let json_str = r#"{"name":"test"}"#;
    let tampered = r#"{"name":"tampered"}"#;
    let key = b"secret_key";

    let signature = signing::sign(json_str, key);
    assert!(!signing::verify(tampered, &signature, key), "Signature should fail with tampered payload");
}

#[test]
fn test_sign_and_verify() {
    let json_str = r#"{"name":"test"}"#;
    let key = b"secret_key";

    let signature = signing::sign(json_str, key);
    assert!(signing::verify(json_str, &signature, key));
}

#[test]
fn test_verify_invalid_signature() {
    let json_str = r#"{"name":"test"}"#;
    let key = b"secret_key";
    let wrong_signature = "invalid_base64_signature";

    assert!(!signing::verify(json_str, wrong_signature, key));
}

#[test]
fn test_verify_wrong_key() {
    let json_str = r#"{"name":"test"}"#;
    let key1 = b"secret_key_1";
    let key2 = b"secret_key_2";

    let signature = signing::sign(json_str, key1);
    assert!(!signing::verify(json_str, &signature, key2));
}

#[test]
fn test_verify_modified_json() {
    let json_str = r#"{"name":"test"}"#;
    let modified_json = r#"{"name":"test2"}"#;
    let key = b"secret_key";

    let signature = signing::sign(json_str, key);
    assert!(!signing::verify(modified_json, &signature, key));
}

#[test]
fn test_sign_known_value() {
    let signature = signing::sign(r#"{"name":"test"}"#, b"secret_key");
    assert_eq!(signature, "bGkdST3jndykpGxNDkvLQFSvDpAGLKHnFBnkrwjoN4Q=");
    assert_eq!(signature.len(), 44);
    assert!(signature.ends_with('='));
    assert!(signature[..43].chars().all(|c| c.is_ascii_alphanumeric() || c == '+' || c == '/'));
}

#[test]
fn test_verify_rejects_truncated_and_raw_tags() {
    let json_str = r#"{"name":"test"}"#;
    let key = b"secret_key";
    let signature = signing::sign(json_str, key);
    assert!(!signing::verify(json_str, &signature[..40], key));
    assert!(!signing::verify(json_str, "", key));
    assert!(!signing::verify(json_str, "AAAA", key));
}

#[test]
fn test_sign_with_empty_key_and_text() {
    let signature = signing::sign("", b"");
    assert_eq!(signature.len(), 44);
    assert!(signing::verify("", &signature, b""));
    assert!(!signing::verify(" ", &signature, b""));
}
