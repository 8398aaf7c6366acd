use file_agent::auth::{check_auth, generate_token_hash, verify_token};
use file_agent::envelope::ApiResponse;
use file_agent::handlers::health_check;

use sha2::Digest;

fn hex_of_sha256(data: &[u8]) -> String {
    let digest = sha2::Sha256::digest(data);
    let mut out = String::new();
    for b in digest.iter() {
        out.push_str(&format!("{:02x}", b));
    }
    out
}

#[test]
fn token_hash_is_sha256_hex() {
    // Known SHA-256 vector.
    assert_eq!(
        generate_token_hash("abc"),
        "ba7816bf8f01cfea414140de5dae2223b00361a396177a9cb410ff61f20015ad"
    );
    // Agrees with the sha2 crate on another input.
    assert_eq!(
        generate_token_hash("default-token-12345"),
        hex_of_sha256(b"default-token-12345")
    );
}

#[test]
fn token_verifies_against_own_digest() {
    let hash = generate_token_hash("secret-token");
    assert!(verify_token("secret-token", &hash));
    assert!(!verify_token("secret-token2", &hash));
    assert!(!verify_token("", &hash));
    // Length mismatch against a truncated digest also fails.
    assert!(!verify_token("secret-token", &hash[..10]));
}

#[test]
fn check_auth_reports_fixed_message() {
    let hash = generate_token_hash("tok");
    assert!(check_auth("tok", &hash).is_ok());
    let err = check_auth("bad", &hash).unwrap_err();
    assert_eq!(err, "authentication error: invalid token");
}

#[test]
fn envelope_carries_exactly_one_payload() {
    let ok: ApiResponse<String> = ApiResponse::ok(String::from("x"));
    assert!(ok.success);
    assert_eq!(ok.data.as_deref(), Some("x"));
    assert!(ok.error.is_none());
    let err: ApiResponse<String> = ApiResponse::err(String::from("boom"));
    assert!(!err.success);
    assert!(err.data.is_none());
    assert_eq!(err.error.as_deref(), Some("boom"));
}

#[test]
fn health_needs_no_token() {
    let r = health_check();
    assert!(r.success);
    assert_eq!(
        r.data.as_deref(),
        Some("File Agent is running (token required for operations)")
    );
    assert!(r.error.is_none());
}
