use auth_core::identity::Identity;
use auth_core::service::AuthService;
use auth_core::token::{Claims, TokenError, make_token};

fn service() -> AuthService {
    AuthService::new(b"test-secret".to_vec())
}

fn subject() -> Identity {
    Identity::parse(b"01234567-89ab-cdef-0123-456789abcdef").expect("canonical id")
}

#[test]
fn issued_token_verifies_to_its_claims() {
    let auth = service();
    let id = subject();
    let token = auth.generate_token_at(&id, 1000);
    let claims = auth.validate_token_at(&token, 1500).expect("a fresh token must verify");
    assert_eq!(claims.sub, id.to_vec());
    assert_eq!(claims.iat, 1000);
    assert_eq!(claims.exp, 1000 + 86400);
}

#[test]
fn two_calls_for_one_instant_agree() {
    let auth = service();
    let id = subject();
    let a = auth.generate_token_at(&id, 5000);
    let b = auth.generate_token_at(&id, 5000);
    assert_eq!(a, b);
}

#[test]
fn token_expires_at_the_exact_boundary() {
    let auth = service();
    let id = subject();
    let token = auth.generate_token_at(&id, 1000);
    let exp = 1000 + 86400;
    assert!(auth.validate_token_at(&token, exp - 1).is_ok());
    assert_eq!(auth.validate_token_at(&token, exp).err(), Some(TokenError::Expired));
    assert_eq!(auth.validate_token_at(&token, exp + 1).err(), Some(TokenError::Expired));
}

#[test]
fn token_with_past_expiry_is_expired_despite_valid_signature() {
    let auth = service();
    let now: i64 = 50000;
    // claims built by hand with expiry one second in the past, signed properly
    let claims = Claims { sub: b"01234567-89ab-cdef-0123-456789abcdef".to_vec(), exp: now - 1, iat: now - 10 };
    let token = make_token(b"test-secret", &claims);
    assert_eq!(auth.validate_token_at(&token, now).err(), Some(TokenError::Expired));
}

#[test]
fn every_single_bit_flip_in_signature_fails_verification() {
    let auth = service();
    let id = subject();
    let token = auth.generate_token_at(&id, 1000);
    let sig_start = token.iter().rposition(|&b| b == b'.').expect("a token has dots") + 1;
    for i in sig_start..token.len() {
        for bit in 0..8u8 {
            let mut altered = token.clone();
            altered[i] ^= 1 << bit;
            let r = auth.validate_token_at(&altered, 1500);
            assert!(r.is_err(), "an altered signature must never verify");
            if altered[i] != b'.' {
                assert_eq!(r.err(), Some(TokenError::InvalidSignature));
            }
        }
    }
}

#[test]
fn wrong_secret_fails_with_signature_error() {
    let auth = service();
    let other = AuthService::new(b"another-secret".to_vec());
    let id = subject();
    let token = auth.generate_token_at(&id, 1000);
    assert_eq!(other.validate_token_at(&token, 1500).err(), Some(TokenError::InvalidSignature));
}

#[test]
fn structurally_broken_tokens_are_malformed() {
    let auth = service();
    assert_eq!(auth.validate_token_at(b"", 0).err(), Some(TokenError::Malformed));
    assert_eq!(auth.validate_token_at(b"nodotsatall", 0).err(), Some(TokenError::Malformed));
    assert_eq!(auth.validate_token_at(b"one.dot", 0).err(), Some(TokenError::Malformed));
}

#[test]
fn header_must_be_the_signing_scheme() {
    let auth = service();
    let id = subject();
    let token = auth.generate_token_at(&id, 1000);
    // graft the real signature onto a different header segment
    let first_dot = token.iter().position(|&b| b == b'.').unwrap();
    let mut grafted = b"eyJhbGciOiJub25lIn0".to_vec();
    grafted.extend_from_slice(&token[first_dot..]);
    assert!(auth.validate_token_at(&grafted, 1500).is_err());
}

#[test]
fn issued_token_is_a_standard_bearer_token() {
    // a stock consumer with the same secret accepts the token and reads the
    // same claims from it
    let auth = service();
    let id = subject();
    let iat = chrono::Utc::now().timestamp();
    let token = auth.generate_token_at(&id, iat);
    let token_str = String::from_utf8(token).expect("a token is ascii text");
    let key = jsonwebtoken::DecodingKey::from_secret(b"test-secret");
    let validation = jsonwebtoken::Validation::new(jsonwebtoken::Algorithm::HS256);
    let decoded = jsonwebtoken::decode::<serde_json::Value>(&token_str, &key, &validation)
        .expect("a stock consumer must accept the token");
    assert_eq!(
        decoded.claims.get("sub").and_then(|v| v.as_str()),
        Some("01234567-89ab-cdef-0123-456789abcdef")
    );
    assert_eq!(decoded.claims.get("iat").and_then(|v| v.as_i64()), Some(iat));
    assert_eq!(decoded.claims.get("exp").and_then(|v| v.as_i64()), Some(iat + 86400));
}

#[test]
fn password_hash_round_trip() {
    let auth = service();
    let hash = auth.hash_password(b"secret123").expect("hashing must succeed");
    assert_ne!(hash, b"secret123".to_vec(), "the hash must not be the plaintext");
    assert_eq!(auth.verify_password(b"secret123", &hash).ok(), Some(true));
    assert_eq!(auth.verify_password(b"secret124", &hash).ok(), Some(false));
    assert_eq!(auth.verify_password(b"", &hash).ok(), Some(false));
}

#[test]
fn malformed_stored_hash_is_an_internal_error_not_a_mismatch() {
    let auth = service();
    let r = auth.verify_password(b"secret123", b"not-a-bcrypt-hash");
    assert_eq!(r.err(), Some(auth_core::ApiError::InternalError));
}

#[test]
fn two_hashes_of_one_password_differ_but_both_match() {
    let auth = service();
    let h1 = auth.hash_password(b"secret123").unwrap();
    let h2 = auth.hash_password(b"secret123").unwrap();
    assert_ne!(h1, h2, "each hash draws a fresh salt");
    assert_eq!(auth.verify_password(b"secret123", &h1).ok(), Some(true));
    assert_eq!(auth.verify_password(b"secret123", &h2).ok(), Some(true));
}

#[test]
fn clock_based_issue_and_verify_round_trip() {
    let auth = service();
    let id = subject();
    let token = auth.generate_token(&id).expect("issuing with the clock succeeds");
    let claims = auth.validate_token(&token).expect("a token issued now verifies now");
    assert_eq!(claims.sub, id.to_vec());
    assert_eq!(claims.exp, claims.iat + 86400);
}
