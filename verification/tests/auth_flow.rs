//! Challenge/response authentication: key derivation, signatures,
//! one-shot challenges, and bearer tokens.

use matchbox_server::auth::{
    issue_jwt_at, validate_token, verify_signature, AuthError, AuthSecret, ChallengeManager,
};
use matchbox_server::errors::ApiError;
use matchbox_server::helpers::{generate_login_payload, get_public_key};
use matchbox_server::state::ServerState;

fn secret() -> AuthSecret {
    AuthSecret("test-secret-key-for-development-only".to_string())
}

fn payload_fields(username: &str, password: &str, challenge: &str) -> (String, String) {
    let payload = generate_login_payload(username, password, challenge).unwrap();
    let v: serde_json::Value = serde_json::from_str(&payload).unwrap();
    let pk = v["public_key_b64"].as_str().unwrap().to_string();
    let sig = v["signature_b64"].as_str().unwrap().to_string();
    (pk, sig)
}

#[test]
fn test_authentication_flow() {
    let mut st = ServerState::default();
    let secret = secret();

    let challenge = st.challenge_manager.generate_challenge();
    assert_eq!(challenge.chars().count(), 32);
    assert!(challenge.chars().all(|c| c.is_ascii_alphanumeric()));

    let (pk, sig) = payload_fields("alice", "correct horse battery", &challenge);
    let username = "alice".to_string();

    let token = st
        .login(&pk, &username, &challenge, &sig, &secret)
        .unwrap();
    assert!(!token.is_empty());

    // A second attempt reusing the same challenge is rejected.
    let err = st
        .login(&pk, &username, &challenge, &sig, &secret)
        .unwrap_err();
    assert_eq!(err, ApiError::InvalidChallenge);
    assert_eq!(err.status_code(), 401);
}

#[test]
fn test_authentication_flow_invalid_signature() {
    let mut st = ServerState::default();
    let secret = secret();

    let challenge = st.challenge_manager.generate_challenge();
    // Sign a different message than the challenge the server issued.
    let (pk, wrong_sig) = payload_fields("bob", "hunter2hunter2", "not-the-challenge");
    let username = "bob".to_string();

    let err = st
        .login(&pk, &username, &challenge, &wrong_sig, &secret)
        .unwrap_err();
    assert_eq!(err, ApiError::InvalidSignature);
    assert_eq!(err.status_code(), 401);
}

#[test]
fn signature_verifies_only_for_the_signed_message() {
    let challenge = "abcdefghijklmnopqrstuvwxyzABCDEF";
    let (pk, sig) = payload_fields("carol", "pw-carol", challenge);
    assert!(verify_signature(&pk, challenge, &sig));
    assert!(!verify_signature(&pk, "another message", &sig));
    // Garbage in any Base64 field cannot verify.
    assert!(!verify_signature("!!!", challenge, &sig));
    assert!(!verify_signature(&pk, challenge, "@@@"));
    // A key of the wrong length cannot verify.
    assert!(!verify_signature("QUJD", challenge, &sig));
}

#[test]
fn derived_public_key_is_deterministic() {
    let a = get_public_key("dave", "pw-dave").unwrap();
    let b = get_public_key("dave", "pw-dave").unwrap();
    assert_eq!(a, b);
    let c = get_public_key("dave", "another password").unwrap();
    assert_ne!(a, c);
    let (pk, _) = payload_fields("dave", "pw-dave", "xyz");
    assert_eq!(a, pk);
}

#[test]
fn login_payload_is_well_formed_json() {
    let payload = generate_login_payload("eve \"quoted\"\n", "pw-eve", "ch\\allenge").unwrap();
    let v: serde_json::Value = serde_json::from_str(&payload).unwrap();
    assert_eq!(v["username"].as_str().unwrap(), "eve \"quoted\"\n");
    assert_eq!(v["challenge"].as_str().unwrap(), "ch\\allenge");
    assert_eq!(
        v["public_key_b64"].as_str().unwrap(),
        get_public_key("eve \"quoted\"\n", "pw-eve").unwrap()
    );
}

#[test]
fn challenge_consumed_at_most_once() {
    let mut cm = ChallengeManager::new();
    let c = "CCCCCCCCCCCCCCCCCCCCCCCCCCCCCCCC".to_string();
    cm.record_challenge(c.clone(), 1000);
    assert!(cm.verify_challenge_at(&c, 2000));
    // The successful consume removed the entry: a second consume fails.
    assert!(!cm.verify_challenge_at(&c, 2001));
}

#[test]
fn challenge_expires_after_its_lifetime() {
    let mut cm = ChallengeManager::new();
    let c = "DDDDDDDDDDDDDDDDDDDDDDDDDDDDDDDD".to_string();
    cm.record_challenge(c.clone(), 1000);
    // 59 999 ms later: still fresh.
    assert!(cm.verify_challenge_at(&c, 60999));

    cm.record_challenge(c.clone(), 1000);
    // 60 000 ms later: stale, and the failed consume leaves the entry.
    assert!(!cm.verify_challenge_at(&c, 61000));
    assert!(!cm.verify_challenge_at(&c, 61001));
}

#[test]
fn stale_challenge_survives_failed_verify_until_sweep() {
    let mut cm = ChallengeManager::new();
    let c = "EEEEEEEEEEEEEEEEEEEEEEEEEEEEEEEE".to_string();
    let fresh = "FFFFFFFFFFFFFFFFFFFFFFFFFFFFFFFF".to_string();
    cm.record_challenge(c.clone(), 0);
    cm.record_challenge(fresh.clone(), 50000);
    assert!(!cm.verify_challenge_at(&c, 60001));
    // The sweep drops the stale entry and keeps the fresh one.
    cm.cleanup_expired_at(60001);
    assert!(!cm.verify_challenge_at(&c, 60002));
    assert!(cm.verify_challenge_at(&fresh, 60002));
}

#[test]
fn unknown_challenge_cannot_be_consumed() {
    let mut cm = ChallengeManager::new();
    assert!(!cm.verify_challenge_at(&"GGGG".to_string(), 10));
}

#[test]
fn token_round_trip_within_ttl() {
    let secret = secret();
    let pk = "some_public_key".to_string();
    let user = "frank".to_string();
    let token = issue_jwt_at(&pk, &user, &secret, 1000).unwrap();

    // Inside the 24 h lifetime the claims come back exactly.
    let claims = validate_token(&token, &secret, 1000 + 86399).unwrap();
    assert_eq!(claims.sub, pk);
    assert_eq!(claims.username, user);
    assert_eq!(claims.exp, 1000 + 86400);

    // From the expiry on, the token is invalid.
    let err = validate_token(&token, &secret, 1000 + 86400).unwrap_err();
    assert_eq!(err, AuthError::InvalidToken);
}

#[test]
fn token_rejected_under_wrong_secret_or_shape() {
    let token = issue_jwt_at(
        &"pk".to_string(),
        &"grace".to_string(),
        &secret(),
        5000,
    )
    .unwrap();
    let other = AuthSecret("a-completely-different-secret".to_string());
    assert!(validate_token(&token, &other, 5001).is_err());
    assert!(validate_token("not-a-token", &secret(), 5001).is_err());
    assert!(validate_token("", &secret(), 5001).is_err());
}

#[test]
fn generated_challenges_are_recorded_and_distinct() {
    let mut cm = ChallengeManager::new();
    let a = cm.generate_challenge();
    let b = cm.generate_challenge();
    assert_eq!(a.chars().count(), 32);
    assert_eq!(b.chars().count(), 32);
    assert_ne!(a, b);
    // Both are consumable right away.
    assert!(cm.verify_challenge(&a));
    assert!(cm.verify_challenge(&b));
    assert!(!cm.verify_challenge(&a));
}
