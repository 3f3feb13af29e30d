use std::time::SystemTime;
use std::time::UNIX_EPOCH;

use red_carpet::errors::StoreError;
use red_carpet::password_utils::generate_handle;
use red_carpet::password_utils::generate_random_password;
use red_carpet::password_utils::generate_session_token;
use red_carpet::password_utils::hash_password;
use red_carpet::password_utils::make_session_token;
use red_carpet::password_utils::validate_token_at;
use red_carpet::password_utils::validate_token_expiration;
use red_carpet::password_utils::verify_hashed_password;
use red_carpet::password_utils::LOWER_CASE;
use red_carpet::password_utils::NUMBERS;
use red_carpet::password_utils::SPECIAL_CHARACTER;
use red_carpet::password_utils::UPPER_CASE;

#[test]
fn test_generate_handle() {
    let handle = generate_handle("John".to_string(), "Doe".to_string()).unwrap();
    assert_eq!(handle, "jdoe");
}

#[test]
fn test_generate_random_password() {
    let password = generate_random_password();
    assert_eq!(password.len(), 9);
}

#[test]
fn test_hash_password() {
    let password = "password123".to_string();
    let hashed_password = hash_password(password.clone()).unwrap();
    assert!(hashed_password.starts_with("$pbkdf2-sha256$"));
}

#[test]
fn test_verify_hashed_password() {
    let password = "password123".to_string();
    let hashed_password = hash_password(password.clone()).unwrap();
    let is_valid = verify_hashed_password(password, hashed_password);
    assert!(is_valid);
}

#[test]
fn test_generate_session_token() {
    let token = generate_session_token("user123".to_string()).unwrap();
    let parts: Vec<&str> = token.split(':').collect();
    assert_eq!(parts.len(), 3);
    assert_eq!(parts[0], "user123");
}

#[test]
fn test_validate_token_expiration() {
    let token = generate_session_token("user123".to_string()).unwrap();
    let is_valid = validate_token_expiration(token).unwrap();
    assert!(is_valid);
}

#[test]
fn test_expired_token() {
    let timestamp = SystemTime::now().duration_since(UNIX_EPOCH).unwrap().as_secs() - 3601;
    let token = format!("user123:{}:randomstring", timestamp);
    let is_valid = validate_token_expiration(token).unwrap();
    assert!(!is_valid);
}

#[test]
fn generated_password_follows_position_rule() {
    let begin: String = [LOWER_CASE, SPECIAL_CHARACTER, NUMBERS].concat();
    let middle: String = [LOWER_CASE, UPPER_CASE, NUMBERS, SPECIAL_CHARACTER].concat();
    let end: String = [LOWER_CASE, UPPER_CASE, NUMBERS].concat();
    for _ in 0..20 {
        let password = generate_random_password();
        let chars: Vec<char> = password.chars().collect();
        assert_eq!(chars.len(), 9);
        assert!(begin.contains(chars[0]));
        for k in 1..=7 {
            assert!(middle.contains(chars[k]));
        }
        assert!(end.contains(chars[8]));
    }
}

#[test]
fn verify_rejects_wrong_password() {
    let hashed = hash_password("correct horse".to_string()).unwrap();
    assert!(!verify_hashed_password("battery staple".to_string(), hashed));
}

#[test]
fn verify_rejects_garbage_digest() {
    assert!(!verify_hashed_password("anything".to_string(), "not a digest".to_string()));
}

#[test]
fn handle_rejects_empty_first_name() {
    let r = generate_handle("".to_string(), "Doe".to_string());
    assert_eq!(r, Err(StoreError::InvalidInput));
}

#[test]
fn handle_lowercases_both_names() {
    let handle = generate_handle("ALICE".to_string(), "McQueen".to_string()).unwrap();
    assert_eq!(handle, "amcqueen");
}

#[test]
fn token_is_fresh_at_its_own_timestamp() {
    let token = make_session_token(&"admin".to_string(), 1000000, &"sfx".to_string()).unwrap();
    assert_eq!(token, "admin:1000000:sfx");
    assert_eq!(validate_token_at(&token, 1000000), Ok(true));
    assert_eq!(validate_token_at(&token, 1003599), Ok(true));
    assert_eq!(validate_token_at(&token, 1003600), Ok(false));
    assert_eq!(validate_token_at(&token, 1003601), Ok(false));
}

#[test]
fn token_with_colon_in_id_is_rejected() {
    let r = make_session_token(&"a:b".to_string(), 5, &"sfx".to_string());
    assert_eq!(r, Err(StoreError::InvalidInput));
    let r2 = generate_session_token("a:b".to_string());
    assert_eq!(r2, Err(StoreError::InvalidInput));
}

#[test]
fn malformed_token_is_invalid() {
    assert_eq!(validate_token_at("no colons here", 10), Err(StoreError::InvalidToken));
    assert_eq!(validate_token_at("user::suffix", 10), Err(StoreError::InvalidToken));
    assert_eq!(validate_token_at("user:12a34:suffix", 10), Err(StoreError::InvalidToken));
    assert_eq!(
        validate_token_expiration("no colons here".to_string()),
        Err(StoreError::InvalidToken)
    );
}

#[test]
fn token_suffix_is_thirty_alphanumerics() {
    let token = generate_session_token("user123".to_string()).unwrap();
    let parts: Vec<&str> = token.split(':').collect();
    assert_eq!(parts[2].len(), 30);
    assert!(parts[2].chars().all(|c| c.is_ascii_alphanumeric()));
}
