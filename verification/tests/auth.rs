//! Tokens and who presents them.
use stream_server::auth::{
    authorized, bearer_token, token_matches, token_of, ServerAuth, UNAUTHORIZED_BODY,
};

#[test]
fn generated_tokens_are_32_random_bytes_as_hex() {
    let a = ServerAuth::Generated.resolve().unwrap();
    let b = ServerAuth::Generated.resolve().unwrap();
    assert_eq!(a.len(), 64);
    assert!(a.bytes().all(|c| c.is_ascii_hexdigit()));
    assert_ne!(a, b, "two launches must not share a token");
}

#[test]
fn bearer_token_parses_the_scheme_case_insensitively() {
    assert_eq!(bearer_token(Some("Bearer abc")).as_deref(), Some("abc"));
    assert_eq!(bearer_token(Some("bearer  abc ")).as_deref(), Some("abc"));
}

#[test]
fn bearer_token_rejects_other_schemes_missing_headers_and_empty_tokens() {
    assert_eq!(bearer_token(Some("Basic abc")), None);
    assert_eq!(bearer_token(Some("Bearer ")), None);
    assert_eq!(bearer_token(Some("abc")), None);
    assert_eq!(bearer_token(None), None);
}

#[test]
fn token_matches_requires_exact_equality() {
    assert!(token_matches("abc", "abc"));
    assert!(!token_matches("abc", "abd"));
    assert!(!token_matches("abc", "abcd"));
    assert!(!token_matches("abc", ""));
}

#[test]
fn a_token_is_its_bytes_in_lower_case_hexadecimal() {
    let mut bytes = [0u8; 32];
    bytes[0] = 0xab;
    bytes[31] = 0x0f;
    let token = token_of(&bytes);
    assert_eq!(token.len(), 64);
    assert!(token.starts_with("ab00"));
    assert!(token.ends_with("000f"));
    assert_eq!(token, hex::encode(bytes));
}

#[test]
fn only_the_expected_token_is_authorized() {
    assert!(authorized(Some("abc"), Some("Bearer abc")));
    assert!(!authorized(Some("abc"), Some("Bearer abd")));
    assert!(!authorized(Some("abc"), None));
    assert!(!authorized(None, Some("Bearer abc")));
    assert_eq!(UNAUTHORIZED_BODY, "unauthorized");
    assert_eq!(ServerAuth::default(), ServerAuth::Generated);
}
