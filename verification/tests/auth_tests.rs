use vecstore::auth::{to_lower_hex, SecureToken, Timestamp, TOKEN_LIFETIME_SECS};

#[test]
fn lifetime_is_one_hour() {
    assert_eq!(TOKEN_LIFETIME_SECS, 3600);
}

#[test]
fn lower_hex_exact_values() {
    assert_eq!(to_lower_hex(&vec![]), "");
    assert_eq!(to_lower_hex(&vec![0x00]), "00");
    assert_eq!(to_lower_hex(&vec![0x0a, 0x14, 0x1e]), "0a141e");
    assert_eq!(to_lower_hex(&vec![0x01, 0x23, 0x45, 0x67, 0x89, 0xab, 0xcd, 0xef]), "0123456789abcdef");
    assert_eq!(to_lower_hex(&vec![0xff, 0xf0, 0x0f]), "fff00f");
}

#[test]
fn token_keeps_the_digest_of_the_secret() {
    let now = Timestamp { secs: 1_700_000_000, nanos: 0 };
    let token = SecureToken::issued_at("abc", "repo", now);
    assert_eq!(token.hash, "ba7816bf8f01cfea414140de5dae2223b00361a396177a9cb410ff61f20015ad");
    let empty = SecureToken::issued_at("", "repo", now);
    assert_eq!(empty.hash, "e3b0c44298fc1c149afbf4c8996fb92427ae41e4649b934ca495991b7852b855");
    assert_ne!(token.hash, "abc");
}

#[test]
fn token_expires_an_hour_after_issue() {
    let now = Timestamp { secs: 1_700_000_000, nanos: 123_456_789 };
    let token = SecureToken::issued_at("secret", "org/project", now);
    assert_eq!(token.expires, Timestamp { secs: 1_700_003_600, nanos: 123_456_789 });
    assert_eq!(token.repo, "org/project");
    assert_eq!(token.hash.len(), 64);
    let early = SecureToken::issued_at("secret", "r", Timestamp { secs: -3600, nanos: 0 });
    assert_eq!(early.expires.secs, 0);
}

#[test]
fn token_is_the_same_for_the_same_input() {
    let now = Timestamp { secs: 42, nanos: 7 };
    assert_eq!(SecureToken::issued_at("s", "r", now), SecureToken::issued_at("s", "r", now));
}

#[test]
fn new_token_expires_in_the_future() {
    let token = SecureToken::new("abc", "repo");
    assert_eq!(token.hash, "ba7816bf8f01cfea414140de5dae2223b00361a396177a9cb410ff61f20015ad");
    assert_eq!(token.repo, "repo");
    assert!(token.expires.secs > 1_600_000_000 + TOKEN_LIFETIME_SECS);
    assert!(token.expires.secs < 0x1_0000_0000_0000);
    assert!(token.expires.nanos < 2_000_000_000);
    let later = SecureToken::new("abc", "repo");
    assert!(later.expires.secs >= token.expires.secs);
}
