use hmac::{Hmac, Mac};
use media_gateway::token::{
    claims_text, decode, issue_access, issue_refresh, judge, seal, AuthError, Claims, TokenKind,
    ACCESS_TOKEN_SECS, REFRESH_TOKEN_SECS,
};
use sha2::Sha256;

fn hmac_hex(key: &[u8], msg: &[u8]) -> String {
    let mut m = Hmac::<Sha256>::new_from_slice(key).unwrap();
    m.update(msg);
    m.finalize().into_bytes().iter().map(|b| format!("{:02x}", b)).collect()
}

const SECRET: &[u8] = b"a site secret of some length";

#[test]
fn access_token_round_trip_before_expiry() {
    let t = issue_access(42, 3, SECRET, 1_000_000);
    let c = decode(&t.token, SECRET, TokenKind::Access, 1_000_000).unwrap();
    assert_eq!(c, t.claims);
    assert_eq!(
        c,
        Claims {
            kind: TokenKind::Access,
            user_id: 42,
            permission: Some(3),
            issued_at: 1_000_000,
            expires_at: 1_000_000 + ACCESS_TOKEN_SECS,
        }
    );
    let last = 1_000_000 + ACCESS_TOKEN_SECS - 1;
    assert_eq!(decode(&t.token, SECRET, TokenKind::Access, last), Ok(c));
}

#[test]
fn access_token_expires_after_ttl() {
    let t = issue_access(42, 3, SECRET, 1_000_000);
    let at = 1_000_000 + ACCESS_TOKEN_SECS;
    assert_eq!(decode(&t.token, SECRET, TokenKind::Access, at), Err(AuthError::Expired));
    assert_eq!(decode(&t.token, SECRET, TokenKind::Access, at + 86400), Err(AuthError::Expired));
}

#[test]
fn access_ttl_is_minutes_and_refresh_ttl_days() {
    assert_eq!(ACCESS_TOKEN_SECS, 30 * 60);
    assert_eq!(REFRESH_TOKEN_SECS, 7 * 86400);
}

#[test]
fn refresh_token_carries_only_user() {
    let t = issue_refresh(7, SECRET, 50);
    let c = decode(&t.token, SECRET, TokenKind::Refresh, 60).unwrap();
    assert_eq!(c.user_id, 7);
    assert_eq!(c.permission, None);
    assert_eq!(c.expires_at, 50 + REFRESH_TOKEN_SECS);
}

#[test]
fn refresh_token_in_access_slot_is_wrong_kind() {
    let t = issue_refresh(7, SECRET, 50);
    assert_eq!(decode(&t.token, SECRET, TokenKind::Access, 60), Err(AuthError::WrongKind));
}

#[test]
fn access_token_in_refresh_slot_is_wrong_kind() {
    let t = issue_access(7, 1, SECRET, 50);
    assert_eq!(decode(&t.token, SECRET, TokenKind::Refresh, 60), Err(AuthError::WrongKind));
}

#[test]
fn other_secret_fails_signature() {
    let t = issue_access(7, 1, SECRET, 50);
    assert_eq!(
        decode(&t.token, b"another secret", TokenKind::Access, 60),
        Err(AuthError::InvalidSignature)
    );
}

#[test]
fn tampered_token_fails_signature() {
    let t = issue_access(7, 1, SECRET, 50);
    let text = String::from_utf8(t.token.clone()).unwrap();
    assert!(text.starts_with("a.7.1.50."));
    let forged = text.replacen("a.7.1.", "a.7.9.", 1);
    assert_eq!(
        decode(forged.as_bytes(), SECRET, TokenKind::Access, 60),
        Err(AuthError::InvalidSignature)
    );
    let forged_exp = text.replacen(&format!(".{}.", 50 + ACCESS_TOKEN_SECS), ".99999999.", 1);
    assert_eq!(
        decode(forged_exp.as_bytes(), SECRET, TokenKind::Access, 60),
        Err(AuthError::InvalidSignature)
    );
}

#[test]
fn malformed_tokens_fail_signature() {
    for t in [&b""[..], b"a", b"a.", b"x.1.2.3.4.", b"a.1.2.3.", b"a.1..3.4.ff", b"r.1.2"] {
        assert_eq!(decode(t, SECRET, TokenKind::Access, 0), Err(AuthError::InvalidSignature));
    }
}

#[test]
fn token_text_holds_hex_tag() {
    let t = issue_access(1, 2, SECRET, 3);
    let text = String::from_utf8(t.token.clone()).unwrap();
    let signed = format!("a.1.2.3.{}.", 3 + ACCESS_TOKEN_SECS);
    assert!(text.starts_with(&signed));
    let tag = &text[signed.len()..];
    assert_eq!(tag.len(), 64);
    assert!(tag.bytes().all(|b| b.is_ascii_digit() || (b'a'..=b'f').contains(&b)));
    let other = issue_access(1, 2, b"different", 3);
    assert_ne!(other.token, t.token);
}

#[test]
fn expiry_saturates_at_largest_time() {
    let t = issue_access(1, 2, SECRET, u64::MAX - 5);
    assert_eq!(t.claims.expires_at, u64::MAX);
    assert_eq!(
        decode(&t.token, SECRET, TokenKind::Access, u64::MAX - 1).unwrap(),
        t.claims
    );
}

#[test]
fn token_tag_is_hmac_sha256_of_signed_text() {
    let t = issue_access(9, 1, SECRET, 100);
    let text = claims_text(&t.claims);
    assert_eq!(text, format!("a.9.1.100.{}.", 100 + ACCESS_TOKEN_SECS).into_bytes());
    let expected = format!("{}{}", String::from_utf8(text.clone()).unwrap(), hmac_hex(SECRET, &text));
    assert_eq!(String::from_utf8(t.token).unwrap(), expected);
}

#[test]
fn refresh_claims_text_has_no_permission() {
    let t = issue_refresh(3, SECRET, 10);
    assert_eq!(claims_text(&t.claims), format!("r.3.10.{}.", 10 + REFRESH_TOKEN_SECS).into_bytes());
}

#[test]
fn seal_appends_lowercase_hex() {
    assert_eq!(seal(b"r.1.2.3.".to_vec(), &[0x00, 0xab, 0xff, 0x10]), b"r.1.2.3.00abff10".to_vec());
    assert_eq!(seal(Vec::new(), &[]), Vec::<u8>::new());
}

#[test]
fn judge_with_given_tag() {
    let tag = [0x12u8, 0x34, 0xcd];
    let t = b"a.5.6.7.8.1234cd";
    let c = Claims { kind: TokenKind::Access, user_id: 5, permission: Some(6), issued_at: 7, expires_at: 8 };
    assert_eq!(judge(t, &tag, TokenKind::Access, 7), Ok(c));
    assert_eq!(judge(t, &tag, TokenKind::Access, 8), Err(AuthError::Expired));
    assert_eq!(judge(t, &tag, TokenKind::Refresh, 7), Err(AuthError::WrongKind));
    assert_eq!(judge(t, &[0x12, 0x34, 0xce], TokenKind::Access, 7), Err(AuthError::InvalidSignature));
    assert_eq!(judge(b"a.5.6.7.8.1234CD", &tag, TokenKind::Access, 7), Err(AuthError::InvalidSignature));
    assert_eq!(judge(b"a.5.6.99999999999999999999.8.1234cd", &tag, TokenKind::Access, 7), Err(AuthError::InvalidSignature));
}
