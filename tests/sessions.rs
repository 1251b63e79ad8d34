use media_gateway::error::GatewayError;
use media_gateway::session::{
    authenticate, authenticate_refresh, check_login_form, end_session, refresh_session,
    start_session, AuthUser, CookieJar,
};
use media_gateway::token::{TokenKind, ACCESS_TOKEN_SECS, REFRESH_TOKEN_SECS};

const SECRET: &[u8] = b"0123456789abcdef";

#[test]
fn short_username_is_bad_request() {
    assert_eq!(check_login_form("a", "secret-pw"), Err(GatewayError::BadRequest));
    assert_eq!(check_login_form("a", "secret-pw").unwrap_err().status(), 400);
}

#[test]
fn short_password_is_bad_request() {
    assert_eq!(check_login_form("alice", "12345"), Err(GatewayError::BadRequest));
}

#[test]
fn minimum_lengths_are_accepted() {
    assert_eq!(check_login_form("ab", "123456"), Ok(()));
}

#[test]
fn login_sets_both_cookies_and_passes_guard() {
    let s = start_session(5, 2, SECRET, 1000);
    let (access, refresh) = s.cookies();
    assert_eq!(access.kind, TokenKind::Access);
    assert_eq!(access.max_age, ACCESS_TOKEN_SECS);
    assert_eq!(refresh.kind, TokenKind::Refresh);
    assert_eq!(refresh.max_age, REFRESH_TOKEN_SECS);
    assert_eq!(s.expire(), 1000 + ACCESS_TOKEN_SECS);
    let mut jar = CookieJar::new();
    jar.apply(&access);
    jar.apply(&refresh);
    assert!(jar.access.is_some() && jar.refresh.is_some());
    assert_eq!(
        authenticate(jar.access.as_deref(), SECRET, 1001),
        Ok(AuthUser { user_id: 5, permission: 2 })
    );
    assert_eq!(authenticate_refresh(jar.refresh.as_deref(), SECRET, 1001), Ok(5));
}

#[test]
fn signout_then_protected_request_is_unauthorized() {
    let s = start_session(5, 2, SECRET, 1000);
    let (access, refresh) = s.cookies();
    let mut jar = CookieJar::new();
    jar.apply(&access);
    jar.apply(&refresh);
    let (a, r) = end_session();
    jar.apply(&a);
    jar.apply(&r);
    assert!(jar.access.is_none() && jar.refresh.is_none());
    let e = authenticate(jar.access.as_deref(), SECRET, 1001).unwrap_err();
    assert_eq!(e, GatewayError::Unauthorized);
    assert_eq!(e.status(), 401);
}

#[test]
fn guard_collapses_token_failures() {
    let s = start_session(5, 2, SECRET, 1000);
    let expired = 1000 + ACCESS_TOKEN_SECS;
    assert_eq!(authenticate(Some(&s.access.token), SECRET, expired), Err(GatewayError::Unauthorized));
    assert_eq!(authenticate(Some(&s.refresh.token), SECRET, 1001), Err(GatewayError::Unauthorized));
    assert_eq!(authenticate(Some(b"garbage"), SECRET, 1001), Err(GatewayError::Unauthorized));
    assert_eq!(authenticate(None, SECRET, 1001), Err(GatewayError::Unauthorized));
    assert_eq!(
        authenticate_refresh(Some(&s.access.token), SECRET, 1001),
        Err(GatewayError::Unauthorized)
    );
}

#[test]
fn refresh_of_missing_user_is_bad_request() {
    assert!(matches!(refresh_session(9, None, SECRET, 0), Err(GatewayError::BadRequest)));
    let s = refresh_session(9, Some(4), SECRET, 10).unwrap();
    assert_eq!(authenticate(Some(&s.access.token), SECRET, 11), Ok(AuthUser { user_id: 9, permission: 4 }));
}

#[test]
fn error_status_codes() {
    assert_eq!(GatewayError::BadRequest.status(), 400);
    assert_eq!(GatewayError::Unauthorized.status(), 401);
    assert_eq!(GatewayError::NotFound.status(), 404);
    assert_eq!(GatewayError::RangeUnsatisfiable.status(), 416);
    assert_eq!(GatewayError::Internal.status(), 500);
}
