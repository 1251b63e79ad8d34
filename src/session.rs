//! Sessions: the login form, the cookies that carry the tokens, and the guard
//! that every protected request passes.
//!
//! The access-token cookie is scoped to the whole site; the refresh-token
//! cookie only to the user-management paths. Both are http-only. Which name
//! and path each kind has is the business of the HTTP layer.
use vstd::prelude::*;
use vstd::string::StringSliceAdditionalSpecFns;
use crate::error::GatewayError;
use crate::token::{
    decode, decoded, issue_access, issue_refresh, access_claims, refresh_claims, token_of,
    lemma_decode_signed, IssuedToken, TokenKind, ACCESS_TOKEN_SECS, REFRESH_TOKEN_SECS,
};

verus! {

/// Shortest accepted user name, in bytes.
pub const MIN_USERNAME_LEN: usize = 2;

/// Shortest accepted password, in bytes.
pub const MIN_PASSWORD_LEN: usize = 6;

/// The user on whose behalf a request runs.
#[derive(Debug, Clone, Copy, PartialEq, Eq, Structural)]
pub struct AuthUser {
    pub user_id: u64,
    pub permission: u64,
}

/// A cookie to set on the client: the token cookie of `kind` with `value`,
/// living `max_age` seconds. A cookie with an empty value and no lifetime
/// removes the one the client has.
#[derive(Debug)]
pub struct SetCookie {
    pub kind: TokenKind,
    pub value: Vec<u8>,
    pub max_age: u64,
}

/// The token cookies that a client holds.
#[derive(Debug)]
pub struct CookieJar {
    pub access: Option<Vec<u8>>,
    pub refresh: Option<Vec<u8>>,
}

/// A login or refresh that succeeded: both tokens, and the cookies that carry them.
#[derive(Debug)]
pub struct Session {
    pub access: IssuedToken,
    pub refresh: IssuedToken,
}

pub open spec fn opt_view(v: Option<Vec<u8>>) -> Option<Seq<u8>> {
    match v {
        None => None,
        Some(x) => Some(x@),
    }
}

/// What a client holds after the server set a cookie with `value` and
/// lifetime `max_age`: nothing when the lifetime is zero.
pub open spec fn cookie_after(value: Seq<u8>, max_age: u64) -> Option<Seq<u8>> {
    if max_age == 0 {
        None
    } else {
        Some(value)
    }
}

impl CookieJar {
    /// A jar with neither cookie.
    pub fn new() -> (r: Self)
        ensures
            r.access is None,
            r.refresh is None,
    {
        CookieJar { access: None, refresh: None }
    }

    /// Applies a cookie that the server set: a cookie without lifetime
    /// removes the held one, any other replaces it.
    pub fn apply(&mut self, c: &SetCookie)
        ensures
            c.kind == TokenKind::Access ==> {
                &&& opt_view(final(self).access) == cookie_after(c.value@, c.max_age)
                &&& opt_view(final(self).refresh) == opt_view(old(self).refresh)
            },
            c.kind == TokenKind::Refresh ==> {
                &&& opt_view(final(self).refresh) == cookie_after(c.value@, c.max_age)
                &&& opt_view(final(self).access) == opt_view(old(self).access)
            },
    {
        let v = if c.max_age == 0 {
            None
        } else {
            Some(copy_bytes(&c.value))
        };
        match c.kind {
            TokenKind::Access => {
                self.access = v;
            },
            TokenKind::Refresh => {
                self.refresh = v;
            },
        }
    }
}

fn copy_bytes(v: &Vec<u8>) -> (r: Vec<u8>)
    ensures
        r@ == v@,
{
    let mut out: Vec<u8> = Vec::new();
    let mut i: usize = 0;
    while i < v.len()
        invariant
            i <= v@.len(),
            out@ == v@.subrange(0, i as int),
        decreases v@.len() - i,
    {
        out.push(v[i]);
        i = i + 1;
        assert(out@ =~= v@.subrange(0, i as int));
    }
    assert(v@.subrange(0, i as int) =~= v@);
    out
}

/// The outcome of the guard for an optional access-token cookie: every
/// failure of the token is answered alike, as `Unauthorized`.
pub open spec fn guard_of(cookie: Option<Seq<u8>>, secret: Seq<u8>, now: u64) -> Result<
    AuthUser,
    GatewayError,
> {
    match cookie {
        None => Err(GatewayError::Unauthorized),
        Some(t) => match decoded(t, secret, TokenKind::Access, now) {
            Err(_) => Err(GatewayError::Unauthorized),
            Ok(c) => match c.permission {
                Some(p) => Ok(AuthUser { user_id: c.user_id, permission: p }),
                None => Err(GatewayError::Unauthorized),
            },
        },
    }
}

/// The outcome of the refresh guard for an optional refresh-token cookie:
/// the user id it names.
pub open spec fn refresh_guard_of(cookie: Option<Seq<u8>>, secret: Seq<u8>, now: u64) -> Result<
    u64,
    GatewayError,
> {
    match cookie {
        None => Err(GatewayError::Unauthorized),
        Some(t) => match decoded(t, secret, TokenKind::Refresh, now) {
            Err(_) => Err(GatewayError::Unauthorized),
            Ok(c) => Ok(c.user_id),
        },
    }
}

pub open spec fn bytes_view(v: Option<&[u8]>) -> Option<Seq<u8>> {
    match v {
        None => None,
        Some(x) => Some(x@),
    }
}

/// The guard before every protected handler: the user that the access-token
/// cookie proves, or `Unauthorized`.
pub fn authenticate(cookie: Option<&[u8]>, secret: &[u8], now: u64) -> (r: Result<
    AuthUser,
    GatewayError,
>)
    ensures
        r == guard_of(bytes_view(cookie), secret@, now),
{
    match cookie {
        None => Err(GatewayError::Unauthorized),
        Some(t) => match decode(t, secret, TokenKind::Access, now) {
            Err(_) => Err(GatewayError::Unauthorized),
            Ok(c) => match c.permission {
                Some(p) => Ok(AuthUser { user_id: c.user_id, permission: p }),
                None => Err(GatewayError::Unauthorized),
            },
        },
    }
}

/// The guard of the token-refresh endpoint: the user id that the
/// refresh-token cookie names, or `Unauthorized`.
pub fn authenticate_refresh(cookie: Option<&[u8]>, secret: &[u8], now: u64) -> (r: Result<
    u64,
    GatewayError,
>)
    ensures
        r == refresh_guard_of(bytes_view(cookie), secret@, now),
{
    match cookie {
        None => Err(GatewayError::Unauthorized),
        Some(t) => match decode(t, secret, TokenKind::Refresh, now) {
            Err(_) => Err(GatewayError::Unauthorized),
            Ok(c) => Ok(c.user_id),
        },
    }
}

/// Checks the shape of login credentials before any lookup: a user name of
/// at least `MIN_USERNAME_LEN` bytes and a password of at least
/// `MIN_PASSWORD_LEN` bytes, else `BadRequest`.
pub fn check_login_form(username: &str, password: &str) -> (r: Result<(), GatewayError>)
    ensures
        r is Ok <==> (username.spec_bytes().len() >= 2 && password.spec_bytes().len() >= 6),
        r is Err ==> r == Err::<(), GatewayError>(GatewayError::BadRequest),
{
    let u = username.as_bytes();
    let p = password.as_bytes();
    if u.len() < MIN_USERNAME_LEN || p.len() < MIN_PASSWORD_LEN {
        Err(GatewayError::BadRequest)
    } else {
        Ok(())
    }
}

/// Opens a session for a user whose credentials were verified: a fresh
/// access token and a fresh refresh token, issued at `now`.
pub fn start_session(user_id: u64, permission: u64, secret: &[u8], now: u64) -> (r: Session)
    ensures
        r.access.claims == access_claims(user_id, permission, now),
        r.access.token@ == token_of(r.access.claims, secret@),
        r.refresh.claims == refresh_claims(user_id, now),
        r.refresh.token@ == token_of(r.refresh.claims, secret@),
{
    let access = issue_access(user_id, permission, secret, now);
    let refresh = issue_refresh(user_id, secret, now);
    Session { access, refresh }
}

/// Rotates the tokens of the user that a refresh token named: `BadRequest`
/// when that user no longer exists (`permission` is `None`), else a new
/// session with the permission level looked up afresh.
pub fn refresh_session(user_id: u64, permission: Option<u64>, secret: &[u8], now: u64) -> (r: Result<
    Session,
    GatewayError,
>)
    ensures
        permission is None ==> r == Err::<Session, GatewayError>(GatewayError::BadRequest),
        permission is Some ==> r is Ok && {
            let s = r->Ok_0;
            &&& s.access.claims == access_claims(user_id, permission->Some_0, now)
            &&& s.access.token@ == token_of(s.access.claims, secret@)
            &&& s.refresh.claims == refresh_claims(user_id, now)
            &&& s.refresh.token@ == token_of(s.refresh.claims, secret@)
        },
{
    match permission {
        None => Err(GatewayError::BadRequest),
        Some(p) => Ok(start_session(user_id, p, secret, now)),
    }
}

impl Session {
    /// The two cookies that hand the session to the client.
    pub fn cookies(&self) -> (r: (SetCookie, SetCookie))
        ensures
            r.0.kind == TokenKind::Access,
            r.0.value@ == self.access.token@,
            r.0.max_age == ACCESS_TOKEN_SECS,
            r.1.kind == TokenKind::Refresh,
            r.1.value@ == self.refresh.token@,
            r.1.max_age == REFRESH_TOKEN_SECS,
    {
        (
            SetCookie {
                kind: TokenKind::Access,
                value: copy_bytes(&self.access.token),
                max_age: ACCESS_TOKEN_SECS,
            },
            SetCookie {
                kind: TokenKind::Refresh,
                value: copy_bytes(&self.refresh.token),
                max_age: REFRESH_TOKEN_SECS,
            },
        )
    }

    /// The expiry of the access token, reported to the client.
    pub fn expire(&self) -> (r: u64)
        ensures
            r == self.access.claims.expires_at,
    {
        self.access.claims.expires_at
    }
}

/// The cookies that end a session: both tokens replaced by empty ones that
/// expire at once. Sign-out needs no valid session to succeed.
pub fn end_session() -> (r: (SetCookie, SetCookie))
    ensures
        r.0.kind == TokenKind::Access,
        r.0.value@.len() == 0,
        r.0.max_age == 0,
        r.1.kind == TokenKind::Refresh,
        r.1.value@.len() == 0,
        r.1.max_age == 0,
{
    (
        SetCookie { kind: TokenKind::Access, value: Vec::new(), max_age: 0 },
        SetCookie { kind: TokenKind::Refresh, value: Vec::new(), max_age: 0 },
    )
}

/// After a login whose credentials are verified, the access cookie that the
/// client holds passes the guard as that user until the token expires; after
/// a sign-out the guard refuses the next protected request with
/// `Unauthorized`, whatever the client held before.
pub proof fn lemma_session_guard(user_id: u64, permission: u64, secret: Seq<u8>, issued: u64, now: u64)
    ensures
        guard_of(
            cookie_after(token_of(access_claims(user_id, permission, issued), secret), ACCESS_TOKEN_SECS),
            secret,
            now,
        ) == (if now < access_claims(user_id, permission, issued).expires_at {
            Ok::<AuthUser, GatewayError>(AuthUser { user_id, permission })
        } else {
            Err::<AuthUser, GatewayError>(GatewayError::Unauthorized)
        }),
        guard_of(cookie_after(Seq::<u8>::empty(), 0), secret, now) == Err::<AuthUser, GatewayError>(
            GatewayError::Unauthorized,
        ),
{
    lemma_decode_signed(access_claims(user_id, permission, issued), secret, TokenKind::Access, now);
}

} // verus!
