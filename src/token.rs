//! Signed, expiring session tokens.
//!
//! A token is ASCII text: a kind letter (`a` for access, `r` for refresh),
//! and a dot, then decimal fields, each ended by a dot (user id; for an access
//! token the permission level; issue time; expiry): that is the signed text.
//! The lowercase hex HMAC-SHA256 tag of the signed text under the site secret
//! follows. Times are seconds since the Unix epoch.
use vstd::prelude::*;
use vstd::slice::slice_subrange;
use hmac::Mac;
use crate::decimal::{
    digits_value, run_end, decimal, lemma_decimal, lemma_run_end,
    scan_digits, read_digits, push_decimal,
};

verus! {

/// Lifetime of an access token, in minutes.
pub const ACCESS_TOKEN_MINS: u64 = 30;

/// Lifetime of a refresh token, in days.
pub const REFRESH_TOKEN_DAYS: u64 = 7;

pub const ACCESS_TOKEN_SECS: u64 = ACCESS_TOKEN_MINS * 60;

pub const REFRESH_TOKEN_SECS: u64 = REFRESH_TOKEN_DAYS * 86400;

#[derive(Debug, Clone, Copy, PartialEq, Eq, Structural)]
pub enum TokenKind {
    Access,
    Refresh,
}

/// What a token states. Only an access token carries a permission level: for
/// a refresh one it is derived anew when the token is used.
#[derive(Debug, Clone, Copy, PartialEq, Eq)]
pub struct Claims {
    pub kind: TokenKind,
    pub user_id: u64,
    pub permission: Option<u64>,
    pub issued_at: u64,
    pub expires_at: u64,
}

/// Why a token was refused.
#[derive(Debug, Clone, Copy, PartialEq, Eq, Structural)]
pub enum AuthError {
    /// Malformed, or its tag does not match the secret.
    InvalidSignature,
    Expired,
    /// An access token where a refresh token is expected, or the other way round.
    WrongKind,
}

/// A freshly issued token and what it states.
#[derive(Debug)]
pub struct IssuedToken {
    pub token: Vec<u8>,
    pub claims: Claims,
}

impl Claims {
    pub open spec fn wf(&self) -> bool {
        (self.kind == TokenKind::Access) == (self.permission is Some)
    }
}

/// The HMAC-SHA256 tag of `msg` under `key`.
pub uninterp spec fn mac_of(key: Seq<u8>, msg: Seq<u8>) -> Seq<u8>;

/// Relies on hmac's `Hmac<Sha256>` (with sha2's `Sha256`): `new_from_slice`,
/// `update`, `finalize` give the HMAC-SHA256 tag of `msg` under `key`, which
/// depends on the two alone. `new_from_slice` accepts keys of every length.
#[verifier::external_body]
fn hmac_sha256(key: &[u8], msg: &[u8]) -> (r: Vec<u8>)
    ensures
        r@ == mac_of(key@, msg@),
{
    let mut m = hmac::Hmac::<sha2::Sha256>::new_from_slice(key).expect("HMAC takes keys of any length");
    m.update(msg);
    m.finalize().into_bytes().to_vec()
}

/// Lowercase hex digit of a value below 16.
pub open spec fn hex_digit(v: u8) -> u8 {
    if v < 10 {
        (48 + v) as u8
    } else {
        (87 + v) as u8
    }
}

/// Lowercase hex rendering, two digits per byte.
pub open spec fn hex_of(b: Seq<u8>) -> Seq<u8>
    decreases b.len(),
{
    if b.len() == 0 {
        Seq::<u8>::empty()
    } else {
        hex_of(b.drop_last()) + seq![hex_digit(b.last() / 16), hex_digit(b.last() % 16)]
    }
}

pub open spec fn kind_letter(k: TokenKind) -> u8 {
    match k {
        TokenKind::Access => 97u8,
        TokenKind::Refresh => 114u8,
    }
}

/// Decimal renderings of `vs`, each followed by a dot.
pub open spec fn dotted(vs: Seq<nat>) -> Seq<u8>
    decreases vs.len(),
{
    if vs.len() == 0 {
        Seq::<u8>::empty()
    } else {
        dotted(vs.drop_last()) + decimal(vs.last()) + seq![46u8]
    }
}

/// The numbers that a token carries, in order.
pub open spec fn field_values(c: Claims) -> Seq<nat> {
    match c.permission {
        Some(p) => seq![c.user_id as nat, p as nat, c.issued_at as nat, c.expires_at as nat],
        None => seq![c.user_id as nat, c.issued_at as nat, c.expires_at as nat],
    }
}

/// The signed text of a token: the kind letter, a dot and the dot-ended fields.
pub open spec fn signed_text(c: Claims) -> Seq<u8> {
    seq![kind_letter(c.kind), 46u8] + dotted(field_values(c))
}

/// The full text of the token for `c` signed with `secret`.
pub open spec fn token_of(c: Claims, secret: Seq<u8>) -> Seq<u8> {
    signed_text(c) + hex_of(mac_of(secret, signed_text(c)))
}

/// A dot-ended decimal field at `i`: its value and the index after the dot.
pub open spec fn field_at(t: Seq<u8>, i: int) -> Option<(nat, int)> {
    let e = run_end(t, i);
    if 0 <= i < e < t.len() && t[e] == 46 {
        Some((digits_value(t.subrange(i, e)), e + 1))
    } else {
        None
    }
}

/// `n` dot-ended decimal fields from `i` on: their values and the index after them.
pub open spec fn fields(t: Seq<u8>, i: int, n: nat) -> Option<(Seq<nat>, int)>
    decreases n,
{
    if n == 0 {
        Some((Seq::<nat>::empty(), i))
    } else {
        match field_at(t, i) {
            None => None,
            Some((v, j)) => match fields(t, j, (n - 1) as nat) {
                None => None,
                Some((vs, k)) => Some((seq![v] + vs, k)),
            },
        }
    }
}

/// There are `n` dot-ended decimal fields from `i` on, and each fits in 64 bits.
pub open spec fn fields_fit(t: Seq<u8>, i: int, n: nat) -> bool {
    match fields(t, i, n) {
        None => false,
        Some((vs, k)) => all_fit(vs),
    }
}

pub open spec fn all_fit(vs: Seq<nat>) -> bool {
    forall|j: int| 0 <= j < vs.len() ==> #[trigger] vs[j] <= u64::MAX
}

pub open spec fn field_count(k: TokenKind) -> nat {
    match k {
        TokenKind::Access => 4,
        TokenKind::Refresh => 3,
    }
}

/// What the fields of a token text state, and where its tag starts.
pub open spec fn parse_token(t: Seq<u8>) -> Option<(Claims, int)> {
    if t.len() < 2 || t[1] != 46 || (t[0] != 97 && t[0] != 114) {
        None
    } else {
        let kind = if t[0] == 97 {
            TokenKind::Access
        } else {
            TokenKind::Refresh
        };
        match fields(t, 2, field_count(kind)) {
            None => None,
            Some((vs, k)) => if !fields_fit(t, 2, field_count(kind)) {
                None
            } else if kind == TokenKind::Access {
                Some(
                    (
                        Claims {
                            kind,
                            user_id: vs[0] as u64,
                            permission: Some(vs[1] as u64),
                            issued_at: vs[2] as u64,
                            expires_at: vs[3] as u64,
                        },
                        k,
                    ),
                )
            } else {
                Some(
                    (
                        Claims {
                            kind,
                            user_id: vs[0] as u64,
                            permission: None,
                            issued_at: vs[1] as u64,
                            expires_at: vs[2] as u64,
                        },
                        k,
                    ),
                )
            },
        }
    }
}

/// The outcome of checking token text `t`, whose signed text has the HMAC
/// tag `tag`, presented where a token of kind `expected` is required, at time
/// `now`: a malformed token or one whose tag does not match fails first, then
/// one of the other kind, then an expired one.
pub open spec fn verdict(t: Seq<u8>, tag: Seq<u8>, expected: TokenKind, now: u64) -> Result<
    Claims,
    AuthError,
> {
    match parse_token(t) {
        None => Err(AuthError::InvalidSignature),
        Some((c, k)) => if t.subrange(k, t.len() as int) != hex_of(tag) {
            Err(AuthError::InvalidSignature)
        } else if c.kind != expected {
            Err(AuthError::WrongKind)
        } else if now >= c.expires_at {
            Err(AuthError::Expired)
        } else {
            Ok(c)
        },
    }
}

/// The outcome of checking token text `t` under `secret`.
pub open spec fn decoded(t: Seq<u8>, secret: Seq<u8>, expected: TokenKind, now: u64) -> Result<
    Claims,
    AuthError,
> {
    match parse_token(t) {
        None => Err(AuthError::InvalidSignature),
        Some((c, k)) => verdict(t, mac_of(secret, t.subrange(0, k)), expected, now),
    }
}

/// The claims of an access token issued at `now`.
pub open spec fn access_claims(user_id: u64, permission: u64, now: u64) -> Claims {
    Claims {
        kind: TokenKind::Access,
        user_id,
        permission: Some(permission),
        issued_at: now,
        expires_at: now.saturating_add(ACCESS_TOKEN_SECS),
    }
}

/// The claims of a refresh token issued at `now`.
pub open spec fn refresh_claims(user_id: u64, now: u64) -> Claims {
    Claims {
        kind: TokenKind::Refresh,
        user_id,
        permission: None,
        issued_at: now,
        expires_at: now.saturating_add(REFRESH_TOKEN_SECS),
    }
}

fn hex_digit_byte(v: u8) -> (r: u8)
    requires
        v < 16,
    ensures
        r == hex_digit(v),
{
    if v < 10 {
        48 + v
    } else {
        87 + v
    }
}

/// Appends the lowercase hex rendering of `b` to `out`.
fn push_hex(b: &[u8], out: &mut Vec<u8>)
    ensures
        final(out)@ == old(out)@ + hex_of(b@),
{
    let ghost start = out@;
    let mut i: usize = 0;
    while i < b.len()
        invariant
            i <= b@.len(),
            out@ == start + hex_of(b@.subrange(0, i as int)),
        decreases b@.len() - i,
    {
        let x = b[i];
        out.push(hex_digit_byte(x / 16));
        out.push(hex_digit_byte(x % 16));
        proof {
            let s = b@.subrange(0, i + 1);
            assert(s.drop_last() =~= b@.subrange(0, i as int));
            assert(s.last() == x);
        }
        i = i + 1;
        assert(out@ =~= start + hex_of(b@.subrange(0, i as int)));
    }
    assert(b@.subrange(0, b@.len() as int) =~= b@);
}

/// The signed text of a token stating `c`.
pub fn claims_text(c: &Claims) -> (r: Vec<u8>)
    ensures
        r@ == signed_text(*c),
{
    let mut vals: Vec<u64> = Vec::new();
    vals.push(c.user_id);
    match c.permission {
        Some(p) => vals.push(p),
        None => {},
    }
    vals.push(c.issued_at);
    vals.push(c.expires_at);
    assert(nats(vals@) =~= field_values(*c));
    let mut out: Vec<u8> = Vec::new();
    match c.kind {
        TokenKind::Access => out.push(97),
        TokenKind::Refresh => out.push(114),
    }
    out.push(46);
    let ghost head = out@;
    let mut i: usize = 0;
    while i < vals.len()
        invariant
            i <= vals@.len(),
            out@ == head + dotted(nats(vals@).subrange(0, i as int)),
        decreases vals@.len() - i,
    {
        push_decimal(vals[i], &mut out);
        out.push(46);
        proof {
            let s = nats(vals@).subrange(0, i + 1);
            assert(s.drop_last() =~= nats(vals@).subrange(0, i as int));
            assert(s.last() == vals@[i as int] as nat);
        }
        i = i + 1;
        assert(out@ =~= head + dotted(nats(vals@).subrange(0, i as int)));
    }
    assert(nats(vals@).subrange(0, i as int) =~= nats(vals@));
    assert(out@ =~= signed_text(*c));
    out
}

/// Completes signed text with the hex rendering of its tag.
pub fn seal(text: Vec<u8>, tag: &[u8]) -> (r: Vec<u8>)
    ensures
        r@ == text@ + hex_of(tag@),
{
    let mut out = text;
    push_hex(tag, &mut out);
    out
}

/// Signs claims: the token text for `c` under `secret`.
fn sign(c: &Claims, secret: &[u8]) -> (r: Vec<u8>)
    ensures
        r@ == token_of(*c, secret@),
{
    let text = claims_text(c);
    let tag = hmac_sha256(secret, text.as_slice());
    seal(text, tag.as_slice())
}

/// Issues an access token for a user, valid from `now` for
/// `ACCESS_TOKEN_SECS` seconds (the expiry saturates at the largest time).
pub fn issue_access(user_id: u64, permission: u64, secret: &[u8], now: u64) -> (r: IssuedToken)
    ensures
        r.claims == access_claims(user_id, permission, now),
        r.token@ == token_of(r.claims, secret@),
{
    let claims = Claims {
        kind: TokenKind::Access,
        user_id,
        permission: Some(permission),
        issued_at: now,
        expires_at: now.saturating_add(ACCESS_TOKEN_SECS),
    };
    let token = sign(&claims, secret);
    IssuedToken { token, claims }
}

/// Issues a refresh token for a user, valid from `now` for
/// `REFRESH_TOKEN_SECS` seconds (the expiry saturates at the largest time).
pub fn issue_refresh(user_id: u64, secret: &[u8], now: u64) -> (r: IssuedToken)
    ensures
        r.claims == refresh_claims(user_id, now),
        r.token@ == token_of(r.claims, secret@),
{
    let claims = Claims {
        kind: TokenKind::Refresh,
        user_id,
        permission: None,
        issued_at: now,
        expires_at: now.saturating_add(REFRESH_TOKEN_SECS),
    };
    let token = sign(&claims, secret);
    IssuedToken { token, claims }
}

proof fn lemma_fields_len(t: Seq<u8>, i: int, n: nat)
    ensures
        match fields(t, i, n) {
            None => true,
            Some((vs, k)) => vs.len() == n,
        },
    decreases n,
{
    if n > 0 {
        if let Some((v, j)) = field_at(t, i) {
            lemma_fields_len(t, j, (n - 1) as nat);
        }
    }
}

pub open spec fn nats(v: Seq<u64>) -> Seq<nat> {
    v.map_values(|x: u64| x as nat)
}

/// Reads the dot-ended decimal field at `i`; `None` when there is none or
/// its value does not fit in 64 bits.
fn read_field(t: &[u8], i: usize) -> (r: Option<(u64, usize)>)
    requires
        i <= t@.len(),
    ensures
        match r {
            Some((v, j)) => field_at(t@, i as int) == Some((v as nat, j as int)) && i < j <= t@.len(),
            None => match field_at(t@, i as int) {
                None => true,
                Some((v, j)) => v > u64::MAX,
            },
        },
{
    let e = scan_digits(t, i);
    if e == i || e >= t.len() || t[e] != 46 {
        return None;
    }
    match read_digits(t, i, e) {
        None => None,
        Some(v) => Some((v, e + 1)),
    }
}

/// Reads `n` dot-ended decimal fields from `i` on.
fn read_fields(t: &[u8], i: usize, n: usize) -> (r: Option<(Vec<u64>, usize)>)
    requires
        i <= t@.len(),
    ensures
        r is Some ==> {
            let (vs, k) = r->Some_0;
            &&& fields(t@, i as int, n as nat) == Some((nats(vs@), k as int))
            &&& fields_fit(t@, i as int, n as nat)
            &&& i <= k <= t@.len()
            &&& n > 0 ==> i < k
        },
        r is None ==> !fields_fit(t@, i as int, n as nat),
    decreases n,
{
    if n == 0 {
        let v: Vec<u64> = Vec::new();
        assert(nats(v@) =~= Seq::<nat>::empty());
        assert(fields(t@, i as int, 0) == Some((nats(v@), i as int)));
        return Some((v, i));
    }
    match read_field(t, i) {
        None => {
            proof {
                match field_at(t@, i as int) {
                    None => {},
                    Some((v, j)) => {
                        match fields(t@, j, (n - 1) as nat) {
                            None => {},
                            Some((vs, k)) => {
                                let all = seq![v] + vs;
                                assert(all[0] > u64::MAX);
                                assert(fields(t@, i as int, n as nat) == Some((all, k)));
                                assert(!all_fit(all));
                            },
                        }
                    },
                }
            }
            None
        },
        Some((v, j)) => match read_fields(t, j, n - 1) {
            None => {
                proof {
                    match fields(t@, j as int, (n - 1) as nat) {
                        None => {},
                        Some((vs, k)) => {
                            assert(!all_fit(vs));
                            let jj = choose|jj: int| 0 <= jj < vs.len() && !(#[trigger] vs[jj] <= u64::MAX);
                            let all = seq![v as nat] + vs;
                            assert(all[jj + 1] == vs[jj]);
                            assert(fields(t@, i as int, n as nat) == Some((all, k)));
                            assert(!all_fit(all));
                        },
                    }
                }
                None
            },
            Some((vs, k)) => {
                let mut out = vs;
                out.insert(0, v);
                proof {
                    let all = nats(out@);
                    assert forall|j2: int| 0 <= j2 < all.len() implies #[trigger] all[j2] <= u64::MAX by {
                        assert(all[j2] == out@[j2] as nat);
                    }
                }
                assert(nats(out@) =~= seq![v as nat] + nats(vs@));
                assert(field_at(t@, i as int) == Some((v as nat, j as int)));
                assert(fields(t@, j as int, (n - 1) as nat) == Some((nats(vs@), k as int)));
                assert(fields(t@, i as int, n as nat) == Some((seq![v as nat] + nats(vs@), k as int)));
                Some((out, k))
            },
        },
    }
}

/// Whether the bytes of `t` from `k` on are exactly `e`.
fn tail_equals(t: &[u8], k: usize, e: &[u8]) -> (r: bool)
    requires
        k <= t@.len(),
    ensures
        r == (t@.subrange(k as int, t@.len() as int) == e@),
{
    if t.len() - k != e.len() {
        return false;
    }
    let mut i: usize = 0;
    let mut a: usize = k;
    while i < e.len()
        invariant
            i <= e@.len(),
            a == k + i,
            k <= t@.len(),
            t@.len() - k == e@.len(),
            forall|j: int| 0 <= j < i ==> t@[k + j] == #[trigger] e@[j],
        decreases e@.len() - i,
    {
        if t[a] != e[i] {
            assert(t@.subrange(k as int, t@.len() as int)[i as int] != e@[i as int]);
            return false;
        }
        i = i + 1;
        a = a + 1;
    }
    assert(t@.subrange(k as int, t@.len() as int) =~= e@);
    true
}

/// Reads the claims of token text and the length of its signed text.
fn parse(t: &[u8]) -> (r: Option<(Claims, usize)>)
    ensures
        match r {
            None => parse_token(t@) is None,
            Some((c, k)) => parse_token(t@) == Some((c, k as int)) && k <= t@.len() && c.wf(),
        },
{
    if t.len() < 2 || t[1] != 46 || (t[0] != 97 && t[0] != 114) {
        return None;
    }
    let kind = if t[0] == 97 {
        TokenKind::Access
    } else {
        TokenKind::Refresh
    };
    let n: usize = match kind {
        TokenKind::Access => 4,
        TokenKind::Refresh => 3,
    };
    assert(field_count(kind) == n as nat);
    let (vs, k) = match read_fields(t, 2, n) {
        None => {
            assert(parse_token(t@) is None);
            return None;
        },
        Some(x) => x,
    };
    proof {
        lemma_fields_len(t@, 2, n as nat);
    }
    assert(nats(vs@).len() == n);
    assert(forall|j: int| 0 <= j < n ==> nats(vs@)[j] == vs@[j] as nat);
    let c = match kind {
        TokenKind::Access => Claims {
            kind,
            user_id: vs[0],
            permission: Some(vs[1]),
            issued_at: vs[2],
            expires_at: vs[3],
        },
        TokenKind::Refresh => Claims {
            kind,
            user_id: vs[0],
            permission: None,
            issued_at: vs[1],
            expires_at: vs[2],
        },
    };
    Some((c, k))
}

/// Judges token text given the HMAC tag of its signed text: the claims, or
/// why the token is refused.
pub fn judge(t: &[u8], tag: &[u8], expected: TokenKind, now: u64) -> (r: Result<Claims, AuthError>)
    ensures
        r == verdict(t@, tag@, expected, now),
        r is Ok ==> r->Ok_0.wf(),
{
    let (c, k) = match parse(t) {
        None => {
            return Err(AuthError::InvalidSignature);
        },
        Some(x) => x,
    };
    let mut expect_text: Vec<u8> = Vec::new();
    push_hex(tag, &mut expect_text);
    assert(expect_text@ =~= hex_of(tag@));
    if !tail_equals(t, k, expect_text.as_slice()) {
        return Err(AuthError::InvalidSignature);
    }
    if c.kind != expected {
        return Err(AuthError::WrongKind);
    }
    if now >= c.expires_at {
        return Err(AuthError::Expired);
    }
    Ok(c)
}

/// Checks token text presented where a token of kind `expected` is required,
/// at time `now`, and returns what it states.
pub fn decode(t: &[u8], secret: &[u8], expected: TokenKind, now: u64) -> (r: Result<
    Claims,
    AuthError,
>)
    ensures
        r == decoded(t@, secret@, expected, now),
        r is Ok ==> r->Ok_0.wf(),
{
    let k = match parse(t) {
        None => {
            return Err(AuthError::InvalidSignature);
        },
        Some((_, k)) => k,
    };
    let tag = hmac_sha256(secret, slice_subrange(t, 0, k));
    judge(t, tag.as_slice(), expected, now)
}

proof fn lemma_field_at(t: Seq<u8>, i: int, v: nat)
    requires
        0 <= i,
        i + decimal(v).len() < t.len(),
        t.subrange(i, i + decimal(v).len()) == decimal(v),
        t[i + decimal(v).len()] == 46u8,
    ensures
        field_at(t, i) == Some((v, i + decimal(v).len() + 1)),
{
    lemma_decimal(v);
    lemma_run_end(t, i, i + decimal(v).len());
}

proof fn lemma_dotted_front(vs: Seq<nat>)
    requires
        vs.len() > 0,
    ensures
        dotted(vs) == decimal(vs[0]) + seq![46u8] + dotted(vs.drop_first()),
    decreases vs.len(),
{
    if vs.len() == 1 {
        assert(vs.drop_last() =~= Seq::<nat>::empty());
        assert(vs.drop_first() =~= Seq::<nat>::empty());
        assert(dotted(vs) =~= decimal(vs[0]) + seq![46u8] + dotted(vs.drop_first()));
    } else {
        let init = vs.drop_last();
        lemma_dotted_front(init);
        assert(init.drop_first() =~= vs.drop_first().drop_last());
        assert(vs.drop_first().last() == vs.last());
        assert(dotted(vs) =~= decimal(vs[0]) + seq![46u8] + dotted(vs.drop_first()));
    }
}

/// Dot-ended fields rendered from `vs` read back as `vs`.
proof fn lemma_fields_dotted(t: Seq<u8>, i: int, vs: Seq<nat>)
    requires
        0 <= i,
        i + dotted(vs).len() <= t.len(),
        t.subrange(i, i + dotted(vs).len()) == dotted(vs),
    ensures
        fields(t, i, vs.len()) == Some((vs, i + dotted(vs).len())),
    decreases vs.len(),
{
    if vs.len() == 0 {
        assert(vs =~= Seq::<nat>::empty());
    } else {
        lemma_dotted_front(vs);
        let d = decimal(vs[0]);
        let rest = vs.drop_first();
        let j = i + d.len() + 1;
        assert(t.subrange(i, i + d.len()) =~= d) by {
            assert(t.subrange(i, i + d.len()) =~= dotted(vs).subrange(0, d.len() as int));
        }
        assert(t[i + d.len()] == dotted(vs)[d.len() as int]);
        lemma_field_at(t, i, vs[0]);
        assert(t.subrange(j, j + dotted(rest).len()) =~= dotted(rest)) by {
            assert(t.subrange(j, j + dotted(rest).len()) =~= dotted(vs).subrange(
                d.len() + 1int,
                dotted(vs).len() as int,
            ));
        }
        lemma_fields_dotted(t, j, rest);
        assert(seq![vs[0]] + rest =~= vs);
    }
}

/// The fields of a signed token read back as the claims it was signed for,
/// and its tag starts right after the signed text.
proof fn lemma_parse_token_of(c: Claims, secret: Seq<u8>)
    requires
        c.wf(),
    ensures
        parse_token(token_of(c, secret)) == Some((c, signed_text(c).len() as int)),
{
    let t = token_of(c, secret);
    let vs = field_values(c);
    let d = dotted(vs);
    assert(t.subrange(2, 2 + d.len() as int) =~= d);
    lemma_fields_dotted(t, 2, vs);
    assert(t[0] == kind_letter(c.kind));
    assert(t[1] == 46u8);
    assert(all_fit(vs));
}

/// A token signed with `secret`, presented with the same secret: it fails
/// only for its kind or its expiry.
pub proof fn lemma_decode_signed(c: Claims, secret: Seq<u8>, expected: TokenKind, now: u64)
    requires
        c.wf(),
    ensures
        decoded(token_of(c, secret), secret, expected, now) == (if c.kind != expected {
            Err(AuthError::WrongKind)
        } else if now >= c.expires_at {
            Err(AuthError::Expired)
        } else {
            Ok(c)
        }),
{
    lemma_parse_token_of(c, secret);
    let t = token_of(c, secret);
    let k: int = signed_text(c).len() as int;
    assert(t.subrange(0, k) =~= signed_text(c));
    assert(t.subrange(k, t.len() as int) =~= hex_of(mac_of(secret, signed_text(c))));
}

/// An access token issued at `issued` for user `u` with permission `perm`
/// decodes, as an access token under the same secret, to exactly those
/// claims at every time before its expiry, and fails as expired from then on.
pub proof fn lemma_access_round_trip(u: u64, perm: u64, secret: Seq<u8>, issued: u64, now: u64)
    ensures
        decoded(token_of(access_claims(u, perm, issued), secret), secret, TokenKind::Access, now)
            == (if now < access_claims(u, perm, issued).expires_at {
            Ok::<Claims, AuthError>(access_claims(u, perm, issued))
        } else {
            Err::<Claims, AuthError>(AuthError::Expired)
        }),
        access_claims(u, perm, issued).user_id == u,
        access_claims(u, perm, issued).permission == Some(perm),
{
    lemma_decode_signed(access_claims(u, perm, issued), secret, TokenKind::Access, now);
}

/// A validly signed token presented where the other kind is required fails
/// with a kind mismatch, whatever the time: a refresh token in the place of
/// an access token, and the other way round.
pub proof fn lemma_kind_isolation(c: Claims, secret: Seq<u8>, expected: TokenKind, now: u64)
    requires
        c.wf(),
        c.kind != expected,
    ensures
        decoded(token_of(c, secret), secret, expected, now) == Err::<Claims, AuthError>(
            AuthError::WrongKind,
        ),
{
    lemma_decode_signed(c, secret, expected, now);
}

} // verus!
