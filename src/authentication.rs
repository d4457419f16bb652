//! Identities, tokens and credentials, and the decisions of the
//! authenticator: which requests need a token, where a token is read from,
//! and whether a login succeeds.
use vstd::prelude::*;
use argon2::PasswordVerifier;
use crate::token_store::{deadline_for, in_store, with_deadline, TokenStore};

verus! {

/// An opaque session credential.
#[derive(Clone, Debug, Eq, Hash, PartialEq)]
pub struct Token(pub String);

/// The account a token belongs to.
#[derive(Clone, Debug, Eq, Hash, PartialEq)]
pub struct Username(pub String);

/// A login attempt.
#[derive(Clone, Debug)]
pub struct Credentials {
    pub username: String,
    pub password: String,
}

/// A lowercase hexadecimal digit.
pub open spec fn is_lower_hex(c: char) -> bool {
    ('0' <= c && c <= '9') || ('a' <= c && c <= 'f')
}

/// The hyphenated lowercase text of a version-4 UUID: 32 hexadecimal
/// digits in groups of 8, 4, 4, 4 and 12, the version digit `4`, and a
/// variant digit among `8`, `9`, `a` and `b`.
pub open spec fn is_uuid_v4_text(s: Seq<char>) -> bool {
    &&& s.len() == 36
    &&& forall|i: int|
        0 <= i < 36 ==> if i == 8 || i == 13 || i == 18 || i == 23 {
            #[trigger] s[i] == '-'
        } else {
            is_lower_hex(s[i])
        }
    &&& s[14] == '4'
    &&& (s[19] == '8' || s[19] == '9' || s[19] == 'a' || s[19] == 'b')
}

/// Relies on uuid::Uuid::new_v4, which draws 122 random bits and sets the
/// version and variant bits, and on its conversion to `String`, which
/// writes the hyphenated lowercase form.
#[verifier::external_body]
fn random_uuid_string() -> (r: String)
    ensures
        is_uuid_v4_text(r@),
{
    uuid::Uuid::new_v4().into()
}

impl Token {
    /// A fresh, unguessable token.
    pub fn generate() -> (r: Self)
        ensures
            is_uuid_v4_text(r.0@),
    {
        Token(random_uuid_string())
    }
}


/// Whether a PHC string parses as a password hash.
pub uninterp spec fn phc_hash_parses(hash: Seq<char>) -> bool;

/// Whether `password` verifies against the parsed PHC string `hash`.
pub uninterp spec fn argon2_accepts(hash: Seq<char>, password: Seq<char>) -> bool;

#[verifier::external_type_specification]
#[verifier::external_body]
pub struct ExPasswordHashError(argon2::password_hash::Error);

/// Relies on argon2::PasswordHash::new, which parses the PHC string `hash`
/// (an empty one fails), and on Argon2's verify_password, which recomputes
/// the hash of `password` with the parsed salt and parameters and compares.
/// Both depend on their arguments alone.
#[verifier::external_body]
fn verify_password(hash: &str, password: &str) -> (r: Result<bool, argon2::password_hash::Error>)
    ensures
        r is Ok <==> phc_hash_parses(hash@),
        r matches Ok(b) ==> b == argon2_accepts(hash@, password@),
        hash@.len() == 0 ==> r is Err,
{
    let parsed_hash = argon2::PasswordHash::new(hash)?;
    Ok(argon2::Argon2::default().verify_password(password.as_bytes(), &parsed_hash).is_ok())
}

/// `p` begins with `prefix`.
pub open spec fn has_prefix(p: Seq<char>, prefix: Seq<char>) -> bool {
    prefix.len() <= p.len() && p.subrange(0, prefix.len() as int) == prefix
}

/// Whether `s` begins with `prefix`.
pub fn starts_with(s: &str, prefix: &str) -> (r: bool)
    ensures
        r == has_prefix(s@, prefix@),
{
    let n = s.unicode_len();
    let m = prefix.unicode_len();
    if m > n {
        return false;
    }
    let mut i: usize = 0;
    while i < m
        invariant
            n == s@.len(),
            m == prefix@.len(),
            m <= n,
            i <= m,
            forall|k: int| 0 <= k < i ==> s@[k] == prefix@[k],
        decreases m - i,
    {
        if s.get_char(i) != prefix.get_char(i) {
            assert(s@.subrange(0, m as int)[i as int] != prefix@[i as int]);
            return false;
        }
        i = i + 1;
    }
    assert(s@.subrange(0, m as int) =~= prefix@);
    true
}

/// Whether `a` and `b` hold the same characters.
pub fn same_text(a: &str, b: &str) -> (r: bool)
    ensures
        r == (a@ == b@),
{
    if a.unicode_len() != b.unicode_len() {
        return false;
    }
    let r = starts_with(a, b);
    assert(a@ =~= a@.subrange(0, b@.len() as int));
    r
}

/// What follows `prefix` in `s`, when `s` begins with it.
pub fn strip_prefix<'a>(s: &'a str, prefix: &str) -> (r: Option<&'a str>)
    ensures
        match r {
            Some(rest) => has_prefix(s@, prefix@) && rest@ == s@.subrange(
                prefix@.len() as int,
                s@.len() as int,
            ),
            None => !has_prefix(s@, prefix@),
        },
{
    if starts_with(s, prefix) {
        let n = s.unicode_len();
        let m = prefix.unicode_len();
        Some(s.substring_char(m, n))
    } else {
        None
    }
}

/// A request to `path` needs a valid token: it lies under the protected
/// prefix and is neither the login endpoint nor the informational one.
pub open spec fn needs_token(path: Seq<char>) -> bool {
    has_prefix(path, "/backend"@) && path != "/backend/login"@ && path
        != "/backend/frontend_hash"@
}

/// Whether a request to `path` can only pass with a valid token.
pub fn request_needs_token(path: &str) -> (r: bool)
    ensures
        r == needs_token(path@),
{
    starts_with(path, "/backend") && !same_text(path, "/backend/login") && !same_text(
        path,
        "/backend/frontend_hash",
    )
}

/// The token a request carries: the value of an `Authorization` header of
/// the form `Bearer <token>`, or else of a `Sec-WebSocket-Protocol` header of
/// the form `bearer, <token>`.
pub open spec fn token_in(
    authorization: Option<Seq<char>>,
    websocket_protocol: Option<Seq<char>>,
) -> Option<Seq<char>> {
    if authorization is Some && has_prefix(authorization->Some_0, "Bearer "@) {
        let a = authorization->Some_0;
        Some(a.subrange(7, a.len() as int))
    } else if websocket_protocol is Some && has_prefix(websocket_protocol->Some_0, "bearer, "@) {
        let w = websocket_protocol->Some_0;
        Some(w.subrange(8, w.len() as int))
    } else {
        None
    }
}

/// The view of an optional header value.
pub open spec fn opt_view(v: Option<&str>) -> Option<Seq<char>> {
    match v {
        Some(s) => Some(s@),
        None => None,
    }
}

/// The bearer token of a request, from the values of its `Authorization`
/// and `Sec-WebSocket-Protocol` headers.
pub fn extract_token(authorization: Option<&str>, websocket_protocol: Option<&str>) -> (r: Option<
    Token,
>)
    ensures
        match r {
            Some(t) => token_in(opt_view(authorization), opt_view(websocket_protocol)) == Some(
                t.0@,
            ),
            None => token_in(opt_view(authorization), opt_view(websocket_protocol)) is None,
        },
{
    proof {
        reveal_strlit("Bearer ");
        reveal_strlit("bearer, ");
    }
    if let Some(a) = authorization {
        if let Some(rest) = strip_prefix(a, "Bearer ") {
            return Some(Token(rest.to_string()));
        }
    }
    if let Some(w) = websocket_protocol {
        if let Some(rest) = strip_prefix(w, "bearer, ") {
            return Some(Token(rest.to_string()));
        }
    }
    None
}

/// The configured account: its name and the PHC string of its password.
pub struct Authenticator {
    username: String,
    password_argon2: String,
}

impl Authenticator {
    pub closed spec fn username(&self) -> Seq<char> {
        self.username@
    }

    pub closed spec fn password_hash(&self) -> Seq<char> {
        self.password_argon2@
    }

    /// Whether `credentials` log into this account.
    pub open spec fn accepts(&self, credentials: &Credentials) -> bool {
        credentials.username@ == self.username() && phc_hash_parses(self.password_hash())
            && argon2_accepts(self.password_hash(), credentials.password@)
    }

    pub fn new(username: String, password_argon2: String) -> (r: Self)
        ensures
            r.username() == username@,
            r.password_hash() == password_argon2@,
    {
        Authenticator { username, password_argon2 }
    }

    /// The login decision once the password check has run: the name must be
    /// the account's and the check must have verified the password. A hash
    /// that did not parse (`None`) fails the login.
    pub fn login_accepted(&self, username: &str, verification: Option<bool>) -> (r: bool)
        ensures
            r == (username@ == self.username() && verification == Some(true)),
    {
        same_text(username, self.username.as_str()) && match verification {
            Some(b) => b,
            None => false,
        }
    }

    /// Whether `credentials` log into this account.
    pub fn credentials_valid(&self, credentials: &Credentials) -> (r: bool)
        ensures
            r == self.accepts(credentials),
    {
        let verification = match verify_password(self.password_argon2.as_str(), credentials.password.as_str()) {
            Ok(b) => Some(b),
            Err(_) => None,
        };
        self.login_accepted(credentials.username.as_str(), verification)
    }

    /// The identity a login with `credentials` gets a token for: the
    /// account's, when the credentials are valid.
    pub fn login_identity(&self, credentials: &Credentials) -> (r: Option<Username>)
        ensures
            r is Some <==> self.accepts(credentials),
            r matches Some(u) ==> u.0@ == self.username(),
    {
        if self.credentials_valid(credentials) {
            Some(Username(credentials.username.clone()))
        } else {
            None
        }
    }

    /// Login: on valid credentials the store issues a token new to it to the
    /// account, valid until `ttl` after `now`; it does so whenever no token
    /// in the store has the shape of a generated one. Otherwise nothing
    /// changes.
    pub fn login(&self, credentials: &Credentials, store: &mut TokenStore, now: i64) -> (r: Option<Token>)
        requires
            old(store).wf(),
        ensures
            final(store).wf(),
            r is Some ==> self.accepts(credentials),
            self.accepts(credentials) && (forall|t: Seq<char>|
                in_store(old(store).owners(), old(store).deadlines(), t) ==> !is_uuid_v4_text(t))
                ==> r is Some,
            final(store).ttl() == old(store).ttl(),
            final(store).max_per_user() == old(store).max_per_user(),
            match r {
                Some(t) => !in_store(old(store).owners(), old(store).deadlines(), t.0@) && final(store).owners() == old(
                    store,
                ).owners().insert(t.0@, self.username()) && final(store).deadlines()
                    == with_deadline(
                    old(store).deadlines(),
                    self.username(),
                    t.0@,
                    deadline_for(now, old(store).ttl()),
                ),
                None => final(store).owners() == old(store).owners() && final(store).deadlines()
                    == old(store).deadlines(),
            },
    {
        match self.login_identity(credentials) {
            Some(user) => store.get_token(&user, now),
            None => None,
        }
    }
}

/// What becomes of a request: it passes, it is refused, or it passes only
/// if the store accepts the token it carries.
#[derive(Debug, PartialEq, Eq)]
pub enum Admission {
    Allow,
    Deny,
    CheckToken(Token),
}

/// The admission of a request to `path` carrying `token`: requests that
/// need no token pass, the others without a token are refused, and those
/// with one depend on the store's check of it.
pub fn admission(token: Option<Token>, path: &str) -> (r: Admission)
    ensures
        !needs_token(path@) ==> r == Admission::Allow,
        needs_token(path@) && token is None ==> r == Admission::Deny,
        needs_token(path@) && token is Some ==> r == Admission::CheckToken(token->Some_0),
{
    if !request_needs_token(path) {
        Admission::Allow
    } else {
        match token {
            Some(t) => Admission::CheckToken(t),
            None => Admission::Deny,
        }
    }
}

/// Request admission: requests that need no token pass; the others pass
/// when they carry a token the store accepts, which refreshes it.
pub fn authenticate_request(token: Option<&Token>, path: &str, store: &mut TokenStore, now: i64) -> (r: bool)
    requires
        old(store).wf(),
    ensures
        final(store).wf(),
        final(store).owners() == old(store).owners(),
        final(store).ttl() == old(store).ttl(),
        final(store).max_per_user() == old(store).max_per_user(),
        r == (!needs_token(path@) || match token {
            Some(t) => old(store).owners().contains_key(t.0@),
            None => false,
        }),
        (r && needs_token(path@)) ==> final(store).deadlines() == with_deadline(
            old(store).deadlines(),
            old(store).owners()[token->Some_0.0@],
            token->Some_0.0@,
            deadline_for(now, old(store).ttl()),
        ),
        !(r && needs_token(path@)) ==> final(store).deadlines() == old(store).deadlines(),
{
    let carried = match token {
        Some(t) => Some(Token(t.0.clone())),
        None => None,
    };
    match admission(carried, path) {
        Admission::Allow => true,
        Admission::Deny => false,
        Admission::CheckToken(t) => store.check_and_refresh_token(&t, now),
    }
}

} // verus!
