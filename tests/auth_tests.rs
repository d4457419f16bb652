use argon2::password_hash::{PasswordHasher, SaltString};
use image_watch::authentication::{
    admission, authenticate_request, extract_token, request_needs_token, strip_prefix, Admission,
    Authenticator, Credentials, Token, Username,
};
use image_watch::shutdown::ShutdownCoordinator;
use image_watch::token_store::TokenStore;

fn hash_of(password: &str) -> String {
    let params = argon2::Params::new(64, 1, 1, None).unwrap();
    let hasher = argon2::Argon2::new(argon2::Algorithm::Argon2id, argon2::Version::V0x13, params);
    let salt = SaltString::from_b64("c2FsdHNhbHRzYWx0").unwrap();
    hasher.hash_password(password.as_bytes(), &salt).unwrap().to_string()
}

fn creds(user: &str, password: &str) -> Credentials {
    Credentials { username: user.to_string(), password: password.to_string() }
}

#[test]
fn login_logout_scenario() {
    let auth = Authenticator::new("alice".to_string(), hash_of("secret"));
    let mut store = TokenStore::new(3_600_000, 16);
    let token = auth.login(&creds("alice", "secret"), &mut store, 0).expect("login");
    assert!(store.check_and_refresh_token(&token, 10));
    store.revoke_token(&token);
    assert!(!store.check_and_refresh_token(&token, 20));
}

#[test]
fn login_rejects_bad_credentials() {
    let auth = Authenticator::new("alice".to_string(), hash_of("secret"));
    let mut store = TokenStore::new(1000, 4);
    assert!(auth.login(&creds("alice", "wrong"), &mut store, 0).is_none());
    assert!(auth.login(&creds("bob", "secret"), &mut store, 0).is_none());
    assert!(auth.credentials_valid(&creds("alice", "secret")));
    assert!(!auth.credentials_valid(&creds("alice", "secreT")));
}

#[test]
fn malformed_hash_fails_login() {
    let auth = Authenticator::new("alice".to_string(), "not a phc string".to_string());
    assert!(!auth.credentials_valid(&creds("alice", "not a phc string")));
    let empty = Authenticator::new("alice".to_string(), String::new());
    assert!(!empty.credentials_valid(&creds("alice", "")));
}

#[test]
fn login_decision_after_check() {
    let auth = Authenticator::new("alice".to_string(), String::new());
    assert!(auth.login_accepted("alice", Some(true)));
    assert!(!auth.login_accepted("alice", Some(false)));
    assert!(!auth.login_accepted("alice", None));
    assert!(!auth.login_accepted("alic", Some(true)));
}

#[test]
fn generated_tokens_differ() {
    let a = Token::generate();
    let b = Token::generate();
    assert_eq!(a.0.len(), 36);
    assert_ne!(a, b);
    for (i, c) in a.0.chars().enumerate() {
        if [8, 13, 18, 23].contains(&i) {
            assert_eq!(c, '-');
        } else {
            assert!(c.is_ascii_digit() || ('a'..='f').contains(&c), "{c}");
        }
    }
    assert_eq!(a.0.chars().nth(14), Some('4'));
    assert!(matches!(a.0.chars().nth(19), Some('8' | '9' | 'a' | 'b')));
}

#[test]
fn token_expires_after_cleanup() {
    let mut store = TokenStore::new(1000, 4);
    let user = Username("alice".to_string());
    let token = store.get_token(&user, 0).expect("token issued");
    assert!(store.check_and_refresh_token(&token, 500));
    store.cleanup(1400);
    assert!(store.check_and_refresh_token(&token, 1450));
    store.cleanup(2451);
    assert!(!store.check_and_refresh_token(&token, 2452));
}

#[test]
fn token_alive_until_deadline() {
    let mut store = TokenStore::new(1000, 4);
    let token = store.get_token(&Username("u".to_string()), 0).expect("token issued");
    store.cleanup(1000);
    assert!(store.check_and_refresh_token(&token, 1000));
}

#[test]
fn eviction_keeps_most_recently_refreshed() {
    let mut store = TokenStore::new(1000, 2);
    let user = Username("alice".to_string());
    let t1 = Token("t1".to_string());
    let t2 = Token("t2".to_string());
    let t3 = Token("t3".to_string());
    assert!(store.issue_token(&user, &t1, 0));
    assert!(store.issue_token(&user, &t2, 10));
    assert!(store.issue_token(&user, &t3, 20));
    assert!(store.check_and_refresh_token(&t1, 30));
    store.cleanup(100);
    assert!(store.check_and_refresh_token(&t1, 110));
    assert!(!store.check_and_refresh_token(&t2, 110));
    assert!(store.check_and_refresh_token(&t3, 110));
}

#[test]
fn eviction_is_per_identity() {
    let mut store = TokenStore::new(1000, 1);
    let a = store.get_token(&Username("a".to_string()), 0).expect("token issued");
    let b = store.get_token(&Username("b".to_string()), 0).expect("token issued");
    store.cleanup(10);
    assert!(store.check_and_refresh_token(&a, 20));
    assert!(store.check_and_refresh_token(&b, 20));
}

#[test]
fn revoke_unknown_token_is_noop() {
    let mut store = TokenStore::new(1000, 4);
    let token = store.get_token(&Username("a".to_string()), 0).expect("token issued");
    store.revoke_token(&Token("missing".to_string()));
    assert!(store.check_and_refresh_token(&token, 1));
}

#[test]
fn protected_paths() {
    assert!(request_needs_token("/backend/ws"));
    assert!(request_needs_token("/backend/data/a.jpg"));
    assert!(request_needs_token("/backend"));
    assert!(!request_needs_token("/backend/login"));
    assert!(!request_needs_token("/backend/frontend_hash"));
    assert!(!request_needs_token("/index.html"));
    assert!(!request_needs_token("/"));
}

#[test]
fn request_admission() {
    let mut store = TokenStore::new(1000, 4);
    let token = store.get_token(&Username("a".to_string()), 0).expect("token issued");
    let other = Token("nope".to_string());
    assert!(authenticate_request(None, "/index.html", &mut store, 1));
    assert!(authenticate_request(None, "/backend/login", &mut store, 1));
    assert!(!authenticate_request(None, "/backend/ws", &mut store, 1));
    assert!(!authenticate_request(Some(&other), "/backend/ws", &mut store, 1));
    assert!(authenticate_request(Some(&token), "/backend/ws", &mut store, 900));
    store.cleanup(1500);
    assert!(authenticate_request(Some(&token), "/backend/ws", &mut store, 1501));
}

#[test]
fn token_from_headers() {
    assert_eq!(extract_token(Some("Bearer abc"), None), Some(Token("abc".to_string())));
    assert_eq!(extract_token(None, Some("bearer, xyz")), Some(Token("xyz".to_string())));
    assert_eq!(extract_token(Some("Basic abc"), Some("bearer, xyz")), Some(Token("xyz".to_string())));
    assert_eq!(extract_token(Some("Bearer abc"), Some("bearer, xyz")), Some(Token("abc".to_string())));
    assert_eq!(extract_token(Some("bearer abc"), None), None);
    assert_eq!(extract_token(None, None), None);
    assert_eq!(extract_token(Some("Bearer "), None), Some(Token(String::new())));
}

#[test]
fn prefix_stripping() {
    assert_eq!(strip_prefix("héllo", "hé"), Some("llo"));
    assert_eq!(strip_prefix("hello", "world"), None);
    assert_eq!(strip_prefix("he", "hello"), None);
}

#[test]
fn shutdown_hands_back_in_order() {
    let mut c: ShutdownCoordinator<u32, &str> = ShutdownCoordinator::new();
    assert!(c.add_join_handle(1).is_ok());
    assert!(c.add_droppable("x").is_ok());
    assert!(c.add_join_handle(2).is_ok());
    assert!(c.add_droppable("y").is_ok());
    let t = c.shutdown().expect("first shutdown");
    assert_eq!(t.droppables, vec!["x", "y"]);
    assert_eq!(t.join_handles, vec![1, 2]);
    assert!(!c.is_running());
    assert!(c.shutdown().is_none());
    assert_eq!(c.add_join_handle(3), Err(3));
    assert_eq!(c.add_droppable("z"), Err("z"));
}

#[test]
fn revoked_token_frees_its_place_under_the_cap() {
    let mut store = TokenStore::new(1000, 1);
    let user = Username("alice".to_string());
    let older = Token("older".to_string());
    let newer = Token("newer".to_string());
    assert!(store.issue_token(&user, &older, 0));
    assert!(store.issue_token(&user, &newer, 10));
    store.revoke_token(&newer);
    store.cleanup(20);
    assert!(store.check_and_refresh_token(&older, 30));
    assert!(!store.check_and_refresh_token(&newer, 30));
}

#[test]
fn reissued_token_is_refused() {
    let mut store = TokenStore::new(1000, 4);
    let user = Username("alice".to_string());
    let token = Token("same".to_string());
    assert!(store.issue_token(&user, &token, 0));
    assert!(!store.issue_token(&Username("bob".to_string()), &token, 0));
    store.revoke_token(&token);
    assert!(!store.issue_token(&user, &token, 5));
    store.cleanup(6);
    assert!(store.issue_token(&user, &token, 7));
    assert!(store.check_and_refresh_token(&token, 8));
}

#[test]
fn issued_tokens_are_new() {
    let mut store = TokenStore::new(1000, 8);
    let user = Username("alice".to_string());
    let a = store.get_token(&user, 0).expect("token issued");
    let b = store.get_token(&user, 0).expect("token issued");
    assert_ne!(a, b);
}

#[test]
fn admission_decisions() {
    let t = Token("abc".to_string());
    assert_eq!(admission(None, "/index.html"), Admission::Allow);
    assert_eq!(admission(Some(t.clone()), "/backend/login"), Admission::Allow);
    assert_eq!(admission(None, "/backend/ws"), Admission::Deny);
    assert_eq!(admission(Some(t.clone()), "/backend/ws"), Admission::CheckToken(t));
}

#[test]
fn login_identity_is_the_account() {
    let auth = Authenticator::new("alice".to_string(), hash_of("secret"));
    assert_eq!(auth.login_identity(&creds("alice", "secret")), Some(Username("alice".to_string())));
    assert_eq!(auth.login_identity(&creds("alice", "nope")), None);
}

#[test]
fn expired_deadline_is_swept_with_its_owner() {
    let mut store = TokenStore::new(100, 4);
    let user = Username("alice".to_string());
    let token = Token("t".to_string());
    assert!(store.issue_token(&user, &token, 0));
    store.cleanup(101);
    assert!(!store.check_and_refresh_token(&token, 102));
    assert!(store.issue_token(&Username("bob".to_string()), &token, 103));
    assert!(store.check_and_refresh_token(&token, 104));
}

#[test]
fn login_on_empty_store_issues() {
    let auth = Authenticator::new("alice".to_string(), hash_of("pw"));
    let mut store = TokenStore::new(1000, 2);
    let token = auth.login(&creds("alice", "pw"), &mut store, 0).expect("issued");
    assert!(store.check_and_refresh_token(&token, 1));
}
