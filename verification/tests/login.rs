use ciqadamq::api::{replicated, AppState, TokenPair};
use ciqadamq::auth::{
    auth_key, authenticate, password_checked, user_found, verifier_found, AuthStep, Found, Verdict,
};
use ciqadamq::cache::{AuthCache, UserCache};
use ciqadamq::config::{AclConfig, ClusterConfig};
use ciqadamq::db::{compute_verifier, hash_password, UserRecord};
use sha2::{Digest, Sha256};

fn state(pepper: Option<&[u8]>) -> AppState {
    AppState {
        token: TokenPair::default(),
        acl: AclConfig::default(),
        auth_cache: AuthCache::new(1000),
        users: UserCache::new(1000),
        peers: Vec::new(),
        auth_disabled: false,
        pepper: pepper.map(|p| p.to_vec()),
        vault: None,
        cluster: ClusterConfig::default(),
    }
}

fn user(password: &str, superuser: bool) -> UserRecord {
    UserRecord {
        username: "tok-user1".to_string(),
        userid: "u1001".to_string(),
        password_hash: hash_password(password, 8, 1, 1).unwrap(),
        superuser,
        admin: false,
    }
}

fn begin(s: &AppState, password: &str, now: u128) -> AuthStep {
    authenticate(s, Some("tok-user1"), Some(password.as_bytes()), "devA", now)
}

fn is_denied(step: &AuthStep) -> bool {
    matches!(step, AuthStep::Done(Verdict::BadUsernameOrPassword))
}

fn run(s: &mut AppState, password: &str, found: Found, stored: Option<Vec<u8>>, now: u128) -> Verdict {
    let mut step = begin(s, password, now);
    if let AuthStep::FindUser(c) = step {
        step = user_found(s, c, found, now);
    }
    if let AuthStep::FetchVerifier(a) = step {
        step = verifier_found(s, a, stored, now);
    }
    match step {
        AuthStep::Done(v) => v,
        AuthStep::CheckPassword(a) => {
            let right = a.check_password();
            password_checked(s, a, right, now).verdict
        }
        _ => unreachable!(),
    }
}

#[test]
fn key_is_a_digest_of_the_credential() {
    let expected: [u8; 32] = Sha256::digest(b"user\0pass").into();
    assert_eq!(auth_key("user", "pass"), expected);
    assert_ne!(auth_key("userp", "ass"), expected);
}

#[test]
fn switched_off_authentication_lets_everyone_in() {
    let mut s = state(None);
    s.auth_disabled = true;
    let step = authenticate(&s, None, None, "x", 0);
    assert!(matches!(step, AuthStep::Done(Verdict::Allow { superuser: true, auth: None })));
}

#[test]
fn missing_or_unreadable_credentials_are_bad() {
    let s = state(None);
    assert!(is_denied(&authenticate(&s, None, Some(b"x"), "d", 0)));
    assert!(is_denied(&authenticate(&s, Some("u"), None, "d", 0)));
    assert!(is_denied(&authenticate(&s, Some(""), Some(b"x"), "d", 0)));
    assert!(is_denied(&authenticate(&s, Some("u"), Some(b""), "d", 0)));
    assert!(is_denied(&authenticate(&s, Some("u"), Some(&[0xff, 0xfe]), "d", 0)));
}

#[test]
fn unknown_user_is_denied_and_a_failing_directory_does_not_authorize() {
    let mut s = state(None);
    assert!(matches!(
        run(&mut s, "pw", Found::Nobody, None, 0),
        Verdict::BadUsernameOrPassword
    ));
    assert!(matches!(run(&mut s, "pw", Found::Failed, None, 0), Verdict::NotAuthorized));
}

#[test]
fn right_password_gets_in_with_rules() {
    let mut s = state(None);
    let v = run(&mut s, "pw-user1", Found::User(user("pw-user1", false)), None, 0);
    match v {
        Verdict::Allow { superuser, auth } => {
            assert!(!superuser);
            assert_eq!(auth.unwrap().rules.len(), 4);
        }
        _ => panic!("not let in"),
    }
}

#[test]
fn wrong_password_is_denied() {
    let mut s = state(None);
    let v = run(&mut s, "wrong-password", Found::User(user("pw-user1", false)), None, 0);
    assert!(matches!(v, Verdict::BadUsernameOrPassword));
}

#[test]
fn superuser_gets_in_as_one() {
    let mut s = state(None);
    let v = run(&mut s, "pw", Found::User(user("pw", true)), None, 0);
    assert!(matches!(v, Verdict::Allow { superuser: true, auth: Some(_) }));
}

#[test]
fn good_credentials_are_remembered_until_they_expire() {
    let mut s = state(None);
    run(&mut s, "pw", Found::User(user("pw", false)), None, 0);
    assert!(matches!(begin(&s, "pw", 999), AuthStep::Done(Verdict::Allow { .. })));
    assert!(matches!(begin(&s, "other", 999), AuthStep::CheckPassword(_)));
    assert!(matches!(begin(&s, "pw", 1000), AuthStep::FindUser(_)));
}

#[test]
fn pepper_asks_for_the_verifier_first() {
    let mut s = state(Some(b"pepper"));
    let c = match begin(&s, "pw", 0) {
        AuthStep::FindUser(c) => c,
        _ => panic!("user should be looked up"),
    };
    let a = match user_found(&mut s, c, Found::User(user("pw", false)), 0) {
        AuthStep::FetchVerifier(a) => a,
        _ => panic!("verifier should be looked up"),
    };
    let good = compute_verifier(b"pepper", "tok-user1", "pw");
    assert!(matches!(
        verifier_found(&mut s, a.clone(), None, 0),
        AuthStep::CheckPassword(_)
    ));
    assert!(matches!(
        verifier_found(&mut s, a.clone(), Some(vec![0; 32]), 0),
        AuthStep::CheckPassword(_)
    ));
    assert!(matches!(
        verifier_found(&mut s, a, Some(good), 0),
        AuthStep::Done(Verdict::Allow { superuser: false, auth: Some(_) })
    ));
    assert!(matches!(begin(&s, "pw", 1), AuthStep::Done(Verdict::Allow { .. })));
}

#[test]
fn verifier_is_kept_after_a_check() {
    let mut s = state(Some(b"pepper"));
    let c = match begin(&s, "pw", 0) {
        AuthStep::FindUser(c) => c,
        _ => panic!("user should be looked up"),
    };
    let a = match user_found(&mut s, c, Found::User(user("pw", false)), 0) {
        AuthStep::FetchVerifier(a) => a,
        _ => panic!("verifier should be looked up"),
    };
    let refused = password_checked(&mut s, a.clone(), false, 0);
    assert!(refused.verifier.is_none());
    assert!(matches!(refused.verdict, Verdict::BadUsernameOrPassword));
    let end = password_checked(&mut s, a, true, 0);
    let (name, kept) = end.verifier.unwrap();
    assert_eq!(name, "tok-user1");
    assert_eq!(kept, compute_verifier(b"pepper", "tok-user1", "pw"));
}

#[test]
fn no_pepper_keeps_no_verifier() {
    let mut s = state(None);
    let c = match begin(&s, "pw", 0) {
        AuthStep::FindUser(c) => c,
        _ => panic!("user should be looked up"),
    };
    let a = match user_found(&mut s, c, Found::User(user("pw", false)), 0) {
        AuthStep::CheckPassword(a) => a,
        _ => panic!("password should be checked"),
    };
    assert!(password_checked(&mut s, a, true, 0).verifier.is_none());
}

#[test]
fn replaced_user_needs_the_new_password() {
    for pepper in [None, Some(&b"pepper"[..])] {
        let mut s = state(pepper);
        let old = || Found::User(user("old", false));
        assert!(matches!(run(&mut s, "old", old(), None, 0), Verdict::Allow { .. }));
        assert!(matches!(begin(&s, "old", 1), AuthStep::Done(Verdict::Allow { .. })));
        assert_eq!(replicated(&mut s, "tok-user1", true).status, 204);
        let new = || Found::User(user("new", false));
        assert!(matches!(run(&mut s, "old", new(), None, 2), Verdict::BadUsernameOrPassword));
        assert!(matches!(run(&mut s, "new", new(), None, 2), Verdict::Allow { .. }));
    }
}
