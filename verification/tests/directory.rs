use ciqadamq::db::{
    compute_verifier, credential_bytes, hash_password, lanes_of, list_users, plan_delete,
    plan_insert, plan_upserts, store_path, to_new_users, user_store_path, verify_fast,
    verify_password, HashError, NewUser, UserRecord, Write,
};
use hmac::{Hmac, Mac};
use sha2::Sha256;

fn new_user(name: &str) -> NewUser {
    NewUser {
        username: name.to_string(),
        userid: format!("id-{name}"),
        password_hash: format!("hash-{name}"),
        superuser: name == "root",
        admin: name == "admin",
    }
}

fn record(name: &str, userid: &str) -> UserRecord {
    UserRecord {
        username: name.to_string(),
        userid: userid.to_string(),
        password_hash: String::new(),
        superuser: false,
        admin: false,
    }
}

#[test]
fn hashed_password_matches_and_others_do_not() {
    let h = hash_password("pw-user1", 8, 1, 1).unwrap();
    assert!(h.starts_with("$argon2id$v=19$m=8,t=1,p=1$"));
    assert!(verify_password(&h, "pw-user1"));
    assert!(!verify_password(&h, "wrong-password"));
    assert!(!verify_password(&h, ""));
}

#[test]
fn hashes_are_salted() {
    let a = hash_password("same", 8, 1, 1).unwrap();
    let b = hash_password("same", 8, 1, 1).unwrap();
    assert_ne!(a, b);
}

#[test]
fn hash_of_several_lanes_matches() {
    let h = hash_password("pw", 32, 2, 3).unwrap();
    assert!(verify_password(&h, "pw"));
}

#[test]
fn costs_out_of_range_are_refused() {
    assert_eq!(hash_password("x", 7, 1, 1), Err(HashError::MemoryTooLittle));
    assert_eq!(hash_password("x", 15, 1, 2), Err(HashError::MemoryTooLittle));
    assert_eq!(hash_password("x", 8, 0, 1), Err(HashError::TimeTooSmall));
    assert_eq!(hash_password("x", 8, 1, 0), Err(HashError::ThreadsTooFew));
    assert_eq!(hash_password("x", u32::MAX, 1, 0x100_0000), Err(HashError::ThreadsTooMany));
    assert_eq!(hash_password("x", 8, 1, 0x2000_0000), Err(HashError::ThreadsTooMany));
}

#[test]
fn what_is_no_hash_matches_no_password() {
    assert!(!verify_password("", "x"));
    assert!(!verify_password("plain", "plain"));
    assert!(!verify_password("$argon2id$", "x"));
    assert!(!verify_password("$argon2id$v=19$m=8,t=1,p=1", "x"));
    assert!(!verify_password("$argon2id$v=19$m=8,t=1,p=536870912$c29tZXNhbHQ$aGFzaA", "x"));
    assert!(!verify_password("$unknown$v=19$m=8,t=1,p=1$c29tZXNhbHQ$aGFzaA", "x"));
}

#[test]
fn lanes_are_the_last_that_are_named() {
    assert_eq!(lanes_of("m=8,t=1,p=3"), 3);
    assert_eq!(lanes_of("p=3,m=8,p=5,t=1"), 5);
    assert_eq!(lanes_of("m=8,t=1"), 0);
    assert_eq!(lanes_of("p=x"), 0);
    assert_eq!(lanes_of(""), 0);
}

#[test]
fn fresh_verifier_verifies() {
    let v = compute_verifier(b"pepper", "tok-user1", "pw-user1");
    assert_eq!(v.len(), 32);
    assert!(verify_fast(b"pepper", "tok-user1", "pw-user1", &v));
    assert!(!verify_fast(b"pepper", "tok-user1", "pw-user2", &v));
    assert!(!verify_fast(b"pepper", "tok-user2", "pw-user1", &v));
    assert!(!verify_fast(b"other", "tok-user1", "pw-user1", &v));
    assert!(!verify_fast(b"pepper", "tok-user1", "pw-user1", &v[..31]));
    assert!(!verify_fast(b"pepper", "tok-user1", "pw-user1", &[]));
}

#[test]
fn verifier_is_an_hmac_of_the_credential() {
    let mut mac = <Hmac<Sha256> as Mac>::new_from_slice(b"k").unwrap();
    mac.update(b"user\0pass");
    let expected = mac.finalize().into_bytes().to_vec();
    assert_eq!(compute_verifier(b"k", "user", "pass"), expected);
    assert_eq!(compute_verifier(b"", "", "").len(), 32);
}

#[test]
fn credential_separates_name_and_password() {
    assert_eq!(credential_bytes("ab", "c"), b"ab\0c".to_vec());
    assert_ne!(credential_bytes("ab", "c"), credential_bytes("a", "bc"));
}

#[test]
fn store_path_is_what_follows_the_scheme() {
    assert_eq!(store_path("redb://data/users.redb"), Some("data/users.redb".to_string()));
    assert_eq!(store_path("redb://"), Some(String::new()));
    assert_eq!(store_path("postgres://x"), None);
    assert_eq!(store_path(""), None);
    assert_eq!(store_path("sqlite:///tmp/users.db"), None);
}

#[test]
fn users_are_kept_under_either_scheme() {
    let at = |url: &str| user_store_path(url);
    assert_eq!(at("sqlite:///tmp/t/users.db"), Some("/tmp/t/users.db".to_string()));
    assert_eq!(at("sqlite://users.db"), Some("users.db".to_string()));
    assert_eq!(at("redb://data/users.redb"), Some("data/users.redb".to_string()));
    assert_eq!(at("redb://sqlite://x"), Some("sqlite://x".to_string()));
    assert_eq!(at("sqlite://"), Some(String::new()));
    assert_eq!(at("sqlite:users.db"), None);
    assert_eq!(at("postgres://x"), None);
    assert_eq!(at(""), None);
}

fn put(w: &Write) -> &UserRecord {
    match w {
        Write::PutUser(r) => r,
        _ => panic!("no user is put in"),
    }
}

#[test]
fn taken_name_is_not_inserted() {
    assert!(plan_insert(new_user("a"), true).is_empty());
    let w = plan_insert(new_user("root"), false);
    assert_eq!(w.len(), 2);
    assert!(matches!(&w[0], Write::RemoveVerifier(n) if n == "root"));
    let r = put(&w[1]);
    assert_eq!(r.username, "root");
    assert_eq!(r.userid, "id-root");
    assert_eq!(r.password_hash, "hash-root");
    assert!(r.superuser);
    assert!(!r.admin);
}

#[test]
fn upserts_are_written_in_order() {
    let w = plan_upserts(vec![new_user("b"), new_user("admin")]);
    assert_eq!(w.len(), 4);
    assert!(matches!(&w[0], Write::RemoveVerifier(n) if n == "b"));
    assert_eq!(put(&w[1]).username, "b");
    assert!(matches!(&w[2], Write::RemoveVerifier(n) if n == "admin"));
    assert_eq!(put(&w[3]).username, "admin");
    assert!(put(&w[3]).admin);
    assert!(plan_upserts(Vec::new()).is_empty());
}

#[test]
fn records_are_put_into_other_directories() {
    let back = to_new_users(vec![new_user("b").into_record(), new_user("admin").into_record()]);
    assert_eq!(back.len(), 2);
    assert_eq!((back[0].username.as_str(), back[1].userid.as_str()), ("b", "id-admin"));
}

#[test]
fn deleted_user_leaves_no_verifier() {
    let w = plan_delete("a");
    assert_eq!(w.len(), 2);
    assert!(matches!(&w[0], Write::RemoveUser(n) if n == "a"));
    assert!(matches!(&w[1], Write::RemoveVerifier(n) if n == "a"));
}

#[test]
fn users_are_listed_by_name() {
    let users = vec![
        record("tok-user1", "1"),
        record("backend", "2"),
        record("Zed", "3"),
        record("tok", "4"),
        record("\u{e9}", "5"),
        record("backend", "6"),
    ];
    let ids: Vec<String> = list_users(users).into_iter().map(|u| u.userid).collect();
    assert_eq!(ids, vec!["3", "2", "6", "4", "1", "5"]);
}
