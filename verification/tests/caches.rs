use ciqadamq::cache::{AuthCache, UserCache};
use ciqadamq::db::UserRecord;

fn user(name: &str) -> UserRecord {
    UserRecord {
        username: name.to_string(),
        userid: "u1".to_string(),
        password_hash: "h".to_string(),
        superuser: false,
        admin: true,
    }
}

#[test]
fn credentials_live_for_the_lifetime() {
    let mut c = AuthCache::new(100);
    c.insert([1; 32], true, 1000);
    c.insert([2; 32], false, 1050);
    assert_eq!(c.get(&[1; 32], 1099), Some(true));
    assert_eq!(c.get(&[1; 32], 1100), None);
    assert_eq!(c.get(&[2; 32], 1100), Some(false));
    assert_eq!(c.get(&[3; 32], 1000), None);
}

#[test]
fn lifetime_zero_turns_the_caches_off() {
    let mut c = AuthCache::new(0);
    c.insert([1; 32], true, 0);
    assert_eq!(c.get(&[1; 32], 0), None);
    let mut u = UserCache::new(0);
    u.insert("a".to_string(), user("a"), 0);
    assert!(u.get("a", 0).is_none());
}

#[test]
fn purging_a_user_forgets_all_credentials() {
    let mut c = AuthCache::new(100);
    c.insert([1; 32], true, 0);
    c.insert([2; 32], true, 0);
    c.purge_user("whoever");
    assert_eq!(c.get(&[1; 32], 0), None);
    assert_eq!(c.get(&[2; 32], 0), None);
}

#[test]
fn sweeping_changes_no_answer() {
    let mut c = AuthCache::new(100);
    c.insert([1; 32], true, 0);
    c.insert([2; 32], true, 50);
    c.sweep(100);
    assert_eq!(c.get(&[1; 32], 100), None);
    assert_eq!(c.get(&[2; 32], 100), Some(true));
    assert_eq!(c.get(&[1; 32], 99), None);
}

#[test]
fn users_are_cached_by_name() {
    let mut u = UserCache::new(100);
    u.insert("a".to_string(), user("a"), 0);
    u.insert("b".to_string(), user("b"), 0);
    let got = u.get("a", 99).unwrap();
    assert_eq!(got.username, "a");
    assert_eq!(got.userid, "u1");
    assert_eq!(got.password_hash, "h");
    assert!(!got.superuser);
    assert!(got.admin);
    u.purge("a");
    assert!(u.get("a", 0).is_none());
    assert_eq!(u.get("b", 0).unwrap().username, "b");
    u.insert("a".to_string(), user("a2"), 50);
    u.sweep(100);
    assert_eq!(u.get("a", 100).unwrap().username, "a2");
    assert!(u.get("b", 99).is_none());
}
