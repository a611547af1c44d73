use ciqadamq::acl::{build_auth_info, check_subscribe, SubscribeVerdict};
use ciqadamq::auth::Found;
use ciqadamq::config::{AclConfig, FanoutConfig};
use ciqadamq::db::UserRecord;
use ciqadamq::fanout::{RetainHandling, UseridAutoSubscription};
use ciqadamq::vault::{encode_name, Secret, VaultClient, VaultReply};

fn user(admin: bool) -> UserRecord {
    UserRecord {
        username: "tok-auto".to_string(),
        userid: "u4000".to_string(),
        password_hash: String::new(),
        superuser: false,
        admin,
    }
}

fn filters(admin: bool) -> Vec<String> {
    let auto = UseridAutoSubscription::new(&FanoutConfig::default(), &AclConfig::default());
    let subs = auto.subscribes(Some(&Found::User(user(admin)))).unwrap();
    subs.into_iter().map(|s| s.topic.filter).collect()
}

#[test]
fn clients_are_subscribed_to_what_they_are_granted() {
    assert_eq!(filters(false), vec!["+/u4000/#", "fanout/#"]);
    assert_eq!(filters(true), vec!["+/u4000/#", "fanout/#", "adminfanout/#"]);
}

#[test]
fn automatic_subscriptions_are_permitted() {
    let acl = AclConfig::default();
    for admin in [false, true] {
        let rules = build_auth_info(&user(admin), &acl, Some("tok-auto"), "dev");
        for f in filters(admin) {
            assert_eq!(check_subscribe(&acl, Some(&rules), &f, 1), SubscribeVerdict::Granted(1));
        }
    }
}

#[test]
fn unknown_users_are_subscribed_to_nothing() {
    let auto = UseridAutoSubscription::new(&FanoutConfig::default(), &AclConfig::default());
    assert!(auto.enable());
    assert!(auto.subscribes(None).unwrap().is_empty());
    assert!(auto.subscribes(Some(&Found::Nobody)).unwrap().is_empty());
    assert!(auto.subscribes(Some(&Found::Failed)).unwrap().is_empty());
}

#[test]
fn quality_of_service_is_at_most_two() {
    let mut f = FanoutConfig::default();
    for (given, used) in [(0, 0), (1, 1), (2, 2), (3, 2), (255, 2)] {
        f.qos = given;
        let auto = UseridAutoSubscription::new(&f, &AclConfig::default());
        let s = auto.subscription("a/#").unwrap();
        assert_eq!(s.qos, used);
        assert_eq!(s.topic.filter, "a/#");
        assert!(s.topic.group.is_none() && s.topic.limit.is_none());
        assert!(!s.no_local && !s.retain_as_published);
        assert_eq!(s.retain_handling, RetainHandling::AtSubscribe);
    }
}

#[test]
fn filters_are_taken_apart() {
    let auto = UseridAutoSubscription::new(&FanoutConfig::default(), &AclConfig::default());
    let parts = |filter: &str| match auto.subscription(filter) {
        Ok(s) => Some((s.topic.filter, s.topic.group, s.topic.limit)),
        Err(_) => None,
    };
    let some = |f: &str, g: Option<&str>, l: Option<usize>| {
        Some((f.to_string(), g.map(|g| g.to_string()), l))
    };
    assert_eq!(parts("$share/g/a/b/#"), some("a/b/#", Some("g"), None));
    assert_eq!(parts("$share//a"), some("a", Some(""), None));
    assert_eq!(parts("$share/g"), None);
    assert_eq!(parts("$share/g/"), None);
    assert_eq!(parts("$share"), None);
    assert_eq!(parts("$limit/5/a"), some("a", None, Some(5)));
    assert_eq!(parts("$limit/x/a"), None);
    assert_eq!(parts("$limit/5"), None);
    assert_eq!(parts("$exclusive/a/b"), some("a/b", None, Some(1)));
    assert_eq!(parts("$exclusive/$exclusive/a"), some("a", None, Some(1)));
    assert_eq!(parts("$exclusive"), some("$exclusive", None, Some(1)));
    assert_eq!(parts("$exclusive/"), None);
    assert_eq!(parts("$SYS/a"), some("$SYS/a", None, None));
    assert_eq!(parts(""), None);
}

#[test]
fn one_illegal_filter_fails_them_all() {
    let mut acl = AclConfig::default();
    acl.fanout_prefixes = vec!["ok".to_string(), "$limit/many".to_string()];
    let auto = UseridAutoSubscription::new(&FanoutConfig::default(), &acl);
    assert!(auto.subscribes(Some(&Found::User(user(false)))).is_err());
}

#[test]
fn names_are_escaped() {
    assert_eq!(encode_name("ciqada/api-token"), "ciqada%2Fapi-token");
    assert_eq!(encode_name("a%b/c"), "a%25b%2Fc");
    assert_eq!(encode_name("%2F"), "%252F");
    assert_eq!(encode_name(""), "");
    assert_ne!(encode_name("a/b"), encode_name("a%2Fb"));
    assert!(!encode_name("a/b/c").contains('/'));
}

#[test]
fn vault_needs_an_address() {
    assert!(VaultClient::from_env(None).is_none());
    assert!(VaultClient::from_env(Some(String::new())).is_none());
    let v = VaultClient::from_env(Some("http://v//".to_string())).unwrap();
    assert_eq!(v.secret_url("ciqada/pepper"), "http://v/v1/secrets/ciqada%2Fpepper");
    let v = VaultClient::from_env(Some("/".to_string())).unwrap();
    assert_eq!(v.secret_url("x"), "/v1/secrets/x");
}

#[test]
fn answers_of_the_vault_are_read() {
    let value = || Some("v".to_string());
    let get = |status, value| VaultClient::get_value(VaultReply::Answer { status, value });
    assert!(matches!(get(200, value()), Secret::Value(v) if v == "v"));
    assert!(matches!(get(200, None), Secret::Missing));
    assert!(matches!(get(404, value()), Secret::Missing));
    assert!(matches!(get(403, value()), Secret::Unavailable));
    assert!(matches!(get(500, value()), Secret::Unavailable));
    assert!(matches!(VaultClient::get_value(VaultReply::Failed), Secret::Unavailable));
}
