use ciqadamq::acl::{
    build_auth_info, check_publish, check_subscribe, AclTopic, Action, AuthInfo, Permission,
    PublishVerdict, Rule, SubscribeVerdict,
};
use ciqadamq::config::AclConfig;
use ciqadamq::db::UserRecord;
use ciqadamq::topic::topic_matches;

fn user(userid: &str, superuser: bool, admin: bool) -> UserRecord {
    UserRecord {
        username: "tok".to_string(),
        userid: userid.to_string(),
        password_hash: String::new(),
        superuser,
        admin,
    }
}

fn rules(userid: &str, superuser: bool, admin: bool) -> AuthInfo {
    build_auth_info(&user(userid, superuser, admin), &AclConfig::default(), Some("tok"), "dev")
}

fn may_subscribe(a: &AuthInfo, filter: &str) -> bool {
    check_subscribe(&AclConfig::default(), Some(a), filter, 1) == SubscribeVerdict::Granted(1)
}

fn may_publish(a: &AuthInfo, topic: &str) -> bool {
    check_publish(&AclConfig::default(), Some(a), topic, 1, false) == PublishVerdict::Allowed
}

#[test]
fn user_subscribes_to_own_topics_and_fanout() {
    let a = rules("u1001", false, false);
    assert!(may_subscribe(&a, "chat/u1001/m/all"));
    assert!(may_subscribe(&a, "update/u1001/m/all"));
    assert!(may_subscribe(&a, "+/u1001/#"));
    assert!(may_subscribe(&a, "chat/u1001"));
    assert!(may_subscribe(&a, "fanout/all"));
    assert!(may_subscribe(&a, "fanout"));
    assert!(!may_subscribe(&a, "chat/u9999/m/all"));
    assert!(!may_subscribe(&a, "#"));
    assert!(!may_subscribe(&a, "+/+/#"));
    assert!(!may_subscribe(&a, "adminfanout/all"));
    assert!(!may_subscribe(&a, "chatsync"));
}

#[test]
fn granted_subscriptions_do_not_leak() {
    let a = rules("u1001", false, false);
    let topics = ["chat/u1001/m", "chat/u9999/m", "fanout/all", "adminfanout/all", "chatsync"];
    let requests = ["+/u1001/#", "chat/u1001/+", "+/u1001", "fanout/#", "fanout/+", "+/+/m", "#", "+/#"];
    for r in requests {
        if may_subscribe(&a, r) {
            for t in topics {
                let own = t == "chat/u1001/m" || t == "fanout/all";
                assert!(own || !topic_matches(t, r));
            }
        }
    }
}

#[test]
fn reserved_segments_are_out_of_reach_of_wildcards() {
    let a = rules("u1001", false, false);
    assert!(!may_subscribe(&a, "$SYS/u1001/x"));
    assert!(!may_subscribe(&a, "chat/u1001/$x"));
    assert!(!may_subscribe(&a, "fanout/$x"));
}

#[test]
fn admins_subscribe_to_admin_topics() {
    let a = rules("u1", false, true);
    assert!(may_subscribe(&a, "adminfanout/all"));
    assert!(may_subscribe(&a, "fanout/all"));
    assert!(!may_subscribe(&a, "other/all"));
}

#[test]
fn users_publish_to_listed_topics_only() {
    let a = rules("u1001", false, false);
    assert!(may_publish(&a, "chatsync"));
    assert!(may_publish(&a, "updates"));
    assert!(!may_publish(&a, "chat/u1001/m/all"));
    assert!(!may_publish(&a, "chatsync/x"));
}

#[test]
fn superusers_do_everything() {
    let a = rules("svc", true, false);
    assert!(a.superuser);
    assert!(a.rules.is_empty());
    assert!(may_subscribe(&a, "#"));
    assert!(may_publish(&a, "chat/u1001/m/all"));
}

#[test]
fn nobody_does_anything_without_rules() {
    let acl = AclConfig::default();
    assert_eq!(check_subscribe(&acl, None, "fanout/all", 0), SubscribeVerdict::NotAuthorized);
    assert_eq!(check_publish(&acl, None, "chatsync", 0, false), PublishVerdict::RejectedAndDisconnected);
}

#[test]
fn everything_is_allowed_when_access_is_not_restricted() {
    let mut acl = AclConfig::default();
    acl.enabled = false;
    assert_eq!(check_subscribe(&acl, None, "#", 2), SubscribeVerdict::Granted(2));
    assert_eq!(check_publish(&acl, None, "anything", 2, true), PublishVerdict::Allowed);
}

#[test]
fn rules_come_in_order() {
    let mut acl = AclConfig::default();
    acl.fanout_prefixes = vec!["f1".to_string(), "f2/x".to_string()];
    let a = build_auth_info(&user("u", false, true), &acl, Some("tok"), "dev");
    let texts: Vec<String> = a
        .rules
        .iter()
        .map(|r| match (&r.action, &r.topic) {
            (Action::Subscribe, AclTopic::Filter(f)) => format!("sub {f}"),
            (Action::Publish, AclTopic::Exact(t)) => format!("pub {t}"),
            _ => "other".to_string(),
        })
        .collect();
    assert_eq!(
        texts,
        vec!["sub +/u/#", "sub f1/#", "sub f2/x/#", "sub adminfanout/#", "pub chatsync", "pub updates"]
    );
}

#[test]
fn placeholders_are_filled_in() {
    let mut acl = AclConfig::default();
    acl.fanout_prefixes = vec!["by/${username}".to_string(), "${clientid}/${username}".to_string()];
    acl.publish_topics = vec!["from/${clientid}/${clientid}".to_string()];
    let a = build_auth_info(&user("u", false, false), &acl, Some("tok"), "dev1");
    assert!(may_subscribe(&a, "by/tok/x"));
    assert!(!may_subscribe(&a, "by/${username}/x"));
    assert!(may_subscribe(&a, "dev1/tok"));
    assert!(may_publish(&a, "from/dev1/dev1"));
    let b = build_auth_info(&user("u", false, false), &acl, None, "dev1");
    assert_eq!(b.rules.len(), 2);
}

#[test]
fn texts_that_are_no_rules_are_passed_over() {
    let mut acl = AclConfig::default();
    acl.fanout_prefixes = vec!["a#b".to_string(), "x/$y".to_string(), "#".to_string(), "ok".to_string()];
    acl.publish_topics = vec![];
    let a = build_auth_info(&user("u", false, false), &acl, Some("tok"), "dev");
    assert_eq!(a.rules.len(), 2);
    assert!(may_subscribe(&a, "ok/1"));
    assert!(!may_subscribe(&a, "x/$y/1"));
}

#[test]
fn eq_prefix_makes_a_rule_exact() {
    let mut acl = AclConfig::default();
    acl.fanout_prefixes = vec!["eq a".to_string()];
    let a = build_auth_info(&user("u", false, false), &acl, Some("tok"), "dev");
    assert!(may_subscribe(&a, "a/#"));
    assert!(!may_subscribe(&a, "a/b"));
}

#[test]
fn rules_allow_without_limits_and_do_not_expire() {
    let a = rules("u1001", false, true);
    assert!(a.expire_at.is_none() && !a.rules.is_empty());
    for r in &a.rules {
        assert_eq!(r.permission, Permission::Allow);
        assert!(r.qos.is_none() && r.retain.is_none());
    }
    let acl = AclConfig::default();
    for qos in 0..=2u8 {
        assert_eq!(
            check_subscribe(&acl, Some(&a), "fanout/all", qos),
            SubscribeVerdict::Granted(qos)
        );
        for retain in [false, true] {
            assert_eq!(
                check_publish(&acl, Some(&a), "updates", qos, retain),
                PublishVerdict::Allowed
            );
        }
    }
    assert!(rules("svc", true, false).expire_at.is_none());
}

fn rule(permission: Permission, action: Action, filter: &str) -> Rule {
    let topic = AclTopic::Filter(filter.to_string());
    Rule { permission, action, qos: None, retain: None, topic }
}

#[test]
fn first_rule_about_a_request_decides() {
    let deny = rule(Permission::Deny, Action::Subscribe, "a/#");
    let allow = rule(Permission::Allow, Action::All, "#");
    let both = vec![deny.clone(), allow.clone()];
    let a = AuthInfo { superuser: false, expire_at: None, rules: both };
    assert!(!may_subscribe(&a, "a/b"));
    assert!(may_subscribe(&a, "b"));
    assert!(may_publish(&a, "a/b"));
    let a = AuthInfo { superuser: false, expire_at: None, rules: vec![allow, deny] };
    assert!(may_subscribe(&a, "a/b"));
}

#[test]
fn rules_can_be_limited() {
    let acl = AclConfig::default();
    let publish = |rule: Rule, qos: u8, retain: bool| {
        let rest = Rule {
            permission: if rule.permission == Permission::Deny {
                Permission::Allow
            } else {
                Permission::Deny
            },
            action: Action::Publish,
            qos: None,
            retain: None,
            topic: AclTopic::Exact("t".to_string()),
        };
        let a = AuthInfo { superuser: false, expire_at: None, rules: vec![rule, rest] };
        check_publish(&acl, Some(&a), "t", qos, retain) == PublishVerdict::Allowed
    };
    let mut r = rule(Permission::Allow, Action::Publish, "t");
    r.qos = Some(vec![0, 2]);
    assert!(publish(r.clone(), 0, true) && publish(r.clone(), 2, false));
    assert!(!publish(r.clone(), 1, false));
    r.qos = None;
    r.retain = Some(false);
    assert!(publish(r.clone(), 1, false) && !publish(r.clone(), 1, true));
    r.retain = Some(true);
    assert!(publish(r.clone(), 1, false) && publish(r.clone(), 1, true));
    r.permission = Permission::Deny;
    assert!(publish(r.clone(), 1, false) && !publish(r.clone(), 1, true));
    r.retain = Some(false);
    assert!(!publish(r.clone(), 1, false) && publish(r, 1, true));
}

#[test]
fn reserved_names_may_be_configured() {
    let mut acl = AclConfig::default();
    acl.fanout_prefixes = vec!["$SYS/brokers".to_string(), "a$b".to_string()];
    acl.publish_topics = vec!["$in".to_string(), "x/$y".to_string(), "${other}".to_string()];
    let a = build_auth_info(&user("u$1", false, false), &acl, Some("tok"), "dev");
    assert!(may_subscribe(&a, "$SYS/brokers/1") && may_subscribe(&a, "$SYS/brokers"));
    assert!(!may_subscribe(&a, "$SYS/other"));
    assert!(may_subscribe(&a, "a$b/c") && may_subscribe(&a, "chat/u$1/m"));
    assert!(may_publish(&a, "$in") && may_publish(&a, "x/$y") && may_publish(&a, "${other}"));
    assert!(!may_publish(&a, "in"));
}
