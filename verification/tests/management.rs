use ciqadamq::api::{
    bad_request, bearer_token, create_user, internal_error, list_users, replicate, replicated,
    snapshot, unauthorized, user_deleted, user_inserted, users_full, valid_segment, valid_username,
    AppState, Body, CatchUp, CatchUpStep, CreateUser, Gate, Health, ReplOp, Reply, StoreOp,
    TokenPair,
};
use ciqadamq::auth::{authenticate, user_found, AuthStep, Found, Verdict};
use ciqadamq::cache::{AuthCache, UserCache};
use ciqadamq::config::{AclConfig, ClusterConfig};
use ciqadamq::db::{compute_verifier, UserRecord};
use ciqadamq::vault::VaultClient;

const SECOND: u128 = 1_000_000_000;

fn state() -> AppState {
    AppState {
        token: TokenPair { current: "test-token".to_string(), previous: None, refreshed_at: None },
        acl: AclConfig::default(),
        auth_cache: AuthCache::new(300 * SECOND),
        users: UserCache::new(300 * SECOND),
        peers: vec!["http://n2:8090".to_string(), "http://n3:8090".to_string()],
        auth_disabled: false,
        pepper: None,
        vault: None,
        cluster: ClusterConfig::default(),
    }
}

fn request(username: &str, userid: &str, password: &str) -> CreateUser {
    CreateUser {
        username: username.to_string(),
        userid: userid.to_string(),
        password: password.to_string(),
        superuser: false,
        admin: true,
    }
}

fn record(name: &str) -> UserRecord {
    UserRecord {
        username: name.to_string(),
        userid: "u1001".to_string(),
        password_hash: "hash".to_string(),
        superuser: false,
        admin: false,
    }
}

fn error(reply: &Reply) -> (u16, String) {
    match &reply.body {
        Body::Error(m) => (reply.status, m.clone()),
        _ => panic!("not an error"),
    }
}

fn refused(req: CreateUser) -> (u16, String) {
    match create_user(&state(), req) {
        Ok(_) => panic!("not refused"),
        Err(r) => error(&r),
    }
}

#[test]
fn bearer_tokens_are_read() {
    assert_eq!(bearer_token(Some("Bearer test-token")), Some("test-token".to_string()));
    assert_eq!(bearer_token(Some("Bearer ")), Some(String::new()));
    assert_eq!(bearer_token(Some("bearer test-token")), None);
    assert_eq!(bearer_token(Some("Basic x")), None);
    assert_eq!(bearer_token(None), None);
}

#[test]
fn requests_pass_by_their_token() {
    let s = state();
    assert_eq!(s.require_token(Some("test-token")), Gate::Pass);
    assert_eq!(s.require_token(Some("other")), Gate::Refresh);
    assert_eq!(s.require_token(None), Gate::Reject);
    assert_eq!(error(&unauthorized()), (401, "invalid or missing bearer token".to_string()));
    assert_eq!(s.current_token(), "test-token");
}

#[test]
fn rotation_keeps_the_last_token() {
    let mut s = state();
    s.token_fetched(None);
    assert!(s.token.previous.is_none());
    s.token_fetched(Some("test-token".to_string()));
    assert!(s.token.previous.is_none());
    s.token_fetched(Some("new".to_string()));
    assert!(s.token_matches("new") && s.token_matches("test-token"));
    assert_eq!(s.current_token(), "new");
    s.token_fetched(Some("newer".to_string()));
    assert!(s.token_matches("newer") && s.token_matches("new"));
    assert!(!s.token_matches("test-token"));
}

#[test]
fn vault_is_asked_every_five_seconds_at_most() {
    let mut s = state();
    assert_eq!(s.refresh_token(0), None);
    assert!(s.token.refreshed_at.is_none());
    s.vault = VaultClient::from_env(Some("http://vault:8200/".to_string()));
    let url = Some("http://vault:8200/v1/secrets/ciqada%2Fapi-token".to_string());
    assert_eq!(s.refresh_token(100 * SECOND), url);
    assert_eq!(s.refresh_token(105 * SECOND - 1), None);
    assert_eq!(s.refresh_token(105 * SECOND), url);
    assert_eq!(s.token.refreshed_at, Some(105 * SECOND));
}

#[test]
fn user_ids_are_short_and_plain() {
    assert!(valid_segment("u1001"));
    assert!(valid_segment("A-z_09"));
    assert!(valid_segment(&"a".repeat(64)));
    assert!(!valid_segment(&"a".repeat(65)));
    assert!(!valid_segment(""));
    assert!(!valid_segment("bad/uid"));
    assert!(!valid_segment("a b"));
    assert!(!valid_segment("\u{e9}"));
}

#[test]
fn user_names_are_printable() {
    assert!(valid_username("tok-user1"));
    assert!(valid_username("!~"));
    assert!(valid_username(&"a".repeat(128)));
    assert!(!valid_username(&"a".repeat(129)));
    assert!(!valid_username(""));
    assert!(!valid_username("bad name"));
    assert!(!valid_username("tab\t"));
    assert!(!valid_username("\u{e9}"));
}

#[test]
fn what_cannot_be_a_user_is_refused() {
    assert_eq!(
        refused(request("bad name", "u1", "x")),
        (400, "username must be 1-128 printable ascii chars without spaces".to_string())
    );
    assert_eq!(
        refused(request("ok-name", "bad/uid", "x")),
        (400, "userid must be 1-64 chars of [A-Za-z0-9_-]".to_string())
    );
    let password = (400, "password must be 1-512 bytes".to_string());
    assert_eq!(refused(request("ok-name", "u1", "")), password);
    assert_eq!(refused(request("ok-name", "u1", &"x".repeat(513))), password);
    assert_eq!(refused(request("ok-name", "u1", &"\u{e9}".repeat(257))), password);
    assert!(create_user(&state(), request("ok-name", "u1", &"x".repeat(512))).is_ok());
}

#[test]
fn created_user_is_told_to_the_others() {
    let mut s = state();
    s.pepper = Some(b"pepper".to_vec());
    let c = create_user(&s, request("tok-user1", "u1001", "pw-user1")).unwrap();
    let hash = c.hash_password(8, 1, 1).unwrap();
    let new = c.new_user(&hash);
    assert_eq!(new.username, "tok-user1");
    assert_eq!(new.password_hash, hash);
    let end = user_inserted(c, hash.clone(), Some(true));
    assert_eq!(end.reply.status, 201);
    match end.reply.body {
        Body::Created { username, userid } => {
            assert_eq!((username.as_str(), userid.as_str()), ("tok-user1", "u1001"))
        }
        _ => panic!("wrong body"),
    }
    let (name, kept) = end.keep.unwrap();
    assert_eq!(name, "tok-user1");
    assert_eq!(kept, compute_verifier(b"pepper", "tok-user1", "pw-user1"));
    match end.tell.unwrap() {
        ReplOp::Upsert { user } => {
            assert_eq!(user.userid, "u1001");
            assert_eq!(user.password_hash, hash);
            assert!(user.admin && !user.superuser);
        }
        _ => panic!("wrong change"),
    }
}

#[test]
fn duplicate_user_conflicts_and_failures_are_internal() {
    let s = state();
    let c = create_user(&s, request("a", "b", "c")).unwrap();
    let end = user_inserted(c.clone(), "h".to_string(), Some(false));
    assert_eq!(error(&end.reply), (409, "user already exists".to_string()));
    assert!(end.tell.is_none() && end.keep.is_none());
    let end = user_inserted(c, "h".to_string(), None);
    assert_eq!(error(&end.reply), (500, "internal error".to_string()));
    assert_eq!(error(&internal_error()), (500, "internal error".to_string()));
    assert_eq!(error(&bad_request("no")), (400, "no".to_string()));
}

#[test]
fn deleted_user_is_turned_away_though_cached() {
    let mut s = state();
    let c = create_user(&s, request("tok-user1", "u1001", "pw-user1")).unwrap();
    let hash = c.hash_password(8, 1, 1).unwrap();
    let user = c.new_user(&hash).into_record();
    let step = authenticate(&s, Some("tok-user1"), Some(b"pw-user1"), "devA", 0);
    let c = match step {
        AuthStep::FindUser(c) => c,
        _ => panic!("user should be looked up"),
    };
    let a = match user_found(&mut s, c, Found::User(user), 0) {
        AuthStep::CheckPassword(a) => a,
        _ => panic!("password should be checked"),
    };
    let right = a.check_password();
    ciqadamq::auth::password_checked(&mut s, a, right, 0);
    let again = authenticate(&s, Some("tok-user1"), Some(b"pw-user1"), "devA", 1);
    assert!(matches!(again, AuthStep::Done(Verdict::Allow { .. })));

    let end = user_deleted(&mut s, "tok-user1", Some(true));
    assert_eq!(end.reply.status, 204);
    assert!(matches!(end.reply.body, Body::Empty));
    match end.tell.unwrap() {
        ReplOp::Delete { username } => assert_eq!(username, "tok-user1"),
        _ => panic!("wrong change"),
    }
    let c = match authenticate(&s, Some("tok-user1"), Some(b"pw-user1"), "devC", 2) {
        AuthStep::FindUser(c) => c,
        _ => panic!("user should be looked up"),
    };
    assert!(matches!(
        user_found(&mut s, c, Found::Nobody, 2),
        AuthStep::Done(Verdict::BadUsernameOrPassword)
    ));

    let end = user_deleted(&mut s, "tok-user1", Some(false));
    assert_eq!(error(&end.reply), (404, "user not found".to_string()));
    assert!(end.tell.is_none());
    assert_eq!(error(&user_deleted(&mut s, "x", None).reply), (500, "internal error".to_string()));
}

#[test]
fn list_tells_no_hashes() {
    let reply = list_users(Some(vec![record("backend"), record("tok-user1")]));
    assert_eq!(reply.status, 200);
    match reply.body {
        Body::Users(users) => {
            assert_eq!(users.len(), 2);
            assert_eq!(users[0].username, "backend");
            assert_eq!(users[1].userid, "u1001");
            assert!(!users[1].superuser && !users[1].admin);
        }
        _ => panic!("wrong body"),
    }
    assert_eq!(list_users(None).status, 500);
    match users_full(Some(vec![record("a")])).body {
        Body::Records(users) => assert_eq!(users[0].password_hash, "hash"),
        _ => panic!("wrong body"),
    }
    assert_eq!(users_full(None).status, 500);
}

#[test]
fn replication_follows_and_forgets() {
    let mut s = state();
    s.users.insert("a".to_string(), record("a"), 0);
    s.auth_cache.insert([1; 32], false, 0);
    let (op, name) = replicate(ReplOp::Upsert { user: record("a") });
    assert_eq!(name, "a");
    match op {
        StoreOp::Upsert(u) => assert_eq!(u.username, "a"),
        _ => panic!("wrong operation"),
    }
    assert_eq!(replicated(&mut s, "a", false).status, 500);
    assert!(s.users.get("a", 1).is_some());
    assert_eq!(replicated(&mut s, "a", true).status, 204);
    assert!(s.users.get("a", 1).is_none());
    assert!(s.auth_cache.get(&[1; 32], 1).is_none());
    let (op, name) = replicate(ReplOp::Delete { username: "b".to_string() });
    assert_eq!(name, "b");
    assert!(matches!(op, StoreOp::Delete(n) if n == "b"));
}

#[test]
fn changes_go_to_every_peer() {
    assert_eq!(
        state().fanout(),
        vec!["http://n2:8090/internal/replicate", "http://n3:8090/internal/replicate"]
    );
}

#[test]
fn catching_up_asks_every_peer_thirty_times() {
    let peers = state().peers;
    let mut c = CatchUp::new();
    let mut asked = Vec::new();
    let mut pauses = 0;
    loop {
        match c.next(&peers) {
            CatchUpStep::Fetch(url) => asked.push(url),
            CatchUpStep::Pause => pauses += 1,
            CatchUpStep::GiveUp => break,
        }
    }
    assert_eq!(asked.len(), 60);
    assert_eq!(pauses, 30);
    assert_eq!(asked[0], "http://n2:8090/internal/users-full");
    assert_eq!(asked[59], "http://n3:8090/internal/users-full");
    assert!(matches!(CatchUp::new().next(&Vec::new()), CatchUpStep::GiveUp));
}

#[test]
fn snapshots_are_taken_from_good_answers() {
    assert_eq!(snapshot(200, Some(vec![record("a")])).unwrap()[0].username, "a");
    assert!(snapshot(299, Some(vec![])).is_some());
    assert!(snapshot(300, Some(vec![record("a")])).is_none());
    assert!(snapshot(199, Some(vec![record("a")])).is_none());
    assert!(snapshot(200, None).is_none());
}

#[test]
fn cluster_status_tells_the_configuration() {
    let mut s = state();
    s.cluster.node_id = 2;
    s.cluster.node_grpc_addrs = vec!["1@n1:5363".to_string()];
    let c = s.cluster_status(Health::Initializing);
    assert_eq!(c.node_id, 2);
    assert_eq!(c.leader_id, 1);
    assert!(!c.enabled);
    assert_eq!(c.node_grpc_addrs, vec!["1@n1:5363"]);
    assert!(c.raft_peer_addrs.is_empty());
    assert!(matches!(c.health, Health::Initializing));
}
