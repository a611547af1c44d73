//! Letting clients in. A connection attempt goes through steps: some end it,
//! the others say what has to be looked up or computed before it can go on.
use crate::acl;
use crate::acl::{AuthInfo, AuthInfoView};
use crate::api;
use crate::api::{AppState, AppView, CreateView, OpView};
use crate::cache;
use crate::cache::{AuthCacheView, UserCacheView};
use crate::db;
use crate::db::{Directory, UserRecord, UserView};
use crate::text;
use sha2::{Digest, Sha256};
use vstd::prelude::*;
use vstd::utf8::*;

verus! {

/// The SHA-256 digest of data.
pub uninterp spec fn sha256(data: Seq<u8>) -> Seq<u8>;

/// `sha2::Sha256::digest`: the digest of the data.
#[verifier::external_body]
fn sha256_digest(data: &[u8]) -> (r: [u8; 32])
    ensures
        r@ == sha256(data@),
{
    Sha256::digest(data).into()
}

/// The key under which good credentials are cached.
pub open spec fn key_of(username: Seq<char>, password: Seq<char>) -> Seq<u8> {
    sha256(db::credential(username, password))
}

/// The key under which good credentials are cached.
pub fn auth_key(username: &str, password: &str) -> (r: [u8; 32])
    ensures
        r@ == key_of(username@, password@),
{
    let data = db::credential_bytes(username, password);
    sha256_digest(data.as_slice())
}

/// What a client is told in the end.
#[derive(Clone, Debug)]
pub enum Verdict {
    /// It is let in, as a superuser or not, with its access rules if it has any.
    Allow { superuser: bool, auth: Option<AuthInfo> },
    BadUsernameOrPassword,
    NotAuthorized,
}

/// What a client is told in the end.
pub enum VerdictView {
    Allow { superuser: bool, auth: Option<AuthInfoView> },
    BadUsernameOrPassword,
    NotAuthorized,
}

impl View for Verdict {
    type V = VerdictView;

    open spec fn view(&self) -> VerdictView {
        match self {
            Verdict::Allow { superuser, auth } => VerdictView::Allow {
                superuser: *superuser,
                auth: match auth {
                    Some(a) => Some(a@),
                    None => None,
                },
            },
            Verdict::BadUsernameOrPassword => VerdictView::BadUsernameOrPassword,
            Verdict::NotAuthorized => VerdictView::NotAuthorized,
        }
    }
}

/// What a client has presented.
#[derive(Clone, Debug)]
pub struct Credentials {
    pub username: String,
    pub password: String,
    pub client_id: String,
}

/// What a client has presented.
pub struct CredentialsView {
    pub username: Seq<char>,
    pub password: Seq<char>,
    pub client_id: Seq<char>,
}

impl View for Credentials {
    type V = CredentialsView;

    open spec fn view(&self) -> CredentialsView {
        CredentialsView {
            username: self.username@,
            password: self.password@,
            client_id: self.client_id@,
        }
    }
}

/// A client whose user is known, but not yet whether the password is right.
#[derive(Clone, Debug)]
pub struct Attempt {
    pub user: UserRecord,
    pub presented: Credentials,
}

/// A client whose user is known, but not yet whether the password is right.
pub struct AttemptView {
    pub user: UserView,
    pub presented: CredentialsView,
}

impl View for Attempt {
    type V = AttemptView;

    open spec fn view(&self) -> AttemptView {
        AttemptView { user: self.user@, presented: self.presented@ }
    }
}

/// How a connection attempt goes on.
#[derive(Clone, Debug)]
pub enum AuthStep {
    /// It is over.
    Done(Verdict),
    /// The user has to be looked up in the directory.
    FindUser(Credentials),
    /// The verifier of the user has to be looked up in the directory.
    FetchVerifier(Attempt),
    /// The password has to be checked against the hash.
    CheckPassword(Attempt),
}

/// How a connection attempt goes on.
pub enum StepView {
    Done(VerdictView),
    FindUser(CredentialsView),
    FetchVerifier(AttemptView),
    CheckPassword(AttemptView),
}

impl View for AuthStep {
    type V = StepView;

    open spec fn view(&self) -> StepView {
        match self {
            AuthStep::Done(v) => StepView::Done(v@),
            AuthStep::FindUser(c) => StepView::FindUser(c@),
            AuthStep::FetchVerifier(a) => StepView::FetchVerifier(a@),
            AuthStep::CheckPassword(a) => StepView::CheckPassword(a@),
        }
    }
}

/// What the directory says of a user.
#[derive(Clone, Debug)]
pub enum Found {
    User(UserRecord),
    Nobody,
    Failed,
}

/// What the directory says of a user.
pub enum FoundView {
    User(UserView),
    Nobody,
    Failed,
}

impl View for Found {
    type V = FoundView;

    open spec fn view(&self) -> FoundView {
        match self {
            Found::User(u) => FoundView::User(u@),
            Found::Nobody => FoundView::Nobody,
            Found::Failed => FoundView::Failed,
        }
    }
}

/// The answer to a client that is turned away for its credentials.
pub open spec fn denied() -> StepView {
    StepView::Done(VerdictView::BadUsernameOrPassword)
}

/// The answer to a client whose password is right.
pub open spec fn allowed(acl: crate::config::AclView, a: AttemptView) -> VerdictView {
    VerdictView::Allow {
        superuser: a.user.superuser,
        auth: Some(
            acl::auth_info(a.user, acl, Some(a.presented.username), a.presented.client_id),
        ),
    }
}

/// What a client has presented, if it is a user name and a password that can be
/// right: neither is missing or empty, and the password is text.
pub open spec fn presented(
    username: Option<Seq<char>>,
    password: Option<Seq<u8>>,
    client_id: Seq<char>,
) -> Option<CredentialsView> {
    match (username, password) {
        (Some(u), Some(p)) => if valid_utf8(p) && u.len() > 0 && decode_utf8(p).len() > 0 {
            Some(CredentialsView { username: u, password: decode_utf8(p), client_id })
        } else {
            None
        },
        _ => None,
    }
}

/// How an attempt goes on once the user is known: it is over if the credentials
/// were found good before; else a verifier is asked for where there is a
/// pepper, and the password is checked where there is none.
pub open spec fn user_known(s: AppView, a: AttemptView, now: int) -> StepView {
    let key = key_of(a.presented.username, a.presented.password);
    if cache::looked_up(s.auth_cache.entries, key, now) is Some {
        StepView::Done(allowed(s.acl, a))
    } else if s.pepper is Some {
        StepView::FetchVerifier(a)
    } else {
        StepView::CheckPassword(a)
    }
}

/// The first step of a connection attempt.
pub open spec fn begun(
    s: AppView,
    username: Option<Seq<char>>,
    password: Option<Seq<u8>>,
    client_id: Seq<char>,
    now: int,
) -> StepView {
    if s.auth_disabled {
        StepView::Done(VerdictView::Allow { superuser: true, auth: None })
    } else {
        match presented(username, password, client_id) {
            Some(c) => match cache::looked_up(s.users.entries, c.username, now) {
                Some(user) => user_known(s, AttemptView { user, presented: c }, now),
                None => StepView::FindUser(c),
            },
            None => denied(),
        }
    }
}

/// The state once the directory has been asked for a user.
pub open spec fn user_cached(
    s: AppView,
    c: CredentialsView,
    found: FoundView,
    now: int,
) -> AppView {
    match found {
        FoundView::User(u) => AppView {
            users: UserCacheView {
                entries: cache::added(s.users.entries, c.username, u, s.users.ttl, now),
                ..s.users
            },
            ..s
        },
        _ => s,
    }
}

/// The step after the directory has been asked for a user.
pub open spec fn looked_up_user(
    s: AppView,
    c: CredentialsView,
    found: FoundView,
    now: int,
) -> StepView {
    match found {
        FoundView::User(u) => user_known(s, AttemptView { user: u, presented: c }, now),
        FoundView::Nobody => denied(),
        FoundView::Failed => StepView::Done(VerdictView::NotAuthorized),
    }
}

/// The state once credentials were found good.
pub open spec fn credentials_cached(s: AppView, a: AttemptView, now: int) -> AppView {
    let key = key_of(a.presented.username, a.presented.password);
    AppView {
        auth_cache: AuthCacheView {
            entries: cache::added(
                s.auth_cache.entries,
                key,
                a.user.superuser,
                s.auth_cache.ttl,
                now,
            ),
            ..s.auth_cache
        },
        ..s
    }
}

/// Whether a verifier from the directory shows that the password is right.
pub open spec fn verifier_fits(s: AppView, a: AttemptView, stored: Option<Seq<u8>>) -> bool {
    match (s.pepper, stored) {
        (Some(pepper), Some(v)) => v == db::verifier_of(
            pepper,
            a.presented.username,
            a.presented.password,
        ),
        _ => false,
    }
}

/// The bytes of an optional run of bytes.
pub open spec fn bytes_of(b: Option<&[u8]>) -> Option<Seq<u8>> {
    match b {
        Some(x) => Some(x@),
        None => None,
    }
}

fn allow(state: &AppState, a: Attempt) -> (r: Verdict)
    ensures
        r@ == allowed(state@.acl, a@),
{
    let auth = acl::build_auth_info(
        &a.user,
        &state.acl,
        Some(a.presented.username.as_str()),
        a.presented.client_id.as_str(),
    );
    Verdict::Allow { superuser: a.user.superuser, auth: Some(auth) }
}

fn with_user(state: &AppState, a: Attempt, now: u128) -> (r: AuthStep)
    ensures
        r@ == user_known(state@, a@, now as int),
{
    let key = auth_key(a.presented.username.as_str(), a.presented.password.as_str());
    if state.auth_cache.get(&key, now).is_some() {
        AuthStep::Done(allow(state, a))
    } else if state.pepper.is_some() {
        AuthStep::FetchVerifier(a)
    } else {
        AuthStep::CheckPassword(a)
    }
}

/// Begins a connection attempt.
pub fn authenticate(
    state: &AppState,
    username: Option<&str>,
    password: Option<&[u8]>,
    client_id: &str,
    now: u128,
) -> (r: AuthStep)
    ensures
        r@ == begun(state@, text::given(username), bytes_of(password), client_id@, now as int),
{
    if state.auth_disabled {
        return AuthStep::Done(Verdict::Allow { superuser: true, auth: None });
    }
    let (username, password) = match (username, password) {
        (Some(u), Some(p)) => (u, p),
        _ => {
            return AuthStep::Done(Verdict::BadUsernameOrPassword);
        },
    };
    let password = match text::from_utf8(password) {
        Some(p) => p,
        None => {
            return AuthStep::Done(Verdict::BadUsernameOrPassword);
        },
    };
    if text::chars_of(username).len() == 0 || text::chars_of(password.as_str()).len() == 0 {
        return AuthStep::Done(Verdict::BadUsernameOrPassword);
    }
    let presented = Credentials {
        username: username.to_owned(),
        password,
        client_id: client_id.to_owned(),
    };
    match state.users.get(presented.username.as_str(), now) {
        Some(user) => with_user(state, Attempt { user, presented }, now),
        None => AuthStep::FindUser(presented),
    }
}

/// Goes on once the directory has been asked for the user, who is cached.
pub fn user_found(state: &mut AppState, presented: Credentials, found: Found, now: u128) -> (r:
    AuthStep)
    requires
        old(state).wf(),
        now + old(state)@.users.ttl <= u128::MAX,
    ensures
        final(state).wf(),
        final(state)@ == user_cached(old(state)@, presented@, found@, now as int),
        r@ == looked_up_user(old(state)@, presented@, found@, now as int),
{
    match found {
        Found::User(user) => {
            state.users.insert(presented.username.clone(), user.duplicate(), now);
            with_user(state, Attempt { user, presented }, now)
        },
        Found::Nobody => AuthStep::Done(Verdict::BadUsernameOrPassword),
        Found::Failed => AuthStep::Done(Verdict::NotAuthorized),
    }
}

/// Goes on once the directory has been asked for the verifier: if it shows that
/// the password is right, the credentials are cached and the attempt is over.
pub fn verifier_found(state: &mut AppState, a: Attempt, stored: Option<Vec<u8>>, now: u128) -> (r:
    AuthStep)
    requires
        old(state).wf(),
        now + old(state)@.auth_cache.ttl <= u128::MAX,
    ensures
        final(state).wf(),
        ({
            let v = match stored {
                Some(b) => Some(b@),
                None => None,
            };
            if verifier_fits(old(state)@, a@, v) {
                &&& final(state)@ == credentials_cached(old(state)@, a@, now as int)
                &&& r@ == StepView::Done(allowed(old(state)@.acl, a@))
            } else {
                &&& final(state)@ == old(state)@
                &&& r@ == StepView::CheckPassword(a@)
            }
        }),
{
    let fits = match (&state.pepper, &stored) {
        (Some(pepper), Some(v)) => db::verify_fast(
            pepper.as_slice(),
            a.presented.username.as_str(),
            a.presented.password.as_str(),
            v.as_slice(),
        ),
        _ => false,
    };
    if fits {
        let key = auth_key(a.presented.username.as_str(), a.presented.password.as_str());
        state.auth_cache.insert(key, a.user.superuser, now);
        AuthStep::Done(allow(state, a))
    } else {
        AuthStep::CheckPassword(a)
    }
}

impl Attempt {
    /// Checks the password against the hash of the user.
    pub fn check_password(&self) -> (r: bool)
        ensures
            r == db::password_matches(self@.user.password_hash, self@.presented.password),
    {
        db::verify_password(self.user.password_hash.as_str(), self.presented.password.as_str())
    }
}

/// The end of a connection attempt, and the verifier to keep for the next one.
#[derive(Clone, Debug)]
pub struct Checked {
    pub verdict: Verdict,
    pub verifier: Option<(String, Vec<u8>)>,
}

/// Ends an attempt once the password was checked: if it is right, the
/// credentials are cached, and a verifier is kept where there is a pepper.
pub fn password_checked(state: &mut AppState, a: Attempt, right: bool, now: u128) -> (r: Checked)
    requires
        old(state).wf(),
        now + old(state)@.auth_cache.ttl <= u128::MAX,
    ensures
        final(state).wf(),
        right ==> {
            &&& final(state)@ == credentials_cached(old(state)@, a@, now as int)
            &&& r.verdict@ == allowed(old(state)@.acl, a@)
            &&& match (old(state)@.pepper, r.verifier) {
                (Some(pepper), Some(kept)) => kept.0@ == a@.presented.username && kept.1@
                    == db::verifier_of(pepper, a@.presented.username, a@.presented.password),
                (None, None) => true,
                _ => false,
            }
        },
        !right ==> {
            &&& final(state)@ == old(state)@
            &&& r.verdict@ == VerdictView::BadUsernameOrPassword
            &&& r.verifier is None
        },
{
    if !right {
        return Checked { verdict: Verdict::BadUsernameOrPassword, verifier: None };
    }
    let key = auth_key(a.presented.username.as_str(), a.presented.password.as_str());
    state.auth_cache.insert(key, a.user.superuser, now);
    let kept = match &state.pepper {
        Some(pepper) => Some(
            (
                a.presented.username.clone(),
                db::compute_verifier(
                    pepper.as_slice(),
                    a.presented.username.as_str(),
                    a.presented.password.as_str(),
                ),
            ),
        ),
        None => None,
    };
    Checked { verdict: allow(state, a), verifier: kept }
}

/// The end of an attempt that goes by the hash.
pub open spec fn by_password(s: AppView, a: AttemptView) -> VerdictView {
    if db::password_matches(a.user.password_hash, a.presented.password) {
        allowed(s.acl, a)
    } else {
        VerdictView::BadUsernameOrPassword
    }
}

/// The end of an attempt that goes on from a step with a known user.
pub open spec fn finished(s: AppView, step: StepView, stored: Option<Seq<u8>>) -> VerdictView {
    match step {
        StepView::Done(v) => v,
        StepView::FetchVerifier(a) => if verifier_fits(s, a, stored) {
            allowed(s.acl, a)
        } else {
            by_password(s, a)
        },
        StepView::CheckPassword(a) => by_password(s, a),
        StepView::FindUser(_) => VerdictView::NotAuthorized,
    }
}

/// The end of a whole attempt, given what the directory says of the user and of
/// the verifier when it is asked.
pub open spec fn verdict(
    s: AppView,
    username: Option<Seq<char>>,
    password: Option<Seq<u8>>,
    client_id: Seq<char>,
    found: FoundView,
    stored: Option<Seq<u8>>,
    now: int,
) -> VerdictView {
    match begun(s, username, password, client_id, now) {
        StepView::FindUser(c) => finished(s, looked_up_user(s, c, found, now), stored),
        step => finished(s, step, stored),
    }
}

/// The user that an attempt is taken to be of.
pub open spec fn user_of(
    s: AppView,
    c: CredentialsView,
    found: FoundView,
    now: int,
) -> Option<UserView> {
    match cache::looked_up(s.users.entries, c.username, now) {
        Some(u) => Some(u),
        None => match found {
            FoundView::User(u) => Some(u),
            _ => None,
        },
    }
}

/// Whether credentials are good for a user: they were found good lately, the
/// verifier fits, or the password matches the hash.
pub open spec fn is_good(
    s: AppView,
    a: AttemptView,
    stored: Option<Seq<u8>>,
    now: int,
) -> bool {
    ||| cache::looked_up(
        s.auth_cache.entries,
        key_of(a.presented.username, a.presented.password),
        now,
    ) is Some
    ||| verifier_fits(s, a, stored)
    ||| db::password_matches(a.user.password_hash, a.presented.password)
}

/// A client is let in if and only if it presents a user name and a password, the
/// user exists and the credentials are good; it gets the access rules of that
/// user. Otherwise it is told that they are bad, or that it is not authorized if
/// the directory could not be asked.
pub proof fn law_who_is_let_in(
    s: AppView,
    username: Option<Seq<char>>,
    password: Option<Seq<u8>>,
    client_id: Seq<char>,
    found: FoundView,
    stored: Option<Seq<u8>>,
    now: int,
)
    requires
        !s.auth_disabled,
    ensures
        verdict(s, username, password, client_id, found, stored, now) == (match presented(
            username,
            password,
            client_id,
        ) {
            Some(c) => match user_of(s, c, found, now) {
                Some(user) => {
                    let a = AttemptView { user, presented: c };
                    if is_good(s, a, stored, now) {
                        allowed(s.acl, a)
                    } else {
                        VerdictView::BadUsernameOrPassword
                    }
                },
                None => if found is Failed {
                    VerdictView::NotAuthorized
                } else {
                    VerdictView::BadUsernameOrPassword
                },
            },
            None => VerdictView::BadUsernameOrPassword,
        }),
{
}

/// With authentication switched off everyone is let in as a superuser.
pub proof fn law_disabled_lets_everyone_in(
    s: AppView,
    username: Option<Seq<char>>,
    password: Option<Seq<u8>>,
    client_id: Seq<char>,
    found: FoundView,
    stored: Option<Seq<u8>>,
    now: int,
)
    requires
        s.auth_disabled,
    ensures
        verdict(s, username, password, client_id, found, stored, now) == (VerdictView::Allow {
            superuser: true,
            auth: None,
        }),
{
}

/// Credentials that were found good are good without any look-up or check until
/// they expire from the cache.
pub proof fn law_good_credentials_are_remembered(s: AppView, a: AttemptView, now: int, later: int)
    requires
        s.auth_cache.ttl > 0,
        later < now + s.auth_cache.ttl,
    ensures
        user_known(credentials_cached(s, a, now), a, later) == StepView::Done(allowed(s.acl, a)),
{
}

/// The verifier that is kept when a password was found right shows it to be
/// right the next time.
pub proof fn law_kept_verifier_fits(s: AppView, a: AttemptView)
    requires
        s.pepper is Some,
    ensures
        verifier_fits(
            s,
            a,
            Some(db::verifier_of(s.pepper->0, a.presented.username, a.presented.password)),
        ),
{
}

/// What a directory says of a user.
pub open spec fn found_in(d: Directory, name: Seq<char>) -> FoundView {
    if d.users.contains_key(name) {
        FoundView::User(d.users[name])
    } else {
        FoundView::Nobody
    }
}

/// The verifier that a directory keeps of a user's password, if any.
pub open spec fn verifier_in(d: Directory, name: Seq<char>) -> Option<Seq<u8>> {
    if d.verifiers.contains_key(name) {
        Some(d.verifiers[name])
    } else {
        None
    }
}

/// A user that was deleted is turned away, whatever the password and whatever
/// was cached before.
pub proof fn law_deleted_user_is_turned_away(
    s: AppView,
    d: Directory,
    username: Seq<char>,
    password: Option<Seq<u8>>,
    client_id: Seq<char>,
    stored: Option<Seq<u8>>,
    now: int,
)
    requires
        !s.auth_disabled,
    ensures
        verdict(
            api::purged(s, username),
            Some(username),
            password,
            client_id,
            found_in(d.deleted(username), username),
            stored,
            now,
        ) == VerdictView::BadUsernameOrPassword,
{
}

/// A user that was replaced gets in with the passwords that the new hash accepts
/// and no others, whatever was cached and kept before.
pub proof fn law_replaced_user_needs_the_new_password(
    s: AppView,
    d: Directory,
    user: UserView,
    password: Option<Seq<u8>>,
    client_id: Seq<char>,
    now: int,
)
    requires
        !s.auth_disabled,
    ensures
        ({
            let after = api::followed(d, OpView::Upsert(user));
            verdict(
                api::purged(s, user.username),
                Some(user.username),
                password,
                client_id,
                found_in(after, user.username),
                verifier_in(after, user.username),
                now,
            ) is Allow <==> {
                &&& presented(Some(user.username), password, client_id) matches Some(c)
                &&& db::password_matches(user.password_hash, c.password)
            }
        }),
{
}

/// A user that was created gets in with the password that the user was created
/// with, and gets the access rules of the user that was asked for.
pub proof fn law_created_user_gets_in(
    s: AppView,
    d: Directory,
    req: CreateView,
    hash: Seq<char>,
    client_id: Seq<char>,
    stored: Option<Seq<u8>>,
    now: int,
)
    requires
        !s.auth_disabled,
        api::refusal(req) is None,
        db::password_matches(hash, req.password),
        !d.users.contains_key(req.username),
        cache::looked_up(s.users.entries, req.username, now) is None,
    ensures
        ({
            let user = api::requested_user(req, hash);
            verdict(
                s,
                Some(req.username),
                Some(encode_utf8(req.password)),
                client_id,
                found_in(d.inserted(user), req.username),
                stored,
                now,
            ) == (VerdictView::Allow {
                superuser: req.superuser,
                auth: Some(acl::auth_info(user, s.acl, Some(req.username), client_id)),
            })
        }),
{
    encode_utf8_valid_utf8(req.password);
    encode_utf8_decode_utf8(req.password);
    assert(req.password.len() > 0);
    assert(req.username.len() > 0);
}

/// What can be a user id stands for itself in an access rule.
pub proof fn law_user_ids_are_plain(userid: Seq<char>)
    requires
        api::segment_ok(userid),
    ensures
        acl::is_plain(userid),
        acl::is_literal(userid),
        userid.len() > 0,
{
    assert forall|c: char| userid.contains(c) implies api::is_segment_char(c) by {
        let i = choose|i: int| 0 <= i < userid.len() && userid[i] == c;
        assert(api::is_segment_char(userid[i]));
    }
    assert(userid.len() > 0);
    assert(userid.contains(userid[0]));
    reveal_strlit("${username}");
    reveal_strlit("${clientid}");
    text::lemma_holds_needs_first(userid, "${username}"@);
    text::lemma_holds_needs_first(userid, "${clientid}"@);
}

/// What a client presents, an attempt, a step and an answer of the directory are
/// seen as what they hold.
pub proof fn law_attempts_as_seen(c: Credentials, a: Attempt, u: UserRecord, v: Verdict)
    ensures
        c@.username == c.username@,
        c@.password == c.password@,
        c@.client_id == c.client_id@,
        a@.user == a.user@,
        a@.presented == a.presented@,
        Found::User(u)@ == FoundView::User(u@),
        Found::Nobody@ is Nobody,
        Found::Failed@ is Failed,
        AuthStep::Done(v)@ == StepView::Done(v@),
        AuthStep::FindUser(c)@ == StepView::FindUser(c@),
        AuthStep::FetchVerifier(a)@ == StepView::FetchVerifier(a@),
        AuthStep::CheckPassword(a)@ == StepView::CheckPassword(a@),
        Verdict::BadUsernameOrPassword@ is BadUsernameOrPassword,
        Verdict::NotAuthorized@ is NotAuthorized,
        v matches Verdict::Allow { superuser, auth } ==> {
            &&& v@ is Allow
            &&& v@->superuser == superuser
            &&& v@->auth is Some <==> auth is Some
            &&& auth matches Some(i) ==> v@->auth == Some(i@)
        },
{
}

/// Optional bytes are the bytes where there are some.
pub proof fn law_bytes_given(b: Option<&[u8]>)
    ensures
        bytes_of(b) is Some <==> b is Some,
        b matches Some(x) ==> bytes_of(b) == Some(x@),
{
}

/// Good credentials are remembered under the digest of the whole user name, a zero
/// byte and the whole password.
pub proof fn law_keys(username: Seq<char>, password: Seq<char>)
    ensures
        key_of(username, password) == sha256(
            encode_utf8(username) + seq![0u8] + encode_utf8(password),
        ),
{
}

/// A client presents credentials if it names a user and gives a password that is
/// text, neither of them empty; they are taken as they are.
pub proof fn law_what_is_presented(
    username: Option<Seq<char>>,
    password: Option<Seq<u8>>,
    client_id: Seq<char>,
    text: Seq<char>,
)
    ensures
        presented(username, password, client_id) is Some <==> {
            &&& username is Some && username->0.len() > 0
            &&& password is Some && valid_utf8(password->0) && password->0.len() > 0
        },
        username is Some && username->0.len() > 0 && text.len() > 0 ==> presented(
            username,
            Some(encode_utf8(text)),
            client_id,
        ) == Some(CredentialsView { username: username->0, password: text, client_id }),
{
    encode_utf8_valid_utf8(text);
    encode_utf8_decode_utf8(text);
    if password is Some && valid_utf8(password->0) {
        decode_utf8_encode_utf8(password->0);
        if decode_utf8(password->0).len() == 0 {
            assert(decode_utf8(password->0) =~= Seq::empty());
            assert(encode_utf8(Seq::<char>::empty()).len() == 0);
        }
    }
}

/// A login goes on by what is known: with an unknown user by asking the directory,
/// with known good credentials not at all, else with a pepper by asking for the
/// verifier, and without one by checking the password.
pub proof fn law_steps_of_a_login(
    s: AppView,
    username: Seq<char>,
    password: Seq<char>,
    client_id: Seq<char>,
    user: UserView,
    now: int,
)
    requires
        !s.auth_disabled,
        username.len() > 0,
        password.len() > 0,
    ensures
        ({
            let c = CredentialsView { username, password, client_id };
            let a = AttemptView { user, presented: c };
            let key = sha256(encode_utf8(username) + seq![0u8] + encode_utf8(password));
            let first = begun(s, Some(username), Some(encode_utf8(password)), client_id, now);
            let next = if s.auth_cache.entries.contains_key(key) && now
                < s.auth_cache.entries[key].1 {
                StepView::Done(
                    VerdictView::Allow {
                        superuser: user.superuser,
                        auth: Some(acl::auth_info(user, s.acl, Some(username), client_id)),
                    },
                )
            } else if s.pepper is Some {
                StepView::FetchVerifier(a)
            } else {
                StepView::CheckPassword(a)
            };
            &&& !(s.users.entries.contains_key(username) && now < s.users.entries[username].1)
                ==> first == StepView::FindUser(c)
            &&& s.users.entries.contains_key(username) && now < s.users.entries[username].1
                && s.users.entries[username].0 == user ==> first == next
            &&& looked_up_user(s, c, FoundView::User(user), now) == next
            &&& looked_up_user(s, c, FoundView::Nobody, now) == StepView::Done(
                VerdictView::BadUsernameOrPassword,
            )
            &&& looked_up_user(s, c, FoundView::Failed, now) == StepView::Done(
                VerdictView::NotAuthorized,
            )
        }),
{
    encode_utf8_valid_utf8(password);
    encode_utf8_decode_utf8(password);
}

/// Without credentials a client is turned away at once, and with authentication
/// switched off it is let in at once.
pub proof fn law_first_steps(
    s: AppView,
    username: Option<Seq<char>>,
    password: Option<Seq<u8>>,
    client_id: Seq<char>,
    now: int,
)
    ensures
        s.auth_disabled ==> begun(s, username, password, client_id, now) == StepView::Done(
            VerdictView::Allow { superuser: true, auth: None },
        ),
        !s.auth_disabled && (username is None || password is None || username->0.len() == 0
            || password->0.len() == 0 || !valid_utf8(password->0)) ==> begun(
            s,
            username,
            password,
            client_id,
            now,
        ) == StepView::Done(VerdictView::BadUsernameOrPassword),
{
    law_what_is_presented(username, password, client_id, Seq::empty());
}

/// A client that the rules let in gets the flag of the user and the access rules
/// that follow from the user's record.
pub proof fn law_what_is_allowed(s: AppView, a: AttemptView)
    ensures
        allowed(s.acl, a) == (VerdictView::Allow {
            superuser: a.user.superuser,
            auth: Some(
                acl::auth_info(a.user, s.acl, Some(a.presented.username), a.presented.client_id),
            ),
        }),
{
}

/// A stored verifier fits if there is a pepper and it is the code of the whole
/// credentials under it.
pub proof fn law_which_verifiers_fit(s: AppView, a: AttemptView, stored: Option<Seq<u8>>)
    ensures
        verifier_fits(s, a, stored) <==> {
            &&& s.pepper is Some
            &&& stored is Some
            &&& stored->0 == db::hmac_sha256(
                s.pepper->0,
                encode_utf8(a.presented.username) + seq![0u8] + encode_utf8(a.presented.password),
            )
        },
{
}

/// Who is told what, by the credentials: the user is the one that is cached or
/// that the directory found, and the credentials are good if they were found good
/// before, if the verifier is their code, or if the hash was made of the password.
pub proof fn law_login(
    s: AppView,
    username: Seq<char>,
    password: Seq<char>,
    client_id: Seq<char>,
    user: UserView,
    stored: Option<Seq<u8>>,
    now: int,
)
    requires
        !s.auth_disabled,
        username.len() > 0,
        password.len() > 0,
        s.users.entries.contains_key(username) && now < s.users.entries[username].1
            ==> s.users.entries[username].0 == user,
    ensures
        ({
            let bytes = encode_utf8(username) + seq![0u8] + encode_utf8(password);
            let key = sha256(bytes);
            let good = {
                ||| s.auth_cache.entries.contains_key(key) && now < s.auth_cache.entries[key].1
                ||| s.pepper is Some && stored is Some && stored->0 == db::hmac_sha256(
                    s.pepper->0,
                    bytes,
                )
                ||| db::phc_costs(user.password_hash) is Some && db::lanes_in(
                    db::phc_costs(user.password_hash)->0,
                ) < 0x2000_0000 && db::argon2_accepts(user.password_hash, encode_utf8(password))
            };
            verdict(
                s,
                Some(username),
                Some(encode_utf8(password)),
                client_id,
                FoundView::User(user),
                stored,
                now,
            ) == (if good {
                VerdictView::Allow {
                    superuser: user.superuser,
                    auth: Some(acl::auth_info(user, s.acl, Some(username), client_id)),
                }
            } else {
                VerdictView::BadUsernameOrPassword
            })
        }),
{
    encode_utf8_valid_utf8(password);
    encode_utf8_decode_utf8(password);
}

/// A user that the directory found is cached under the name that was presented,
/// and nothing else changes; nothing is cached if there is none, or if the cache is
/// turned off.
pub proof fn law_found_users_are_remembered(
    s: AppView,
    c: CredentialsView,
    user: UserView,
    now: int,
    other: Seq<char>,
)
    ensures
        s.users.ttl == 0 ==> user_cached(s, c, FoundView::User(user), now) == s,
        s.users.ttl > 0 ==> ({
            let after = user_cached(s, c, FoundView::User(user), now);
            let e = after.users.entries;
            &&& e.contains_key(c.username) && e[c.username].0 == user && e[c.username].1 == now
                + s.users.ttl
            &&& other != c.username ==> e.contains_key(other) == s.users.entries.contains_key(
                other,
            ) && e[other] == s.users.entries[other]
            &&& after.users.ttl == s.users.ttl
            &&& after == AppView { users: after.users, ..s }
        }),
        user_cached(s, c, FoundView::Nobody, now) == s,
        user_cached(s, c, FoundView::Failed, now) == s,
{
}

/// Good credentials are cached under the digest of them, with the flag of the
/// user, unless the cache is turned off, and nothing else changes.
pub proof fn law_good_credentials_are_cached(
    s: AppView,
    a: AttemptView,
    now: int,
    other: Seq<u8>,
)
    ensures
        s.auth_cache.ttl == 0 ==> credentials_cached(s, a, now) == s,
        s.auth_cache.ttl > 0 ==> ({
            let key = sha256(
                encode_utf8(a.presented.username) + seq![0u8] + encode_utf8(a.presented.password),
            );
            let after = credentials_cached(s, a, now);
            let e = after.auth_cache.entries;
            &&& e.contains_key(key) && e[key] == (a.user.superuser, now + s.auth_cache.ttl)
            &&& other != key ==> e.contains_key(other) == s.auth_cache.entries.contains_key(other)
                && e[other] == s.auth_cache.entries[other]
            &&& after.auth_cache.ttl == s.auth_cache.ttl
            &&& after == AppView { auth_cache: after.auth_cache, ..s }
        }),
{
}

/// Once credentials were found good, others of the same user are still checked,
/// unless their digests are the same.
pub proof fn law_other_passwords_are_still_checked(
    s: AppView,
    a: AttemptView,
    password: Seq<char>,
    now: int,
    later: int,
)
    requires
        s.auth_cache.entries == Map::<Seq<u8>, (bool, int)>::empty(),
        sha256(encode_utf8(a.presented.username) + seq![0u8] + encode_utf8(password)) != sha256(
            encode_utf8(a.presented.username) + seq![0u8] + encode_utf8(a.presented.password),
        ),
    ensures
        ({
            let b = AttemptView {
                presented: CredentialsView { password, ..a.presented },
                ..a
            };
            let step = user_known(credentials_cached(s, a, now), b, later);
            step == StepView::FetchVerifier(b) || step == StepView::CheckPassword(b)
        }),
{
}

/// What the directory says of a user, and which verifier it keeps, is what it holds
/// under the name.
pub proof fn law_what_the_directory_says(d: Directory, name: Seq<char>)
    ensures
        d.users.contains_key(name) ==> found_in(d, name) == FoundView::User(d.users[name]),
        !d.users.contains_key(name) ==> found_in(d, name) is Nobody,
        d.verifiers.contains_key(name) ==> verifier_in(d, name) == Some(d.verifiers[name]),
        !d.verifiers.contains_key(name) ==> verifier_in(d, name) is None,
{
}

} // verus!
