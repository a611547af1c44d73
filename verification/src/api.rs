//! The management API: who may call it, what each call does to the users and
//! the caches, what is answered, and how the nodes keep their users alike.
use crate::cache::{AuthCache, AuthCacheView, UserCache, UserCacheView};
use crate::config::{AclConfig, AclView, ClusterConfig};
use crate::db;
use crate::db::{Directory, NewUser, UserRecord, UserView};
use crate::text;
use crate::vault::VaultClient;
use vstd::prelude::*;
use vstd::utf8::*;

verus! {

/// The token of the management API, the one before it, and when the vault was
/// last asked for it.
#[derive(Clone, Debug)]
pub struct TokenPair {
    pub current: String,
    pub previous: Option<String>,
    pub refreshed_at: Option<u128>,
}

/// The token of the management API, the one before it, and when the vault was
/// last asked for it.
pub struct TokenView {
    pub current: Seq<char>,
    pub previous: Option<Seq<char>>,
    pub refreshed_at: Option<int>,
}

/// The text of an optional string.
pub open spec fn text_of(s: Option<String>) -> Option<Seq<char>> {
    match s {
        Some(t) => Some(t@),
        None => None,
    }
}

impl View for TokenPair {
    type V = TokenView;

    open spec fn view(&self) -> TokenView {
        TokenView {
            current: self.current@,
            previous: text_of(self.previous),
            refreshed_at: match self.refreshed_at {
                Some(at) => Some(at as int),
                None => None,
            },
        }
    }
}

impl Default for TokenPair {
    fn default() -> (r: Self)
        ensures
            r@ == (TokenView { current: Seq::empty(), previous: None, refreshed_at: None }),
    {
        let r = TokenPair { current: String::new(), previous: None, refreshed_at: None };
        assert(r@.current =~= Seq::empty());
        r
    }
}

impl TokenView {
    /// Whether a token is accepted: the current one or the one before it.
    pub open spec fn accepts(self, presented: Seq<char>) -> bool {
        presented == self.current || self.previous == Some(presented)
    }

    /// Whether the vault was asked so lately that it is not asked again.
    pub open spec fn is_fresh(self, now: int) -> bool {
        self.refreshed_at matches Some(at) && now - at < REFRESH_NANOS
    }

    /// The tokens after the vault has handed out one.
    pub open spec fn rotated(self, new: Seq<char>) -> TokenView {
        if new == self.current {
            self
        } else {
            TokenView { current: new, previous: Some(self.current), ..self }
        }
    }
}

/// How long the vault is left alone once it was asked: five seconds.
pub const REFRESH_NANOS: u128 = 5_000_000_000;

/// What a node knows beside its user directory.
pub struct AppState {
    pub token: TokenPair,
    pub acl: AclConfig,
    pub auth_cache: AuthCache,
    pub users: UserCache,
    pub peers: Vec<String>,
    pub auth_disabled: bool,
    pub pepper: Option<Vec<u8>>,
    pub vault: Option<VaultClient>,
    pub cluster: ClusterConfig,
}

/// What a node knows beside its user directory.
pub struct AppView {
    pub token: TokenView,
    pub acl: AclView,
    pub auth_cache: AuthCacheView,
    pub users: UserCacheView,
    pub peers: Seq<Seq<char>>,
    pub auth_disabled: bool,
    pub pepper: Option<Seq<u8>>,
    pub vault: Option<Seq<char>>,
    pub cluster: ClusterConfig,
}

impl View for AppState {
    type V = AppView;

    open spec fn view(&self) -> AppView {
        AppView {
            token: self.token@,
            acl: self.acl@,
            auth_cache: self.auth_cache@,
            users: self.users@,
            peers: text::texts(self.peers@),
            auth_disabled: self.auth_disabled,
            pepper: match self.pepper {
                Some(p) => Some(p@),
                None => None,
            },
            vault: match self.vault {
                Some(v) => Some(v@),
                None => None,
            },
            cluster: self.cluster,
        }
    }
}

impl AppState {
    /// What holds of every state.
    pub open spec fn wf(&self) -> bool {
        self.auth_cache.wf() && self.users.wf()
    }

    /// Whether a token is accepted.
    pub fn token_matches(&self, presented: &str) -> (r: bool)
        ensures
            r == self@.token.accepts(presented@),
    {
        if text::str_eq(presented, self.token.current.as_str()) {
            return true;
        }
        match &self.token.previous {
            Some(p) => text::str_eq(p.as_str(), presented),
            None => false,
        }
    }

    /// The current token.
    pub fn current_token(&self) -> (r: String)
        ensures
            r@ == self@.token.current,
    {
        self.token.current.clone()
    }

    /// Begins to fetch the token anew: the secret to ask the vault for, if there
    /// is a vault and it was not asked within the last five seconds.
    pub fn refresh_token(&mut self, now: u128) -> (r: Option<String>)
        requires
            old(self).wf(),
        ensures
            final(self).wf(),
            r is Some <==> old(self)@.vault is Some && !old(self)@.token.is_fresh(now as int),
            r matches Some(url) ==> url@ == crate::vault::secret_url(
                old(self)@.vault->0,
                "ciqada/api-token"@,
            ),
            final(self)@ == (if r is Some {
                AppView {
                    token: TokenView { refreshed_at: Some(now as int), ..old(self)@.token },
                    ..old(self)@
                }
            } else {
                old(self)@
            }),
    {
        let url = match &self.vault {
            Some(v) => v.secret_url("ciqada/api-token"),
            None => {
                return None;
            },
        };
        if let Some(at) = self.token.refreshed_at {
            if now < at || now - at < REFRESH_NANOS {
                return None;
            }
        }
        self.token.refreshed_at = Some(now);
        Some(url)
    }

    /// Takes over the token that the vault has handed out, if it has.
    pub fn token_fetched(&mut self, fetched: Option<String>)
        requires
            old(self).wf(),
        ensures
            final(self).wf(),
            final(self)@ == (match fetched {
                Some(new) => AppView { token: old(self)@.token.rotated(new@), ..old(self)@ },
                None => old(self)@,
            }),
    {
        if let Some(new) = fetched {
            if !text::str_eq(self.token.current.as_str(), new.as_str()) {
                let mut current = new;
                std::mem::swap(&mut self.token.current, &mut current);
                self.token.previous = Some(current);
            }
        }
    }
}

/// The token of an `Authorization` header, if it is a bearer token.
pub fn bearer_token(header: Option<&str>) -> (r: Option<String>)
    ensures
        match r {
            Some(t) => header matches Some(h) && h@ == "Bearer "@ + t@,
            None => header matches Some(h) ==> !text::begins_with(h@, "Bearer "@),
        },
{
    match header {
        Some(h) => {
            let r = text::strip_prefix(h, "Bearer ");
            proof {
                if r is Some {
                    let n = "Bearer "@.len() as int;
                    assert(h@ =~= h@.take(n) + h@.skip(n));
                }
            }
            r
        },
        None => None,
    }
}

/// What is done with a request by its token.
#[derive(Clone, Copy, Debug, PartialEq, Eq, Structural)]
pub enum Gate {
    /// It is served.
    Pass,
    /// The token is fetched anew; the request is served if it matches then.
    Refresh,
    /// It is answered that the token is missing or invalid.
    Reject,
}

impl AppState {
    /// What is done with a request that presents a token, or none.
    pub fn require_token(&self, presented: Option<&str>) -> (r: Gate)
        ensures
            r == (match presented {
                Some(t) => if self@.token.accepts(t@) {
                    Gate::Pass
                } else {
                    Gate::Refresh
                },
                None => Gate::Reject,
            }),
    {
        match presented {
            Some(t) => if self.token_matches(t) {
                Gate::Pass
            } else {
                Gate::Refresh
            },
            None => Gate::Reject,
        }
    }
}

/// Whether a token opens the API, given what the vault hands out when asked for
/// a new one.
pub open spec fn admits(
    t: TokenView,
    presented: Option<Seq<char>>,
    fetched: Option<Seq<char>>,
) -> bool {
    match presented {
        Some(p) => t.accepts(p) || (match fetched {
            Some(new) => t.rotated(new).accepts(p),
            None => false,
        }),
        None => false,
    }
}

/// A rotation keeps the token that was current and takes the new one; every
/// other that is accepted then was accepted before.
pub proof fn law_rotation_keeps_the_last_token(t: TokenView, new: Seq<char>, other: Seq<char>)
    ensures
        t.rotated(new).accepts(new),
        t.rotated(new).accepts(t.current),
        t.rotated(new).accepts(other) ==> other == new || t.accepts(other),
        new != t.current && other != new && other != t.current ==> !t.rotated(new).accepts(other),
{
}

/// Once the vault was asked it is left alone for five seconds.
pub proof fn law_vault_is_left_alone(t: TokenView, asked_at: int, now: int)
    requires
        now < asked_at + 5_000_000_000,
    ensures
        (TokenView { refreshed_at: Some(asked_at), ..t }).is_fresh(now),
{
}

/// A request without a token is never served, and one with a token only if it is
/// the current one, the one before it, or the one that the vault hands out.
pub proof fn law_only_valid_tokens_are_admitted(
    t: TokenView,
    presented: Option<Seq<char>>,
    fetched: Option<Seq<char>>,
)
    ensures
        presented is None ==> !admits(t, presented, fetched),
        presented is Some ==> (admits(t, presented, fetched) <==> presented == Some(t.current)
            || presented == t.previous || presented == fetched),
        admits(t, presented, fetched) ==> presented == Some(t.current) || presented == t.previous
            || presented == fetched,
{
}

/// What the list of users tells of one: all but the password hash.
#[derive(Clone, Debug)]
pub struct UserSummary {
    pub username: String,
    pub userid: String,
    pub superuser: bool,
    pub admin: bool,
}

/// What the list of users tells of one: all but the password hash.
pub struct SummaryView {
    pub username: Seq<char>,
    pub userid: Seq<char>,
    pub superuser: bool,
    pub admin: bool,
}

impl View for UserSummary {
    type V = SummaryView;

    open spec fn view(&self) -> SummaryView {
        SummaryView {
            username: self.username@,
            userid: self.userid@,
            superuser: self.superuser,
            admin: self.admin,
        }
    }
}

/// What the list of users tells of one.
pub open spec fn summary(u: UserView) -> SummaryView {
    SummaryView {
        username: u.username,
        userid: u.userid,
        superuser: u.superuser,
        admin: u.admin,
    }
}

/// What an answer carries.
#[derive(Clone, Debug)]
pub enum Body {
    Empty,
    Error(String),
    Created { username: String, userid: String },
    Users(Vec<UserSummary>),
    Records(Vec<UserRecord>),
}

/// What an answer carries.
pub enum BodyView {
    Empty,
    Error(Seq<char>),
    Created { username: Seq<char>, userid: Seq<char> },
    Users(Seq<SummaryView>),
    Records(Seq<UserView>),
}

impl View for Body {
    type V = BodyView;

    open spec fn view(&self) -> BodyView {
        match self {
            Body::Empty => BodyView::Empty,
            Body::Error(m) => BodyView::Error(m@),
            Body::Created { username, userid } => BodyView::Created {
                username: username@,
                userid: userid@,
            },
            Body::Users(users) => BodyView::Users(Seq::new(users@.len(), |i: int| users@[i]@)),
            Body::Records(users) => BodyView::Records(db::record_views(users@)),
        }
    }
}

/// The answer to a request.
#[derive(Clone, Debug)]
pub struct Reply {
    pub status: u16,
    pub body: Body,
}

/// The answer to a request.
pub struct ReplyView {
    pub status: u16,
    pub body: BodyView,
}

impl View for Reply {
    type V = ReplyView;

    open spec fn view(&self) -> ReplyView {
        ReplyView { status: self.status, body: self.body@ }
    }
}

/// An answer that something is wrong.
pub open spec fn error_reply(status: u16, message: Seq<char>) -> ReplyView {
    ReplyView { status, body: BodyView::Error(message) }
}

/// The answer to a request that cannot be served as it is.
pub fn bad_request(message: &str) -> (r: Reply)
    ensures
        r@ == error_reply(400, message@),
        r.status == 400,
        r.body matches Body::Error(m) && m@ == message@,
{
    Reply { status: 400, body: Body::Error(message.to_owned()) }
}

/// The answer to a request that could not be served.
pub fn internal_error() -> (r: Reply)
    ensures
        r@ == error_reply(500, "internal error"@),
        r.status == 500,
        r.body matches Body::Error(m) && m@ == "internal error"@,
{
    Reply { status: 500, body: Body::Error("internal error".to_owned()) }
}

/// The answer to a request without a valid token.
pub fn unauthorized() -> (r: Reply)
    ensures
        r@ == error_reply(401, "invalid or missing bearer token"@),
        r.status == 401,
        r.body matches Body::Error(m) && m@ == "invalid or missing bearer token"@,
{
    Reply { status: 401, body: Body::Error("invalid or missing bearer token".to_owned()) }
}

/// A letter, a digit, an underscore or a hyphen.
pub open spec fn is_segment_char(c: char) -> bool {
    ||| 'A' <= c <= 'Z'
    ||| 'a' <= c <= 'z'
    ||| '0' <= c <= '9'
    ||| c == '_'
    ||| c == '-'
}

/// A printable ASCII character other than the space.
pub open spec fn is_graphic(c: char) -> bool {
    '!' <= c <= '~'
}

/// Whether a text can be a user id: 1 to 64 letters, digits, underscores and
/// hyphens.
pub open spec fn segment_ok(s: Seq<char>) -> bool {
    &&& 1 <= encode_utf8(s).len() <= 64
    &&& forall|i: int| 0 <= i < s.len() ==> is_segment_char(#[trigger] s[i])
}

/// Whether a text can be a user name: 1 to 128 printable ASCII characters
/// without spaces.
pub open spec fn username_ok(s: Seq<char>) -> bool {
    &&& 1 <= encode_utf8(s).len() <= 128
    &&& forall|i: int| 0 <= i < s.len() ==> is_graphic(#[trigger] s[i])
}

/// Whether a text can be a user id.
pub fn valid_segment(s: &str) -> (r: bool)
    ensures
        r == segment_ok(s@),
{
    let n = s.as_bytes().len();
    if n == 0 || n > 64 {
        return false;
    }
    let chars = text::chars_of(s);
    let mut i: usize = 0;
    while i < chars.len()
        invariant
            i <= chars.len(),
            chars@ == s@,
            forall|j: int| 0 <= j < i ==> is_segment_char(#[trigger] s@[j]),
        decreases chars.len() - i,
    {
        let c = chars[i];
        if !(('A' <= c && c <= 'Z') || ('a' <= c && c <= 'z') || ('0' <= c && c <= '9') || c == '_'
            || c == '-') {
            assert(!is_segment_char(s@[i as int]));
            return false;
        }
        i += 1;
    }
    true
}

/// Whether a text can be a user name.
pub fn valid_username(s: &str) -> (r: bool)
    ensures
        r == username_ok(s@),
{
    let n = s.as_bytes().len();
    if n == 0 || n > 128 {
        return false;
    }
    let chars = text::chars_of(s);
    let mut i: usize = 0;
    while i < chars.len()
        invariant
            i <= chars.len(),
            chars@ == s@,
            forall|j: int| 0 <= j < i ==> is_graphic(#[trigger] s@[j]),
        decreases chars.len() - i,
    {
        let c = chars[i];
        if !('!' <= c && c <= '~') {
            assert(!is_graphic(s@[i as int]));
            return false;
        }
        i += 1;
    }
    true
}

/// A request to create a user.
#[derive(Clone, Debug)]
pub struct CreateUser {
    pub username: String,
    pub userid: String,
    pub password: String,
    pub superuser: bool,
    pub admin: bool,
}

/// A request to create a user.
pub struct CreateView {
    pub username: Seq<char>,
    pub userid: Seq<char>,
    pub password: Seq<char>,
    pub superuser: bool,
    pub admin: bool,
}

impl View for CreateUser {
    type V = CreateView;

    open spec fn view(&self) -> CreateView {
        CreateView {
            username: self.username@,
            userid: self.userid@,
            password: self.password@,
            superuser: self.superuser,
            admin: self.admin,
        }
    }
}

/// What is wrong with a request to create a user, if anything.
pub open spec fn refusal(req: CreateView) -> Option<Seq<char>> {
    if !username_ok(req.username) {
        Some("username must be 1-128 printable ascii chars without spaces"@)
    } else if !segment_ok(req.userid) {
        Some("userid must be 1-64 chars of [A-Za-z0-9_-]"@)
    } else if !(1 <= encode_utf8(req.password).len() <= 512) {
        Some("password must be 1-512 bytes"@)
    } else {
        None
    }
}

/// The user that a request asks for, with a password hash.
pub open spec fn requested_user(req: CreateView, hash: Seq<char>) -> UserView {
    UserView {
        username: req.username,
        userid: req.userid,
        password_hash: hash,
        superuser: req.superuser,
        admin: req.admin,
    }
}

/// A user that is about to be created, with the verifier of the password where
/// there is a pepper.
#[derive(Clone, Debug)]
pub struct Creation {
    pub request: CreateUser,
    pub verifier: Option<Vec<u8>>,
}

/// Whether a verifier is the one that a pepper gives for credentials, or none
/// where there is no pepper.
pub open spec fn is_verifier(
    kept: Option<Vec<u8>>,
    pepper: Option<Seq<u8>>,
    username: Seq<char>,
    password: Seq<char>,
) -> bool {
    match (kept, pepper) {
        (Some(v), Some(p)) => v@ == db::verifier_of(p, username, password),
        (None, None) => true,
        _ => false,
    }
}

/// Begins to create a user: refuses what cannot be a user.
pub fn create_user(state: &AppState, req: CreateUser) -> (r: Result<Creation, Reply>)
    ensures
        match r {
            Ok(c) => refusal(req@) is None && c.request@ == req@ && is_verifier(
                c.verifier,
                state@.pepper,
                req@.username,
                req@.password,
            ),
            Err(reply) => refusal(req@) matches Some(m) && reply@ == error_reply(400, m),
        },
{
    if !valid_username(req.username.as_str()) {
        return Err(bad_request("username must be 1-128 printable ascii chars without spaces"));
    }
    if !valid_segment(req.userid.as_str()) {
        return Err(bad_request("userid must be 1-64 chars of [A-Za-z0-9_-]"));
    }
    let n = req.password.as_str().as_bytes().len();
    if n == 0 || n > 512 {
        return Err(bad_request("password must be 1-512 bytes"));
    }
    let kept = match &state.pepper {
        Some(p) => Some(
            db::compute_verifier(p.as_slice(), req.username.as_str(), req.password.as_str()),
        ),
        None => None,
    };
    Ok(Creation { request: req, verifier: kept })
}

impl Creation {
    /// Hashes the password of the user.
    pub fn hash_password(&self, m_cost: u32, t_cost: u32, p_cost: u32) -> (r: Result<
        String,
        db::HashError,
    >)
        ensures
            match r {
                Ok(hash) => {
                    &&& db::hash_verdict(self.request@.password, m_cost, t_cost, p_cost) is Ok
                    &&& db::password_matches(hash@, self.request@.password)
                    &&& text::begins_with(hash@, db::hash_front(m_cost, t_cost, p_cost))
                },
                Err(e) => db::hash_verdict(self.request@.password, m_cost, t_cost, p_cost)
                    == Err::<(), db::HashError>(e),
            },
    {
        db::hash_password(self.request.password.as_str(), m_cost, t_cost, p_cost)
    }

    /// The user to be inserted into the directory.
    pub fn new_user(&self, hash: &str) -> (r: NewUser)
        ensures
            r@ == requested_user(self.request@, hash@),
            r.username@ == self.request.username@,
            r.userid@ == self.request.userid@,
            r.password_hash@ == hash@,
            r.superuser == self.request.superuser,
            r.admin == self.request.admin,
    {
        NewUser {
            username: self.request.username.clone(),
            userid: self.request.userid.clone(),
            password_hash: hash.to_owned(),
            superuser: self.request.superuser,
            admin: self.request.admin,
        }
    }
}

/// A change of the directory that the other nodes have to follow.
#[derive(Clone, Debug)]
pub enum ReplOp {
    Upsert { user: UserRecord },
    Delete { username: String },
}

/// A change of the directory that the other nodes have to follow.
pub enum OpView {
    Upsert(UserView),
    Delete(Seq<char>),
}

impl View for ReplOp {
    type V = OpView;

    open spec fn view(&self) -> OpView {
        match self {
            ReplOp::Upsert { user } => OpView::Upsert(user@),
            ReplOp::Delete { username } => OpView::Delete(username@),
        }
    }
}

/// A change, if there is one.
pub open spec fn op_of(op: Option<ReplOp>) -> Option<OpView> {
    match op {
        Some(o) => Some(o@),
        None => None,
    }
}

/// The end of a request: the answer, the verifier to keep, and what the other
/// nodes are told.
#[derive(Clone, Debug)]
pub struct Outcome {
    pub reply: Reply,
    pub keep: Option<(String, Vec<u8>)>,
    pub tell: Option<ReplOp>,
}

/// Ends the creation of a user, once the directory says whether the user was
/// inserted, or has failed: if so, the verifier is kept and the other nodes are
/// told.
pub fn user_inserted(c: Creation, hash: String, inserted: Option<bool>) -> (r: Outcome)
    ensures
        r.reply@ == (match inserted {
            Some(true) => ReplyView {
                status: 201,
                body: BodyView::Created {
                    username: c.request@.username,
                    userid: c.request@.userid,
                },
            },
            Some(false) => error_reply(409, "user already exists"@),
            None => error_reply(500, "internal error"@),
        }),
        inserted == Some(true) ==> {
            &&& op_of(r.tell) == Some(OpView::Upsert(requested_user(c.request@, hash@)))
            &&& match (r.keep, c.verifier) {
                (Some(k), Some(v)) => k.0@ == c.request@.username && k.1 == v,
                (None, None) => true,
                _ => false,
            }
        },
        inserted != Some(true) ==> r.tell is None && r.keep is None,
        inserted == Some(true) ==> {
            &&& r.reply.status == 201
            &&& r.reply.body matches Body::Created { username, userid }
            &&& username@ == c.request.username@
            &&& userid@ == c.request.userid@
        },
        inserted == Some(true) ==> {
            &&& r.tell matches Some(ReplOp::Upsert { user })
            &&& user.username@ == c.request.username@
            &&& user.userid@ == c.request.userid@
            &&& user.password_hash@ == hash@
            &&& user.superuser == c.request.superuser
            &&& user.admin == c.request.admin
        },
        inserted == Some(false) ==> r.reply.status == 409,
        inserted is None ==> r.reply.status == 500,
{
    match inserted {
        Some(true) => {
            let user = c.new_user(hash.as_str()).into_record();
            let name = c.request.username.clone();
            let keep = match c.verifier {
                Some(v) => Some((name, v)),
                None => None,
            };
            let body = Body::Created { username: c.request.username, userid: c.request.userid };
            Outcome {
                reply: Reply { status: 201, body },
                keep,
                tell: Some(ReplOp::Upsert { user }),
            }
        },
        Some(false) => Outcome {
            reply: Reply { status: 409, body: Body::Error("user already exists".to_owned()) },
            keep: None,
            tell: None,
        },
        None => Outcome { reply: internal_error(), keep: None, tell: None },
    }
}

/// The state once everything cached of a user is forgotten.
pub open spec fn purged(s: AppView, username: Seq<char>) -> AppView {
    AppView {
        auth_cache: AuthCacheView { entries: Map::empty(), ..s.auth_cache },
        users: UserCacheView { entries: s.users.entries.remove(username), ..s.users },
        ..s
    }
}

/// Ends the deletion of a user, once the directory says whether there was one,
/// or has failed: if so, the caches forget the user and the other nodes are
/// told.
pub fn user_deleted(state: &mut AppState, username: &str, existed: Option<bool>) -> (r: Outcome)
    requires
        old(state).wf(),
    ensures
        final(state).wf(),
        final(state)@ == (if existed == Some(true) {
            purged(old(state)@, username@)
        } else {
            old(state)@
        }),
        r.reply@ == (match existed {
            Some(true) => ReplyView { status: 204, body: BodyView::Empty },
            Some(false) => error_reply(404, "user not found"@),
            None => error_reply(500, "internal error"@),
        }),
        op_of(r.tell) == (if existed == Some(true) {
            Some(OpView::Delete(username@))
        } else {
            None
        }),
        r.keep is None,
        existed == Some(true) ==> {
            &&& r.reply.status == 204
            &&& r.tell matches Some(ReplOp::Delete { username: told })
            &&& told@ == username@
        },
        existed != Some(true) ==> r.tell is None,
        existed == Some(false) ==> r.reply.status == 404,
        existed is None ==> r.reply.status == 500,
{
    match existed {
        Some(true) => {
            state.auth_cache.purge_user(username);
            state.users.purge(username);
            Outcome {
                reply: Reply { status: 204, body: Body::Empty },
                keep: None,
                tell: Some(ReplOp::Delete { username: username.to_owned() }),
            }
        },
        Some(false) => Outcome {
            reply: Reply { status: 404, body: Body::Error("user not found".to_owned()) },
            keep: None,
            tell: None,
        },
        None => Outcome { reply: internal_error(), keep: None, tell: None },
    }
}

/// The answer to a request for the list of users.
pub fn list_users(listed: Option<Vec<UserRecord>>) -> (r: Reply)
    ensures
        r@ == (match listed {
            Some(users) => ReplyView {
                status: 200,
                body: BodyView::Users(
                    db::record_views(users@).map_values(|u: UserView| summary(u)),
                ),
            },
            None => error_reply(500, "internal error"@),
        }),
        listed matches Some(users) ==> {
            &&& r.status == 200
            &&& r.body matches Body::Users(told)
            &&& told@.len() == users@.len()
            &&& forall|i: int|
                0 <= i < users@.len() ==> {
                    &&& (#[trigger] told@[i]).username@ == users@[i].username@
                    &&& told@[i].userid@ == users@[i].userid@
                    &&& told@[i].superuser == users@[i].superuser
                    &&& told@[i].admin == users@[i].admin
                }
        },
        listed is None ==> r.status == 500,
{
    match listed {
        Some(users) => {
            let ghost all = db::record_views(users@).map_values(|u: UserView| summary(u));
            let mut out: Vec<UserSummary> = Vec::new();
            for u in it: users
                invariant
                    it.seq() == users@,
                    all == db::record_views(users@).map_values(|u: UserView| summary(u)),
                    out@.len() == it.index(),
                    forall|i: int|
                        0 <= i < out@.len() ==> {
                            &&& (#[trigger] out@[i])@ == all[i]
                            &&& out@[i].username@ == users@[i].username@
                            &&& out@[i].userid@ == users@[i].userid@
                            &&& out@[i].superuser == users@[i].superuser
                            &&& out@[i].admin == users@[i].admin
                        },
            {
                out.push(
                    UserSummary {
                        username: u.username,
                        userid: u.userid,
                        superuser: u.superuser,
                        admin: u.admin,
                    },
                );
            }
            assert(Seq::new(out@.len(), |i: int| out@[i]@) =~= all);
            Reply { status: 200, body: Body::Users(out) }
        },
        None => internal_error(),
    }
}

/// The answer to a node that asks for all users.
pub fn users_full(listed: Option<Vec<UserRecord>>) -> (r: Reply)
    ensures
        r@ == (match listed {
            Some(users) => ReplyView {
                status: 200,
                body: BodyView::Records(db::record_views(users@)),
            },
            None => error_reply(500, "internal error"@),
        }),
        listed matches Some(users) ==> {
            &&& r.status == 200
            &&& r.body matches Body::Records(told)
            &&& told@.len() == users@.len()
            &&& forall|i: int|
                0 <= i < users@.len() ==> {
                    &&& (#[trigger] told@[i]).username@ == users@[i].username@
                    &&& told@[i].userid@ == users@[i].userid@
                    &&& told@[i].password_hash@ == users@[i].password_hash@
                    &&& told@[i].superuser == users@[i].superuser
                    &&& told@[i].admin == users@[i].admin
                }
        },
        listed is None ==> r.status == 500,
{
    match listed {
        Some(users) => Reply { status: 200, body: Body::Records(users) },
        None => internal_error(),
    }
}

/// What the directory is asked to do to follow another node.
#[derive(Clone, Debug)]
pub enum StoreOp {
    Upsert(NewUser),
    Delete(String),
}

/// The name of the user that a change is about.
pub open spec fn name_in(op: OpView) -> Seq<char> {
    match op {
        OpView::Upsert(u) => u.username,
        OpView::Delete(name) => name,
    }
}

/// A directory after it has done something.
pub open spec fn done(d: Directory, op: StoreOp) -> Directory {
    match op {
        StoreOp::Upsert(u) => d.upserted(seq![u@]),
        StoreOp::Delete(name) => d.deleted(name@),
    }
}

/// A directory after a change of another node.
pub open spec fn followed(d: Directory, op: OpView) -> Directory {
    match op {
        OpView::Upsert(u) => d.put(u),
        OpView::Delete(name) => d.deleted(name),
    }
}

/// What the directory has to do to follow another node, and the name of the
/// user that it is about.
pub fn replicate(op: ReplOp) -> (r: (StoreOp, String))
    ensures
        match (op@, r.0) {
            (OpView::Upsert(u), StoreOp::Upsert(n)) => n@ == u,
            (OpView::Delete(name), StoreOp::Delete(n)) => n@ == name,
            _ => false,
        },
        forall|d: Directory| #[trigger] done(d, r.0) == followed(d, op@),
        r.1@ == name_in(op@),
{
    match op {
        ReplOp::Upsert { user } => {
            let name = user.username.clone();
            let new = user.into_new();
            proof {
                assert forall|d: Directory| #[trigger]
                    done(d, StoreOp::Upsert(new)) == followed(d, op@) by {
                    let one = seq![new@];
                    assert(one.drop_last() =~= Seq::empty());
                    assert(d.upserted(one.drop_last()) == d);
                }
            }
            (StoreOp::Upsert(new), name)
        },
        ReplOp::Delete { username } => {
            let name = username.clone();
            (StoreOp::Delete(username), name)
        },
    }
}

/// Ends a replication, once the directory has followed, or has failed: if it
/// has followed, the caches forget the user.
pub fn replicated(state: &mut AppState, username: &str, followed: bool) -> (r: Reply)
    requires
        old(state).wf(),
    ensures
        final(state).wf(),
        final(state)@ == (if followed {
            purged(old(state)@, username@)
        } else {
            old(state)@
        }),
        r@ == (if followed {
            ReplyView { status: 204, body: BodyView::Empty }
        } else {
            error_reply(500, "internal error"@)
        }),
{
    if !followed {
        return internal_error();
    }
    state.auth_cache.purge_user(username);
    state.users.purge(username);
    Reply { status: 204, body: Body::Empty }
}

/// The addresses at which the other nodes are told of a change.
pub open spec fn replicate_urls(peers: Seq<Seq<char>>) -> Seq<Seq<char>> {
    peers.map_values(|base: Seq<char>| base + "/internal/replicate"@)
}

impl AppState {
    /// The addresses at which the other nodes are told of a change.
    pub fn fanout(&self) -> (r: Vec<String>)
        ensures
            text::texts(r@) == replicate_urls(self@.peers),
    {
        let mut r: Vec<String> = Vec::new();
        let ghost all = replicate_urls(self@.peers);
        let mut i: usize = 0;
        while i < self.peers.len()
            invariant
                i <= self.peers.len(),
                all == replicate_urls(self@.peers),
                r@.len() == i,
                forall|j: int| 0 <= j < i ==> (#[trigger] r@[j])@ == all[j],
            decreases self.peers.len() - i,
        {
            r.push(text::concat(self.peers[i].as_str(), "/internal/replicate"));
            i += 1;
        }
        assert(text::texts(r@) =~= all);
        r
    }
}

/// What the cluster is configured to be, and how it is.
#[derive(Clone, Debug)]
pub struct ClusterStatus {
    pub node_id: u64,
    pub enabled: bool,
    pub leader_id: u64,
    pub node_grpc_addrs: Vec<String>,
    pub raft_peer_addrs: Vec<String>,
    pub health: Health,
}

/// How the cluster is.
#[derive(Clone, Debug)]
pub enum Health {
    /// What it says of itself.
    Report(String),
    /// Why it did not say.
    Failed(String),
    /// The broker does not run yet.
    Initializing,
}

impl AppState {
    /// The answer to a request for the status of the cluster.
    pub fn cluster_status(&self, health: Health) -> (r: ClusterStatus)
        ensures
            r.node_id == self.cluster.node_id,
            r.enabled == self.cluster.enabled,
            r.leader_id == self.cluster.leader_id,
            text::texts(r.node_grpc_addrs@) == text::texts(self.cluster.node_grpc_addrs@),
            text::texts(r.raft_peer_addrs@) == text::texts(self.cluster.raft_peer_addrs@),
            r.health == health,
    {
        ClusterStatus {
            node_id: self.cluster.node_id,
            enabled: self.cluster.enabled,
            leader_id: self.cluster.leader_id,
            node_grpc_addrs: text::copy_strings(&self.cluster.node_grpc_addrs),
            raft_peer_addrs: text::copy_strings(&self.cluster.raft_peer_addrs),
            health,
        }
    }
}

/// How often each node is asked for its users when this one starts.
pub const CATCH_UP_ROUNDS: u32 = 30;

/// How long it waits after each round, in seconds.
pub const CATCH_UP_PAUSE_SECS: u64 = 2;

/// How far a node has come in asking the others for their users.
#[derive(Clone, Debug)]
pub struct CatchUp {
    pub round: u32,
    pub peer: usize,
}

/// What a node does next to catch up.
#[derive(Clone, Debug)]
pub enum CatchUpStep {
    /// Ask for the users at an address; if they come, take them over and stop.
    Fetch(String),
    /// Wait.
    Pause,
    /// Nobody has answered, or there is nobody to ask.
    GiveUp,
}

/// The address at which a node is asked for its users.
pub open spec fn snapshot_url(base: Seq<char>) -> Seq<char> {
    base + "/internal/users-full"@
}

impl CatchUp {
    /// The nodes, of so many, that are still asked as long as nobody answers.
    pub open spec fn asks(&self, peers: int) -> Seq<int> {
        asked(self.round as int, self.peer as int, peers)
    }

    /// The beginning: nobody was asked yet.
    pub fn new() -> (r: CatchUp)
        ensures
            r.round == 0,
            r.peer == 0,
    {
        CatchUp { round: 0, peer: 0 }
    }

    /// What to do next, as long as nobody has answered: ask one node after the
    /// other, wait, and begin again.
    pub fn next(&mut self, peers: &Vec<String>) -> (r: CatchUpStep)
        ensures
            if peers@.len() == 0 || old(self).round >= CATCH_UP_ROUNDS {
                r is GiveUp && *final(self) == *old(self)
            } else if old(self).peer < peers@.len() {
                &&& r matches CatchUpStep::Fetch(url)
                &&& url@ == snapshot_url(peers@[old(self).peer as int]@)
                &&& *final(self) == (CatchUp {
                    peer: (old(self).peer + 1) as usize,
                    ..*old(self)
                })
            } else {
                &&& r is Pause
                &&& *final(self) == (CatchUp { round: (old(self).round + 1) as u32, peer: 0 })
            },
            old(self).peer <= peers@.len() ==> old(self).asks(peers@.len() as int) == (match r {
                CatchUpStep::Fetch(_) => seq![old(self).peer as int] + final(self).asks(
                    peers@.len() as int,
                ),
                _ => final(self).asks(peers@.len() as int),
            }),
    {
        if peers.len() == 0 || self.round >= CATCH_UP_ROUNDS {
            return CatchUpStep::GiveUp;
        }
        if self.peer < peers.len() {
            let url = text::concat(peers[self.peer].as_str(), "/internal/users-full");
            self.peer += 1;
            CatchUpStep::Fetch(url)
        } else {
            self.round += 1;
            self.peer = 0;
            CatchUpStep::Pause
        }
    }
}

/// Whether an answer of another node holds users: the status says so and they
/// could be read. If so, the users to put into the directory.
pub fn snapshot(status: u16, users: Option<Vec<UserRecord>>) -> (r: Option<Vec<NewUser>>)
    ensures
        match (r, users) {
            (Some(n), Some(u)) => 200 <= status < 300 && db::new_views(n@) == db::record_views(u@),
            (None, Some(_)) => !(200 <= status < 300),
            (None, None) => true,
            (Some(_), None) => false,
        },
{
    if status < 200 || status >= 300 {
        return None;
    }
    match users {
        Some(u) => Some(db::to_new_users(u)),
        None => None,
    }
}

/// The nodes that are asked from a point on, as long as nobody answers.
pub open spec fn asked(round: int, peer: int, peers: int) -> Seq<int>
    decreases CATCH_UP_ROUNDS - round, peers - peer,
    when 0 <= peer <= peers
{
    if peers == 0 || round >= CATCH_UP_ROUNDS {
        Seq::empty()
    } else if peer < peers {
        seq![peer] + asked(round, peer + 1, peers)
    } else {
        asked(round + 1, 0, peers)
    }
}

proof fn lemma_asked(round: int, peer: int, peers: int)
    requires
        0 <= round <= CATCH_UP_ROUNDS,
        0 <= peer <= peers,
        0 < peers,
        round == CATCH_UP_ROUNDS ==> peer == 0,
    ensures
        asked(round, peer, peers).len() == (CATCH_UP_ROUNDS - round) * peers - peer,
        forall|i: int|
            0 <= i < asked(round, peer, peers).len() ==> #[trigger] asked(round, peer, peers)[i]
                == (i + peer) % peers,
    decreases CATCH_UP_ROUNDS - round, peers - peer,
{
    let s = asked(round, peer, peers);
    if round < CATCH_UP_ROUNDS {
        if peer < peers {
            lemma_asked(round, peer + 1, peers);
            let rest = asked(round, peer + 1, peers);
            assert forall|i: int| 0 <= i < s.len() implies #[trigger] s[i] == (i + peer)
                % peers by {
                if i > 0 {
                    assert(s[i] == rest[i - 1]);
                } else {
                    vstd::arithmetic::div_mod::lemma_small_mod(peer as nat, peers as nat);
                }
            }
        } else {
            lemma_asked(round + 1, 0, peers);
            assert((CATCH_UP_ROUNDS - round) * peers - peers == (CATCH_UP_ROUNDS - (round + 1))
                * peers) by (nonlinear_arith);
            assert forall|i: int| 0 <= i < s.len() implies #[trigger] s[i] == (i + peer)
                % peers by {
                assert(s[i] == i % peers);
                vstd::arithmetic::div_mod::lemma_mod_add_multiples_vanish(i, peers);
            }
        }
    } else {
        assert((CATCH_UP_ROUNDS - round) * peers == 0) by (nonlinear_arith)
            requires
                CATCH_UP_ROUNDS == round,
        ;
    }
}

/// A node that starts asks every other node in turn, thirty times over, until one
/// answers.
pub proof fn law_catch_up_asks_everyone(peers: int)
    requires
        0 < peers,
    ensures
        asked(0, 0, peers).len() == 30 * peers,
        forall|i: int|
            0 <= i < asked(0, 0, peers).len() ==> #[trigger] asked(0, 0, peers)[i] == i % peers,
{
    lemma_asked(0, 0, peers);
}

/// Nodes with the same users keep the same users: what a creation or a deletion
/// does on one node, its replication does on the others, and no more if it comes
/// twice.
pub proof fn law_nodes_stay_alike(
    here: Directory,
    there: Directory,
    user: UserView,
    name: Seq<char>,
)
    requires
        here.users == there.users,
    ensures
        !here.users.contains_key(user.username) ==> followed(there, OpView::Upsert(user)).users
            == here.inserted(user).users,
        followed(there, OpView::Delete(name)).users == here.deleted(name).users,
        followed(followed(there, OpView::Upsert(user)), OpView::Upsert(user)) == followed(
            there,
            OpView::Upsert(user),
        ),
        followed(followed(there, OpView::Delete(name)), OpView::Delete(name)) == followed(
            there,
            OpView::Delete(name),
        ),
{
    let once = followed(there, OpView::Upsert(user));
    assert(followed(once, OpView::Upsert(user)) =~= once);
    let gone = followed(there, OpView::Delete(name));
    assert(followed(gone, OpView::Delete(name)) =~= gone);
}

/// Whether a list has the users of a directory, each once under its own name.
pub open spec fn lists_users(list: Seq<UserView>, users: db::Users) -> bool {
    &&& forall|i: int|
        0 <= i < list.len() ==> users.contains_key((#[trigger] list[i]).username)
            && users[list[i].username] == list[i]
    &&& forall|name: Seq<char>| #[trigger]
        users.contains_key(name) ==> exists|i: int|
            0 <= i < list.len() && (#[trigger] list[i]).username == name
}

/// A node that takes over the users of another has all of them as the other has
/// them, and keeps those that only it has.
pub proof fn law_catch_up_takes_everything_over(
    node: Directory,
    theirs: db::Users,
    list: Seq<UserView>,
)
    requires
        lists_users(list, theirs),
    ensures
        node.upserted(list).users == node.users.union_prefer_right(theirs),
{
    let mine = node.users;
    let u = db::upserted(mine, list);
    let w = mine.union_prefer_right(theirs);
    db::law_upsert_forgets_verifiers(node, list, Seq::empty());
    assert forall|name: Seq<char>|
        #![trigger u.dom().contains(name)]
        #![trigger w.dom().contains(name)]
        #![trigger u[name]]
        u.dom().contains(name) == w.dom().contains(name) && (w.dom().contains(name) ==> u[name]
            == w[name]) by {
        lemma_takes_over(mine, theirs, list, name);
        if theirs.contains_key(name) {
            let i = choose|i: int| 0 <= i < list.len() && (#[trigger] list[i]).username == name;
            assert(list[i].username == name);
        }
    }
    assert(u =~= w);
}

/// What putting in users of a directory does under a name.
proof fn lemma_takes_over(
    mine: db::Users,
    theirs: db::Users,
    list: Seq<UserView>,
    name: Seq<char>,
)
    requires
        forall|i: int|
            0 <= i < list.len() ==> theirs.contains_key((#[trigger] list[i]).username)
                && theirs[list[i].username] == list[i],
    ensures
        ({
            let u = db::upserted(mine, list);
            if exists|i: int| 0 <= i < list.len() && (#[trigger] list[i]).username == name {
                u.contains_key(name) && u[name] == theirs[name]
            } else {
                u.contains_key(name) == mine.contains_key(name) && u[name] == mine[name]
            }
        }),
    decreases list.len(),
{
    if list.len() > 0 {
        let rest = list.drop_last();
        let n = list.len() - 1;
        assert forall|i: int| 0 <= i < rest.len() implies theirs.contains_key(
            (#[trigger] rest[i]).username,
        ) && theirs[rest[i].username] == rest[i] by {
            assert(rest[i] == list[i]);
        }
        lemma_takes_over(mine, theirs, rest, name);
        assert(list[n] == list.last());
        if list[n].username != name {
            if exists|i: int| 0 <= i < list.len() && (#[trigger] list[i]).username == name {
                let i = choose|i: int|
                    0 <= i < list.len() && (#[trigger] list[i]).username == name;
                assert(rest[i].username == name);
            }
            if exists|i: int| 0 <= i < rest.len() && (#[trigger] rest[i]).username == name {
                let i = choose|i: int|
                    0 <= i < rest.len() && (#[trigger] rest[i]).username == name;
                assert(list[i].username == name);
            }
        }
    }
}

/// A token, a state and a request are seen as what they hold.
pub proof fn law_requests_as_seen(t: TokenPair, s: AppState, c: CreateUser)
    ensures
        t@.current == t.current@,
        t@.previous is Some <==> t.previous is Some,
        t.previous matches Some(p) ==> t@.previous == Some(p@),
        t@.refreshed_at is Some <==> t.refreshed_at is Some,
        t.refreshed_at matches Some(at) ==> t@.refreshed_at == Some(at as int),
        s@.token == s.token@,
        s@.acl == s.acl@,
        s@.auth_cache == s.auth_cache@,
        s@.users == s.users@,
        s@.peers.len() == s.peers@.len(),
        forall|i: int| 0 <= i < s.peers@.len() ==> #[trigger] s@.peers[i] == s.peers@[i]@,
        s@.auth_disabled == s.auth_disabled,
        s@.pepper is Some <==> s.pepper is Some,
        s.pepper matches Some(p) ==> s@.pepper == Some(p@),
        s@.vault is Some <==> s.vault is Some,
        s.vault matches Some(v) ==> s@.vault == Some(v@),
        s@.cluster == s.cluster,
        c@.username == c.username@,
        c@.userid == c.userid@,
        c@.password == c.password@,
        c@.superuser == c.superuser,
        c@.admin == c.admin,
{
}

/// Answers and changes are seen as what they hold.
pub proof fn law_answers_as_seen(
    reply: Reply,
    message: String,
    told: UserSummary,
    users: Vec<UserSummary>,
    records: Vec<UserRecord>,
    record: UserRecord,
    i: int,
)
    ensures
        reply@.status == reply.status,
        reply@.body == reply.body@,
        Body::Empty@ is Empty,
        Body::Error(message)@ == BodyView::Error(message@),
        (Body::Created { username: message, userid: record.userid })@ == (BodyView::Created {
            username: message@,
            userid: record.userid@,
        }),
        Body::Users(users)@ matches BodyView::Users(seen) && seen.len() == users@.len() && (0 <= i
            < users@.len() ==> seen[i] == users@[i]@),
        Body::Records(records)@ matches BodyView::Records(seen) && seen.len() == records@.len()
            && (0 <= i < records@.len() ==> seen[i] == records@[i]@),
        told@.username == told.username@,
        told@.userid == told.userid@,
        told@.superuser == told.superuser,
        told@.admin == told.admin,
        (ReplOp::Upsert { user: record })@ == OpView::Upsert(record@),
        (ReplOp::Delete { username: message })@ == OpView::Delete(message@),
        op_of(None) is None,
        op_of(Some(ReplOp::Upsert { user: record })) == Some(OpView::Upsert(record@)),
{
}

/// What the list of users tells of one is the user's name, id and flags, each as it
/// is.
pub proof fn law_what_is_told_of_a_user(u: UserView)
    ensures
        summary(u).username == u.username,
        summary(u).userid == u.userid,
        summary(u).superuser == u.superuser,
        summary(u).admin == u.admin,
{
}

/// An answer that something is wrong has the status and says what.
pub proof fn law_what_is_told_of_an_error(status: u16, message: Seq<char>)
    ensures
        error_reply(status, message).status == status,
        error_reply(status, message).body == BodyView::Error(message),
{
}

/// A token is accepted if it is the current one or the one before it, and no other
/// is.
pub proof fn law_which_tokens_are_accepted(t: TokenView, presented: Seq<char>)
    ensures
        t.accepts(presented) <==> presented == t.current || (t.previous is Some && presented
            == t.previous->0),
{
}

/// The vault is asked again after five seconds, and if it never was.
pub proof fn law_when_the_vault_is_asked(t: TokenView, now: int)
    ensures
        t.is_fresh(now) <==> t.refreshed_at is Some && now < t.refreshed_at->0 + 5_000_000_000,
        REFRESH_NANOS == 5_000_000_000,
{
}

/// A new token becomes the current one and the one that was current is the one before
/// it; the same token changes nothing. When the vault was asked is not forgotten.
pub proof fn law_rotation(t: TokenView, new: Seq<char>)
    ensures
        t.rotated(t.current) == t,
        t.rotated(new).current == new,
        new != t.current ==> t.rotated(new).previous == Some(t.current),
        t.rotated(new).refreshed_at == t.refreshed_at,
{
}

/// A user id has 1 to 64 characters, each a letter, a digit, an underscore or a hyphen,
/// and every such text can be one.
pub proof fn law_user_ids(s: Seq<char>)
    ensures
        segment_ok(s) <==> {
            &&& 1 <= s.len() <= 64
            &&& forall|i: int|
                0 <= i < s.len() ==> {
                    let c = #[trigger] s[i];
                    'A' <= c <= 'Z' || 'a' <= c <= 'z' || '0' <= c <= '9' || c == '_' || c == '-'
                }
        },
{
    if forall|i: int| 0 <= i < s.len() ==> is_segment_char(#[trigger] s[i]) {
        assert(is_ascii_chars(s));
        is_ascii_chars_encode_utf8(s);
    }
    if forall|i: int|
        0 <= i < s.len() ==> {
            let c = #[trigger] s[i];
            'A' <= c <= 'Z' || 'a' <= c <= 'z' || '0' <= c <= '9' || c == '_' || c == '-'
        } {
        assert forall|i: int| 0 <= i < s.len() implies is_segment_char(#[trigger] s[i]) by {}
    }
}

/// A user name has 1 to 128 characters, each printable ASCII and no space, and every
/// such text can be one.
pub proof fn law_user_names(s: Seq<char>)
    ensures
        username_ok(s) <==> {
            &&& 1 <= s.len() <= 128
            &&& forall|i: int| 0 <= i < s.len() ==> ' ' < #[trigger] s[i] <= '~'
        },
{
    if forall|i: int| 0 <= i < s.len() ==> is_graphic(#[trigger] s[i]) {
        assert(is_ascii_chars(s));
        is_ascii_chars_encode_utf8(s);
    }
    if forall|i: int| 0 <= i < s.len() ==> ' ' < #[trigger] s[i] <= '~' {
        assert forall|i: int| 0 <= i < s.len() implies is_graphic(#[trigger] s[i]) by {}
    }
}

/// A user is created if the name, the id and the password, of 1 to 512 bytes, can be
/// those of one; else the answer says what is wrong, the name before the id and the id
/// before the password.
pub proof fn law_who_can_be_created(req: CreateView)
    ensures
        refusal(req) is None <==> username_ok(req.username) && segment_ok(req.userid) && 1
            <= encode_utf8(req.password).len() <= 512,
        !username_ok(req.username) ==> refusal(req) == Some(
            "username must be 1-128 printable ascii chars without spaces"@,
        ),
        username_ok(req.username) && !segment_ok(req.userid) ==> refusal(req) == Some(
            "userid must be 1-64 chars of [A-Za-z0-9_-]"@,
        ),
        username_ok(req.username) && segment_ok(req.userid) && (encode_utf8(req.password).len()
            == 0 || encode_utf8(req.password).len() > 512) ==> refusal(req) == Some(
            "password must be 1-512 bytes"@,
        ),
{
}

/// The user that is created has what was asked for, and the password only as a hash.
pub proof fn law_who_is_created(req: CreateView, hash: Seq<char>)
    ensures
        requested_user(req, hash).username == req.username,
        requested_user(req, hash).userid == req.userid,
        requested_user(req, hash).password_hash == hash,
        requested_user(req, hash).superuser == req.superuser,
        requested_user(req, hash).admin == req.admin,
{
}

/// The verifier that is kept of a password is the code of the whole user name and the
/// whole password under the pepper; without a pepper there is none.
pub proof fn law_which_verifier_is_kept(
    kept: Option<Vec<u8>>,
    pepper: Option<Seq<u8>>,
    username: Seq<char>,
    password: Seq<char>,
)
    ensures
        is_verifier(kept, pepper, username, password) <==> {
            &&& kept is Some <==> pepper is Some
            &&& kept matches Some(v) ==> v@ == db::hmac_sha256(
                pepper->0,
                encode_utf8(username) + seq![0u8] + encode_utf8(password),
            )
        },
{
}

/// Once a user is forgotten no credentials are remembered, nor is the user; every other
/// user that was cached still is, and nothing else changes.
pub proof fn law_what_is_forgotten(s: AppView, username: Seq<char>, other: Seq<char>)
    ensures
        ({
            let after = purged(s, username);
            &&& forall|key: Seq<u8>| !(#[trigger] after.auth_cache.entries.contains_key(key))
            &&& !after.users.entries.contains_key(username)
            &&& other != username ==> after.users.entries.contains_key(other)
                == s.users.entries.contains_key(other) && after.users.entries[other]
                == s.users.entries[other]
            &&& after.auth_cache.ttl == s.auth_cache.ttl
            &&& after.users.ttl == s.users.ttl
            &&& after.token == s.token && after.acl == s.acl && after.peers == s.peers
            &&& after.auth_disabled == s.auth_disabled && after.pepper == s.pepper
            &&& after.vault == s.vault && after.cluster == s.cluster
        }),
{
}

/// What a node does to follow another: it puts the user in, or deletes the user; the
/// user that the change is about has the name that the change has.
pub proof fn law_following(d: Directory, u: UserView, name: Seq<char>, new: NewUser, gone: String)
    ensures
        followed(d, OpView::Upsert(u)).users == d.users.insert(u.username, u),
        followed(d, OpView::Upsert(u)).verifiers == d.verifiers.remove(u.username),
        followed(d, OpView::Delete(name)).users == d.users.remove(name),
        followed(d, OpView::Delete(name)).verifiers == d.verifiers.remove(name),
        done(d, StoreOp::Upsert(new)).users == d.users.insert(new.username@, new@),
        done(d, StoreOp::Delete(gone)).users == d.users.remove(gone@),
        name_in(OpView::Upsert(u)) == u.username,
        name_in(OpView::Delete(name)) == name,
{
    let one = seq![new@];
    assert(one.drop_last() =~= Seq::empty());
    assert(d.upserted(one.drop_last()) == d);
}

/// The other nodes are told at their own addresses, each at one, and asked for their
/// users at another.
pub proof fn law_addresses(peers: Seq<Seq<char>>, i: int)
    requires
        0 <= i < peers.len(),
    ensures
        replicate_urls(peers).len() == peers.len(),
        replicate_urls(peers)[i] == peers[i] + "/internal/replicate"@,
        snapshot_url(peers[i]) == peers[i] + "/internal/users-full"@,
        CATCH_UP_ROUNDS == 30,
        CATCH_UP_PAUSE_SECS == 2,
{
}

/// Who is still asked follows from how far a node has come: nobody after the last round
/// or where there is nobody, else the next node and those after it, and then the next
/// round.
pub proof fn law_who_is_still_asked(c: CatchUp, peers: int)
    requires
        c.peer <= peers,
    ensures
        c.asks(peers) == asked(c.round as int, c.peer as int, peers),
        peers == 0 || c.round >= 30 ==> c.asks(peers).len() == 0,
        peers > 0 && c.round < 30 && c.peer < peers ==> c.asks(peers) == seq![c.peer as int]
            + asked(c.round as int, c.peer + 1, peers),
        peers > 0 && c.round < 30 && c.peer == peers ==> c.asks(peers) == asked(
            c.round + 1,
            0,
            peers,
        ),
{
}

} // verus!
