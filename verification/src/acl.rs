//! Access rules: what a client may subscribe to and publish, and how its rules
//! follow from its user record.
use crate::config::{AclConfig, AclView};
use crate::db::{UserRecord, UserView};
use crate::text;
use crate::topic;
use std::str::FromStr;
use vstd::prelude::*;

verus! {

/// Whether a segment belongs to the names that the broker keeps to itself.
pub open spec fn is_reserved(seg: Seq<char>) -> bool {
    seg.len() > 0 && seg[0] == '$'
}

/// Whether a segment can stand in a rule: a wildcard, or free of them.
pub open spec fn proper_segment(seg: Seq<char>) -> bool {
    seg == seq!['+'] || seg == seq!['#'] || !topic::wild(seg)
}

/// Whether a text can be the filter of a rule: `#` is the last segment, and
/// only the first is reserved.
pub open spec fn valid_filter(filter: Seq<char>) -> bool {
    let f = topic::segments(filter);
    forall|i: int|
        0 <= i < f.len() ==> {
            &&& proper_segment(#[trigger] f[i])
            &&& topic::is_multi(f[i]) ==> i == f.len() - 1
            &&& is_reserved(f[i]) ==> i == 0
        }
}

/// Whether the segments of a rule's filter accept the segments of a request.
/// Wildcards do not stand for reserved segments; a `+` that meets one decides
/// at once, by what follows it.
pub open spec fn rule_accepts(f: Seq<Seq<char>>, t: Seq<Seq<char>>) -> bool
    decreases t.len(),
{
    if t.len() == 0 {
        f.len() == 0 || topic::is_multi(f[0])
    } else if f.len() == 0 {
        false
    } else if f[0] == seq!['+'] {
        if is_reserved(t[0]) {
            f.len() == 1 || topic::is_multi(f[1])
        } else {
            rule_accepts(f.drop_first(), t.drop_first())
        }
    } else if topic::is_multi(f[0]) {
        !is_reserved(t[0])
    } else {
        f[0] == t[0] && rule_accepts(f.drop_first(), t.drop_first())
    }
}

/// What a rule is about.
#[derive(Clone, Copy, Debug, PartialEq, Eq, Structural)]
pub enum Action {
    Publish,
    Subscribe,
    All,
}

/// Whether a rule lets requests through or stops them.
#[derive(Clone, Copy, Debug, PartialEq, Eq, Structural)]
pub enum Permission {
    Allow,
    Deny,
}

/// The topics of a rule: one, or those that a filter accepts.
#[derive(Clone, Debug)]
pub enum AclTopic {
    Exact(String),
    Filter(String),
}

/// The topics of a rule: one, or those that a filter accepts.
pub enum AclTopicView {
    Exact(Seq<char>),
    Filter(Seq<char>),
}

impl View for AclTopic {
    type V = AclTopicView;

    open spec fn view(&self) -> AclTopicView {
        match self {
            AclTopic::Exact(t) => AclTopicView::Exact(t@),
            AclTopic::Filter(f) => AclTopicView::Filter(f@),
        }
    }
}

impl AclTopicView {
    /// Whether a rule on these topics is about `requested`.
    pub open spec fn hits(self, requested: Seq<char>) -> bool {
        match self {
            AclTopicView::Exact(t) => t == requested,
            AclTopicView::Filter(f) => valid_filter(f) && rule_accepts(
                topic::segments(f),
                topic::segments(requested),
            ),
        }
    }
}

/// A text with the name of the user and of the client in place of
/// `${username}` and `${clientid}`; none if it needs a user name and there is
/// none.
pub open spec fn expanded(
    s: Seq<char>,
    username: Option<Seq<char>>,
    client_id: Seq<char>,
) -> Option<Seq<char>> {
    let wants_client = text::holds(s, "${clientid}"@);
    let named = if text::holds(s, "${username}"@) {
        match username {
            Some(name) => Some(text::replaced(s, "${username}"@, name)),
            None => None,
        }
    } else {
        Some(s)
    };
    match named {
        Some(n) => Some(
            if wants_client {
                text::replaced(n, "${clientid}"@, client_id)
            } else {
                n
            },
        ),
        None => None,
    }
}

/// The topics that the text of a rule stands for: `eq` and a topic, or a
/// filter; none if it is not a rule.
pub open spec fn topic_of(
    s: Seq<char>,
    username: Option<Seq<char>>,
    client_id: Seq<char>,
) -> Option<AclTopicView> {
    if text::begins_with(s, "eq "@) {
        match expanded(s.skip(3), username, client_id) {
            Some(t) => Some(AclTopicView::Exact(t)),
            None => None,
        }
    } else if s.len() == 0 {
        None
    } else {
        match expanded(s, username, client_id) {
            Some(f) => if valid_filter(f) {
                Some(AclTopicView::Filter(f))
            } else {
                None
            },
            None => None,
        }
    }
}

/// `rmqtt::acl::Topic::try_from` on the text of a rule and a connection with the
/// given user name and client id: a text that begins with `eq ` stands for one
/// topic, any other that is not empty for a filter, once the placeholders are
/// filled in. It fails on an empty text, on a `${username}` without a user name
/// and on what is no filter. A filter prints as the text it was read from.
#[verifier::external_body]
fn acl_topic(s: &str, username: Option<&str>, client_id: &str) -> (r: Option<AclTopic>)
    ensures
        match r {
            Some(t) => topic_of(s@, text::given(username), client_id@) == Some(t@),
            None => topic_of(s@, text::given(username), client_id@) is None,
        },
{
    let id = rmqtt::types::Id::new(0, 0, None, None, client_id.into(), username.map(Into::into));
    let mut connect = rmqtt::codec::v3::Connect::default();
    connect.username = username.map(Into::into);
    let info = rmqtt::types::ConnectInfo::V3(id, Box::new(connect));
    let t = rmqtt::acl::Topic::try_from((s, &info)).ok()?;
    match (t.eq_topic_filter, t.topic_filter) {
        (Some(text), _) => Some(AclTopic::Exact(text)),
        (None, Some(f)) => Some(AclTopic::Filter(f.to_string())),
        (None, None) => None,
    }
}

/// `rmqtt::topic::Topic::from_str` and `matches_str`: whether the text is a
/// filter, and the filter accepts the requested topic, segment by segment.
#[verifier::external_body]
fn filter_matches(filter: &str, requested: &str) -> (r: bool)
    ensures
        r == AclTopicView::Filter(filter@).hits(requested@),
{
    match rmqtt::topic::Topic::from_str(filter) {
        Ok(f) => f.matches_str(requested),
        Err(_) => false,
    }
}

impl AclTopic {
    /// Whether a rule on these topics is about `requested`.
    pub fn is_match(&self, requested: &str) -> (r: bool)
        ensures
            r == self@.hits(requested@),
    {
        match self {
            AclTopic::Exact(t) => text::str_eq(t.as_str(), requested),
            AclTopic::Filter(f) => filter_matches(f.as_str(), requested),
        }
    }
}

/// What a client asks for: to subscribe to a filter, or to publish to a topic,
/// with a quality of service.
#[derive(Clone, Copy, Debug)]
pub enum Request<'a> {
    Subscribe { filter: &'a str, qos: u8 },
    Publish { topic: &'a str, qos: u8, retain: bool },
}

/// What a client asks for.
pub enum RequestView {
    Subscribe { filter: Seq<char>, qos: u8 },
    Publish { topic: Seq<char>, qos: u8, retain: bool },
}

impl<'a> View for Request<'a> {
    type V = RequestView;

    open spec fn view(&self) -> RequestView {
        match *self {
            Request::Subscribe { filter, qos } => RequestView::Subscribe { filter: filter@, qos },
            Request::Publish { topic, qos, retain } => RequestView::Publish {
                topic: topic@,
                qos,
                retain,
            },
        }
    }
}

/// A rule: what it lets through or stops, on which topics, and where it is
/// limited to qualities of service or by the retain flag, to which.
#[derive(Clone, Debug)]
pub struct Rule {
    pub permission: Permission,
    pub action: Action,
    pub qos: Option<Vec<u8>>,
    pub retain: Option<bool>,
    pub topic: AclTopic,
}

/// A rule.
pub struct RuleView {
    pub permission: Permission,
    pub action: Action,
    pub qos: Option<Seq<u8>>,
    pub retain: Option<bool>,
    pub topic: AclTopicView,
}

impl View for Rule {
    type V = RuleView;

    open spec fn view(&self) -> RuleView {
        RuleView {
            permission: self.permission,
            action: self.action,
            qos: match self.qos {
                Some(q) => Some(q@),
                None => None,
            },
            retain: self.retain,
            topic: self.topic@,
        }
    }
}

/// The rule that allows an action on topics without any limit.
pub open spec fn allowing(action: Action, topic: AclTopicView) -> RuleView {
    RuleView { permission: Permission::Allow, action, qos: None, retain: None, topic }
}

impl RuleView {
    /// Whether the rule is about requests with a quality of service.
    pub open spec fn takes_qos(self, qos: u8) -> bool {
        self.qos matches Some(q) ==> q.contains(qos)
    }

    /// Whether the rule is about messages with a retain flag: one that allows
    /// no retained messages is not about those; one that stops messages is
    /// about those with its own flag.
    pub open spec fn takes_retain(self, retain: bool) -> bool {
        self.retain matches Some(flag) ==> match self.permission {
            Permission::Allow => flag || !retain,
            Permission::Deny => flag == retain,
        }
    }

    /// Whether the rule is about a request.
    pub open spec fn applies(self, r: RequestView) -> bool {
        match r {
            RequestView::Subscribe { filter, qos } => {
                &&& self.action != Action::Publish
                &&& self.takes_qos(qos)
                &&& self.topic.hits(filter)
            },
            RequestView::Publish { topic, qos, retain } => {
                &&& self.action != Action::Subscribe
                &&& self.takes_retain(retain)
                &&& self.takes_qos(qos)
                &&& self.topic.hits(topic)
            },
        }
    }
}

/// Whether a list of qualities of service, if there is one, has this one.
fn qos_listed(list: &Option<Vec<u8>>, qos: u8) -> (r: bool)
    ensures
        r == (list matches Some(q) ==> q@.contains(qos)),
{
    let q = match list {
        Some(q) => q,
        None => {
            return true;
        },
    };
    let mut i: usize = 0;
    while i < q.len()
        invariant
            i <= q.len(),
            *list == Some(*q),
            forall|j: int| 0 <= j < i ==> q@[j] != qos,
        decreases q.len() - i,
    {
        if q[i] == qos {
            assert(q@[i as int] == qos);
            return true;
        }
        i += 1;
    }
    false
}

impl Rule {
    /// Whether the rule is about a request.
    pub fn applies(&self, r: Request) -> (b: bool)
        ensures
            b == self@.applies(r@),
    {
        match r {
            Request::Subscribe { filter, qos } => self.action != Action::Publish && qos_listed(
                &self.qos,
                qos,
            ) && self.topic.is_match(filter),
            Request::Publish { topic, qos, retain } => {
                let flagged = match self.retain {
                    Some(flag) => match self.permission {
                        Permission::Allow => flag || !retain,
                        Permission::Deny => flag == retain,
                    },
                    None => true,
                };
                self.action != Action::Subscribe && flagged && qos_listed(&self.qos, qos)
                    && self.topic.is_match(topic)
            },
        }
    }
}

/// What a client that was let in may do, and until when, in nanoseconds since
/// the epoch, if that is limited.
#[derive(Clone, Debug)]
pub struct AuthInfo {
    pub superuser: bool,
    pub expire_at: Option<u128>,
    pub rules: Vec<Rule>,
}

/// What a client that was let in may do.
pub struct AuthInfoView {
    pub superuser: bool,
    pub expire_at: Option<u128>,
    pub rules: Seq<RuleView>,
}

/// The rules of a list.
pub open spec fn rule_views(rules: Seq<Rule>) -> Seq<RuleView> {
    Seq::new(rules.len(), |i: int| rules[i]@)
}

impl View for AuthInfo {
    type V = AuthInfoView;

    open spec fn view(&self) -> AuthInfoView {
        AuthInfoView {
            superuser: self.superuser,
            expire_at: self.expire_at,
            rules: rule_views(self.rules@),
        }
    }
}

/// What the first rule that is about a request says, if there is one.
pub open spec fn decision(rules: Seq<RuleView>, r: RequestView) -> Option<Permission>
    decreases rules.len(),
{
    if rules.len() == 0 {
        None
    } else if rules[0].applies(r) {
        Some(rules[0].permission)
    } else {
        decision(rules.drop_first(), r)
    }
}

impl AuthInfoView {
    /// Whether a request is allowed: a superuser may do everything, others what
    /// the first rule about it allows.
    pub open spec fn allows(self, r: RequestView) -> bool {
        self.superuser || decision(self.rules, r) == Some(Permission::Allow)
    }
}

impl AuthInfo {
    /// Whether a request is allowed.
    pub fn allows(&self, r: Request) -> (b: bool)
        ensures
            b == self@.allows(r@),
    {
        if self.superuser {
            return true;
        }
        let ghost all = rule_views(self.rules@);
        let mut i: usize = 0;
        assert(all.skip(0) =~= all);
        while i < self.rules.len()
            invariant
                i <= self.rules.len(),
                !self.superuser,
                all == rule_views(self.rules@),
                decision(all, r@) == decision(all.skip(i as int), r@),
            decreases self.rules.len() - i,
        {
            let rule = &self.rules[i];
            assert(all.skip(i as int)[0] == rule@);
            if rule.applies(r) {
                return rule.permission == Permission::Allow;
            }
            assert(all.skip(i as int).drop_first() =~= all.skip(i + 1));
            i += 1;
        }
        false
    }
}

/// What the broker answers to a subscription.
#[derive(Clone, Copy, Debug, PartialEq, Eq, Structural)]
pub enum SubscribeVerdict {
    /// It is made with this quality of service.
    Granted(u8),
    NotAuthorized,
}

/// What the broker does with a published message.
#[derive(Clone, Copy, Debug, PartialEq, Eq, Structural)]
pub enum PublishVerdict {
    Allowed,
    RejectedAndDisconnected,
}

/// Whether a client may do what it asks for: always if access is not restricted,
/// else only with access rules that allow it.
pub open spec fn permitted(enabled: bool, auth: Option<AuthInfoView>, r: RequestView) -> bool {
    !enabled || match auth {
        Some(a) => a.allows(r),
        None => false,
    }
}

/// The access rules of an optional client.
pub open spec fn auth_of(auth: Option<&AuthInfo>) -> Option<AuthInfoView> {
    match auth {
        Some(a) => Some(a@),
        None => None,
    }
}

/// The answer to a subscription to `filter`: it is granted with the quality of
/// service that was asked for, or not at all.
pub fn check_subscribe(
    acl: &AclConfig,
    auth: Option<&AuthInfo>,
    filter: &str,
    qos: u8,
) -> (r: SubscribeVerdict)
    ensures
        r == (if permitted(
            acl.enabled,
            auth_of(auth),
            RequestView::Subscribe { filter: filter@, qos },
        ) {
            SubscribeVerdict::Granted(qos)
        } else {
            SubscribeVerdict::NotAuthorized
        }),
        r == SubscribeVerdict::Granted(qos) <==> !acl.enabled || (auth matches Some(a) && (
        a.superuser || decision(
            a@.rules,
            RequestView::Subscribe { filter: filter@, qos },
        ) == Some(Permission::Allow))),
        r is NotAuthorized || r == SubscribeVerdict::Granted(qos),
{
    if !acl.enabled {
        return SubscribeVerdict::Granted(qos);
    }
    if let Some(a) = auth {
        if a.allows(Request::Subscribe { filter, qos }) {
            return SubscribeVerdict::Granted(qos);
        }
    }
    SubscribeVerdict::NotAuthorized
}

/// What happens to a message that is published to `topic`.
pub fn check_publish(
    acl: &AclConfig,
    auth: Option<&AuthInfo>,
    topic: &str,
    qos: u8,
    retain: bool,
) -> (r: PublishVerdict)
    ensures
        r == (if permitted(
            acl.enabled,
            auth_of(auth),
            RequestView::Publish { topic: topic@, qos, retain },
        ) {
            PublishVerdict::Allowed
        } else {
            PublishVerdict::RejectedAndDisconnected
        }),
        r == PublishVerdict::Allowed <==> !acl.enabled || (auth matches Some(a) && (a.superuser
            || decision(a@.rules, RequestView::Publish { topic: topic@, qos, retain }) == Some(
            Permission::Allow,
        ))),
{
    if !acl.enabled {
        return PublishVerdict::Allowed;
    }
    if let Some(a) = auth {
        if a.allows(Request::Publish { topic, qos, retain }) {
            return PublishVerdict::Allowed;
        }
    }
    PublishVerdict::RejectedAndDisconnected
}

/// The filters for prefixes and everything below them.
pub open spec fn all_below(prefixes: Seq<Seq<char>>) -> Seq<Seq<char>> {
    prefixes.map_values(|p: Seq<char>| topic::below(p))
}

/// The filters that a user is granted: the user's own topics, what everyone
/// gets, and for an admin what admins get.
pub open spec fn granted(
    userid: Seq<char>,
    admin: bool,
    fanout: Seq<Seq<char>>,
    admin_only: Seq<Seq<char>>,
) -> Seq<Seq<char>> {
    seq![topic::own_topics(userid)] + all_below(fanout) + (if admin {
        all_below(admin_only)
    } else {
        Seq::empty()
    })
}

fn push_below(filters: &mut Vec<String>, prefixes: &Vec<String>)
    ensures
        text::texts(final(filters)@) == text::texts(old(filters)@) + all_below(
            text::texts(prefixes@),
        ),
{
    let ghost start = text::texts(filters@);
    let ghost all = all_below(text::texts(prefixes@));
    let mut i: usize = 0;
    assert(start + all.take(0) =~= start);
    while i < prefixes.len()
        invariant
            i <= prefixes.len(),
            all == all_below(text::texts(prefixes@)),
            text::texts(filters@) == start + all.take(i as int),
        decreases prefixes.len() - i,
    {
        let ghost before = text::texts(filters@);
        let f = text::concat(prefixes[i].as_str(), "/#");
        proof {
            reveal_strlit("/#");
            assert("/#"@ =~= seq!['/', '#']);
            assert(f@ =~= topic::below(prefixes@[i as int]@));
        }
        filters.push(f);
        assert(text::texts(filters@) =~= before.push(f@));
        i += 1;
        assert(start + all.take(i as int) =~= (start + all.take(i - 1)).push(all[i - 1]));
    }
    assert(all.take(i as int) =~= all);
}

/// The filters that a user is granted.
pub fn granted_filters(
    record: &UserRecord,
    fanout_prefixes: &Vec<String>,
    admin_prefixes: &Vec<String>,
) -> (r: Vec<String>)
    ensures
        text::texts(r@) == granted(
            record@.userid,
            record@.admin,
            text::texts(fanout_prefixes@),
            text::texts(admin_prefixes@),
        ),
{
    let own = text::concat(text::concat("+/", record.userid.as_str()).as_str(), "/#");
    proof {
        reveal_strlit("+/");
        reveal_strlit("/#");
        assert("+/"@ =~= seq!['+', '/']);
        assert("/#"@ =~= seq!['/', '#']);
        assert(own@ =~= topic::own_topics(record@.userid));
    }
    let mut r: Vec<String> = Vec::new();
    r.push(own);
    assert(text::texts(r@) =~= seq![topic::own_topics(record@.userid)]);
    push_below(&mut r, fanout_prefixes);
    let ghost head = text::texts(r@);
    assert(head + Seq::<Seq<char>>::empty() =~= head);
    if record.admin {
        push_below(&mut r, admin_prefixes);
    }
    r
}

/// The rules that allow an action on what the texts stand for; texts that are
/// no rules are passed over.
pub open spec fn rules_for(
    action: Action,
    texts: Seq<Seq<char>>,
    username: Option<Seq<char>>,
    client_id: Seq<char>,
) -> Seq<RuleView>
    decreases texts.len(),
{
    if texts.len() == 0 {
        Seq::empty()
    } else {
        let rest = rules_for(action, texts.drop_last(), username, client_id);
        match topic_of(texts.last(), username, client_id) {
            Some(t) => rest.push(allowing(action, t)),
            None => rest,
        }
    }
}

fn push_rule(
    rules: &mut Vec<Rule>,
    action: Action,
    s: &str,
    username: Option<&str>,
    client_id: &str,
)
    ensures
        rule_views(final(rules)@) == (match topic_of(s@, text::given(username), client_id@) {
            Some(t) => rule_views(old(rules)@).push(allowing(action, t)),
            None => rule_views(old(rules)@),
        }),
{
    let ghost before = rule_views(rules@);
    if let Some(t) = acl_topic(s, username, client_id) {
        let ghost v = t@;
        rules.push(
            Rule { permission: Permission::Allow, action, qos: None, retain: None, topic: t },
        );
        assert(rule_views(rules@) =~= before.push(allowing(action, v)));
    }
}

/// The texts of rules for single topics.
pub open spec fn exactly(topics: Seq<Seq<char>>) -> Seq<Seq<char>> {
    topics.map_values(|t: Seq<char>| "eq "@ + t)
}

/// The access rules of a user, which do not expire: none for a superuser, who
/// needs none; else to subscribe to what the user is granted and to publish to
/// the listed topics.
pub open spec fn auth_info(
    user: UserView,
    acl: AclView,
    username: Option<Seq<char>>,
    client_id: Seq<char>,
) -> AuthInfoView {
    if user.superuser {
        AuthInfoView { superuser: true, expire_at: None, rules: Seq::empty() }
    } else {
        AuthInfoView {
            superuser: false,
            expire_at: None,
            rules: rules_for(
                Action::Subscribe,
                granted(user.userid, user.admin, acl.fanout_prefixes, acl.admin_prefixes),
                username,
                client_id,
            ) + rules_for(Action::Publish, exactly(acl.publish_topics), username, client_id),
        }
    }
}

/// The access rules of a user that connects with a client id.
pub fn build_auth_info(
    record: &UserRecord,
    acl: &AclConfig,
    username: Option<&str>,
    client_id: &str,
) -> (r: AuthInfo)
    ensures
        r@ == auth_info(record@, acl@, text::given(username), client_id@),
{
    let mut rules: Vec<Rule> = Vec::new();
    assert(rule_views(rules@) =~= Seq::empty());
    if record.superuser {
        return AuthInfo { superuser: true, expire_at: None, rules };
    }
    let ghost name = text::given(username);
    let filters = granted_filters(record, &acl.fanout_prefixes, &acl.admin_prefixes);
    let ghost fs = text::texts(filters@);
    let mut i: usize = 0;
    assert(fs.take(0) =~= Seq::empty());
    while i < filters.len()
        invariant
            i <= filters.len(),
            fs == text::texts(filters@),
            name == text::given(username),
            rule_views(rules@) == rules_for(
                Action::Subscribe,
                fs.take(i as int),
                name,
                client_id@,
            ),
        decreases filters.len() - i,
    {
        push_rule(&mut rules, Action::Subscribe, filters[i].as_str(), username, client_id);
        i += 1;
        assert(fs.take(i as int).drop_last() =~= fs.take(i - 1));
        assert(fs.take(i as int).last() == fs[i - 1]);
    }
    assert(fs.take(i as int) =~= fs);
    let ghost first = rule_views(rules@);
    let ghost ts = exactly(acl@.publish_topics);
    let mut k: usize = 0;
    assert(ts.take(0) =~= Seq::empty());
    assert(first + Seq::<RuleView>::empty() =~= first);
    while k < acl.publish_topics.len()
        invariant
            k <= acl.publish_topics.len(),
            ts == exactly(acl@.publish_topics),
            name == text::given(username),
            rule_views(rules@) == first + rules_for(
                Action::Publish,
                ts.take(k as int),
                name,
                client_id@,
            ),
        decreases acl.publish_topics.len() - k,
    {
        let ghost before = rule_views(rules@);
        let eq = text::concat("eq ", acl.publish_topics[k].as_str());
        push_rule(&mut rules, Action::Publish, eq.as_str(), username, client_id);
        k += 1;
        proof {
            let sofar = rules_for(Action::Publish, ts.take(k - 1), name, client_id@);
            assert(ts.take(k as int).drop_last() =~= ts.take(k - 1));
            assert(ts.take(k as int).last() == ts[k - 1]);
            assert(eq@ == ts[k - 1]);
            if let Some(t) = topic_of(eq@, name, client_id@) {
                let v = allowing(Action::Publish, t);
                assert((first + sofar).push(v) =~= first + sofar.push(v));
            }
        }
    }
    assert(ts.take(k as int) =~= ts);
    AuthInfo { superuser: false, expire_at: None, rules }
}

/// Whether a text holds no placeholder.
pub open spec fn is_literal(s: Seq<char>) -> bool {
    !text::holds(s, "${username}"@) && !text::holds(s, "${clientid}"@)
}

/// Whether a text can be one segment of a rule that stands for itself: it has
/// neither wildcards nor slashes and is not reserved.
pub open spec fn is_plain(s: Seq<char>) -> bool {
    !topic::wild(s) && !s.contains('/') && !is_reserved(s)
}

/// Whether a text can be the prefix of a rule that stands for itself: it has no
/// wildcards, and only its first segment is reserved, if any is.
pub open spec fn is_plain_prefix(s: Seq<char>) -> bool {
    &&& !topic::wild(s)
    &&& forall|i: int|
        0 < i < topic::segments(s).len() ==> !is_reserved(#[trigger] topic::segments(s)[i])
}

/// Whether a request is for topics of a user: the second segment is the user
/// id, and none of those that wildcards stand for is reserved.
pub open spec fn is_own(requested: Seq<char>, userid: Seq<char>) -> bool {
    let t = topic::segments(requested);
    t.len() >= 2 && t[1] == userid && !is_reserved(t[0]) && (t.len() > 2 ==> !is_reserved(t[2]))
}

/// Whether a request is for a prefix or something below it that is not
/// reserved.
pub open spec fn is_below(requested: Seq<char>, prefix: Seq<char>) -> bool {
    let t = topic::segments(requested);
    let p = topic::segments(prefix);
    p.len() <= t.len() && t.take(p.len() as int) == p && (t.len() > p.len() ==> !is_reserved(
        t[p.len() as int],
    ))
}

/// Whether some text of a list is a prefix of a request.
pub open spec fn is_below_any(requested: Seq<char>, prefixes: Seq<Seq<char>>) -> bool {
    exists|i: int| 0 <= i < prefixes.len() && is_below(requested, #[trigger] prefixes[i])
}

pub proof fn lemma_own_segments(userid: Seq<char>)
    requires
        !userid.contains('/'),
    ensures
        topic::segments(topic::own_topics(userid)) == seq![seq!['+'], userid, seq!['#']],
{
    assert(topic::own_topics(userid) =~= seq!['+'] + seq!['/'] + (userid + seq!['/'] + seq!['#']));
    topic::lemma_segments_concat(seq!['+'], userid + seq!['/'] + seq!['#']);
    topic::lemma_segments_concat(userid, seq!['#']);
    text::lemma_split_single(seq!['+'], '/');
    text::lemma_split_single(userid, '/');
    text::lemma_split_single(seq!['#'], '/');
    assert(topic::segments(topic::own_topics(userid)) =~= seq![seq!['+'], userid, seq!['#']]);
}

pub proof fn lemma_below_segments(prefix: Seq<char>)
    ensures
        topic::segments(topic::below(prefix)) == topic::segments(prefix).push(seq!['#']),
{
    assert(topic::below(prefix) =~= prefix + seq!['/'] + seq!['#']);
    topic::lemma_segments_concat(prefix, seq!['#']);
    text::lemma_split_single(seq!['#'], '/');
    assert(topic::segments(topic::below(prefix)) =~= topic::segments(prefix).push(seq!['#']));
}

/// A character that a text lacks, its segments lack too.
proof fn lemma_segments_lack(s: Seq<char>, c: char, i: int)
    requires
        !s.contains(c),
        0 <= i < topic::segments(s).len(),
    ensures
        !topic::segments(s)[i].contains(c),
    decreases s.len(),
{
    text::lemma_find(s, '/');
    let k = text::find(s, '/') as int;
    if k < s.len() {
        let tail = s.skip(k + 1);
        if i == 0 {
            if s.take(k).contains(c) {
                let j = choose|j: int| 0 <= j < k && s.take(k)[j] == c;
                assert(s[j] == c);
            }
        } else {
            if tail.contains(c) {
                let j = choose|j: int| 0 <= j < tail.len() && tail[j] == c;
                assert(s[j + k + 1] == c);
            }
            lemma_segments_lack(tail, c, i - 1);
            assert(topic::segments(s)[i] == topic::segments(tail)[i - 1]);
        }
    }
}

proof fn lemma_plain_segment(s: Seq<char>, i: int)
    requires
        !topic::wild(s),
        0 <= i < topic::segments(s).len(),
    ensures
        !topic::wild(topic::segments(s)[i]),
        topic::segments(s)[i] != seq!['+'],
        !topic::is_multi(topic::segments(s)[i]),
{
    lemma_segments_lack(s, '+', i);
    lemma_segments_lack(s, '#', i);
    topic::lemma_plain_segments(s);
}

/// Plain segments and a `#` accept what begins with those segments.
proof fn lemma_accepts_below(p: Seq<Seq<char>>, t: Seq<Seq<char>>)
    requires
        forall|i: int|
            0 <= i < p.len() ==> (#[trigger] p[i]) != seq!['+'] && !topic::is_multi(p[i]),
    ensures
        rule_accepts(p.push(seq!['#']), t) <==> {
            &&& p.len() <= t.len()
            &&& t.take(p.len() as int) == p
            &&& t.len() > p.len() ==> !is_reserved(t[p.len() as int])
        },
    decreases p.len(),
{
    let f = p.push(seq!['#']);
    assert(seq!['#'][0] == '#');
    assert(seq!['+'][0] == '+');
    if p.len() == 0 {
        assert(f[0] == seq!['#']);
        assert(t.take(0) =~= p);
    } else if t.len() > 0 {
        let q = p.drop_first();
        assert(f[0] == p[0]);
        assert(f.drop_first() =~= q.push(seq!['#']));
        assert forall|i: int| 0 <= i < q.len() implies (#[trigger] q[i]) != seq!['+']
            && !topic::is_multi(q[i]) by {
            assert(q[i] == p[i + 1]);
        }
        let u = t.drop_first();
        lemma_accepts_below(q, u);
        if p.len() <= t.len() {
            if t.take(p.len() as int) == p {
                assert(t[0] == t.take(p.len() as int)[0]);
                assert(u.take(q.len() as int) =~= q) by {
                    assert forall|i: int| 0 <= i < q.len() implies u.take(q.len() as int)[i]
                        == q[i] by {
                        assert(t.take(p.len() as int)[i + 1] == p[i + 1]);
                    }
                }
            }
            if t[0] == p[0] && u.take(q.len() as int) == q {
                assert(t.take(p.len() as int) =~= p) by {
                    assert forall|i: int| 0 <= i < p.len() implies t.take(p.len() as int)[i]
                        == p[i] by {
                        if i > 0 {
                            assert(u.take(q.len() as int)[i - 1] == q[i - 1]);
                        }
                    }
                }
            }
        }
    } else {
        assert(f[0] == p[0]);
    }
}

/// The rule for a user's own topics is about exactly the requests whose second
/// segment is the user id.
pub proof fn law_own_rule(requested: Seq<char>, userid: Seq<char>)
    requires
        is_plain(userid),
    ensures
        valid_filter(topic::own_topics(userid)),
        AclTopicView::Filter(topic::own_topics(userid)).hits(requested) <==> is_own(
            requested,
            userid,
        ),
{
    lemma_own_segments(userid);
    text::lemma_split_single(userid, '/');
    lemma_plain_segment(userid, 0);
    assert(seq!['#'][0] == '#');
    assert(seq!['+'][0] == '+');
    lemma_accepts_own(requested, userid);
}

proof fn lemma_accepts_own(requested: Seq<char>, userid: Seq<char>)
    requires
        !topic::wild(userid),
        !userid.contains('/'),
    ensures
        rule_accepts(
            topic::segments(topic::own_topics(userid)),
            topic::segments(requested),
        ) <==> is_own(requested, userid),
{
    let f = topic::segments(topic::own_topics(userid));
    let t = topic::segments(requested);
    lemma_own_segments(userid);
    text::lemma_split_single(userid, '/');
    lemma_plain_segment(userid, 0);
    assert(seq!['#'][0] == '#');
    assert(seq!['+'][0] == '+');
    assert(f[0] == seq!['+'] && f[1] == userid && f[2] == seq!['#']);
    assert(f[0] != seq!['#']);
    text::lemma_split_nonempty(requested, '/');
    let g = f.drop_first();
    let h = g.drop_first();
    assert(g[0] == userid && h[0] == seq!['#']);
    let u = t.drop_first();
    let w = u.drop_first();
    if t.len() >= 2 {
        assert(u[0] == t[1]);
        if t.len() > 2 {
            assert(w[0] == t[2]);
        }
        assert(rule_accepts(f, t) == (!is_reserved(t[0]) && rule_accepts(g, u)));
        assert(rule_accepts(g, u) == (userid == t[1] && rule_accepts(h, w)));
    } else {
        assert(u.len() == 0);
        assert(!rule_accepts(g, u));
    }
}

/// The rule for a prefix is about exactly the requests for the prefix and what
/// is below it.
pub proof fn law_prefix_rule(requested: Seq<char>, prefix: Seq<char>)
    requires
        is_plain_prefix(prefix),
    ensures
        valid_filter(topic::below(prefix)),
        AclTopicView::Filter(topic::below(prefix)).hits(requested) <==> is_below(
            requested,
            prefix,
        ),
{
    let p = topic::segments(prefix);
    let f = topic::segments(topic::below(prefix));
    lemma_below_segments(prefix);
    assert(seq!['#'][0] == '#');
    assert forall|i: int| 0 <= i < f.len() implies {
        &&& proper_segment(#[trigger] f[i])
        &&& topic::is_multi(f[i]) ==> i == f.len() - 1
        &&& is_reserved(f[i]) ==> i == 0
    } by {
        if i < p.len() {
            assert(f[i] == p[i]);
            lemma_plain_segment(prefix, i);
        }
    }
    assert forall|i: int| 0 <= i < p.len() implies (#[trigger] p[i]) != seq!['+']
        && !topic::is_multi(p[i]) by {
        lemma_plain_segment(prefix, i);
    }
    lemma_accepts_below(p, topic::segments(requested));
}

/// Rules that allow something all say the same of a request.
proof fn lemma_decision(rules: Seq<RuleView>, r: RequestView)
    requires
        forall|i: int|
            0 <= i < rules.len() ==> (#[trigger] rules[i]).permission == Permission::Allow,
    ensures
        decision(rules, r) == Some(Permission::Allow) <==> exists|i: int|
            0 <= i < rules.len() && (#[trigger] rules[i]).applies(r),
    decreases rules.len(),
{
    if rules.len() > 0 && !rules[0].applies(r) {
        let rest = rules.drop_first();
        assert forall|i: int| 0 <= i < rest.len() implies (#[trigger] rest[i]).permission
            == Permission::Allow by {
            assert(rest[i] == rules[i + 1]);
        }
        lemma_decision(rest, r);
        if exists|i: int| 0 <= i < rest.len() && (#[trigger] rest[i]).applies(r) {
            let i = choose|i: int| 0 <= i < rest.len() && (#[trigger] rest[i]).applies(r);
            assert(rules[i + 1].applies(r));
        }
        if exists|i: int| 0 <= i < rules.len() && (#[trigger] rules[i]).applies(r) {
            let i = choose|i: int| 0 <= i < rules.len() && (#[trigger] rules[i]).applies(r);
            assert(rest[i - 1].applies(r));
        }
    }
}

/// Whether what a text stands for is about a request.
pub open spec fn text_hits(
    s: Seq<char>,
    username: Option<Seq<char>>,
    client_id: Seq<char>,
    requested: Seq<char>,
) -> bool {
    topic_of(s, username, client_id) matches Some(t) && t.hits(requested)
}

/// Whether what one of some texts stands for is about a request.
pub open spec fn any_hits(
    texts: Seq<Seq<char>>,
    username: Option<Seq<char>>,
    client_id: Seq<char>,
    requested: Seq<char>,
) -> bool {
    exists|j: int|
        0 <= j < texts.len() && text_hits(#[trigger] texts[j], username, client_id, requested)
}

/// The rules for texts are about a request if what one of them stands for is.
proof fn lemma_rules_for(
    action: Action,
    texts: Seq<Seq<char>>,
    username: Option<Seq<char>>,
    client_id: Seq<char>,
    requested: Seq<char>,
)
    ensures
        ({
            let rules = rules_for(action, texts, username, client_id);
            &&& forall|i: int|
                0 <= i < rules.len() ==> #[trigger] rules[i] == allowing(action, rules[i].topic)
            &&& (exists|i: int|
                0 <= i < rules.len() && (#[trigger] rules[i]).topic.hits(requested)) <==> any_hits(
                texts,
                username,
                client_id,
                requested,
            )
        }),
    decreases texts.len(),
{
    let rules = rules_for(action, texts, username, client_id);
    if texts.len() > 0 {
        let rest = texts.drop_last();
        lemma_rules_for(action, rest, username, client_id, requested);
        let had = rules_for(action, rest, username, client_id);
        let n = texts.len() - 1;
        assert(texts[n] == texts.last());
        assert forall|i: int| 0 <= i < rules.len() implies #[trigger] rules[i] == allowing(
            action,
            rules[i].topic,
        ) by {
            if i < had.len() {
                assert(rules[i] == had[i]);
            }
        }
        if exists|i: int| 0 <= i < rules.len() && (#[trigger] rules[i]).topic.hits(requested) {
            let i = choose|i: int|
                0 <= i < rules.len() && (#[trigger] rules[i]).topic.hits(requested);
            if i < had.len() {
                assert(had[i].topic.hits(requested));
                let j = choose|j: int|
                    0 <= j < rest.len() && text_hits(
                        #[trigger] rest[j],
                        username,
                        client_id,
                        requested,
                    );
                assert(texts[j] == rest[j]);
            } else {
                assert(text_hits(texts[n], username, client_id, requested));
            }
        }
        if any_hits(texts, username, client_id, requested) {
            let j = choose|j: int|
                0 <= j < texts.len() && text_hits(
                    #[trigger] texts[j],
                    username,
                    client_id,
                    requested,
                );
            if j < n {
                assert(rest[j] == texts[j]);
                let i = choose|i: int|
                    0 <= i < had.len() && (#[trigger] had[i]).topic.hits(requested);
                assert(rules[i] == had[i]);
            } else {
                assert(rules[had.len() as int].topic.hits(requested));
            }
        }
    }
}

/// A user that is no superuser may do what one of the texts of the rules for it
/// stands for, whatever the quality of service and the retain flag.
pub proof fn lemma_allowed(
    user: UserView,
    acl: AclView,
    username: Option<Seq<char>>,
    client_id: Seq<char>,
    requested: Seq<char>,
    qos: u8,
    retain: bool,
)
    requires
        !user.superuser,
    ensures
        auth_info(user, acl, username, client_id).allows(
            RequestView::Subscribe { filter: requested, qos },
        ) <==> any_hits(
            granted(user.userid, user.admin, acl.fanout_prefixes, acl.admin_prefixes),
            username,
            client_id,
            requested,
        ),
        auth_info(user, acl, username, client_id).allows(
            RequestView::Publish { topic: requested, qos, retain },
        ) <==> any_hits(exactly(acl.publish_topics), username, client_id, requested),
{
    let g = granted(user.userid, user.admin, acl.fanout_prefixes, acl.admin_prefixes);
    let e = exactly(acl.publish_topics);
    let subs = rules_for(Action::Subscribe, g, username, client_id);
    let pubs = rules_for(Action::Publish, e, username, client_id);
    let rules = auth_info(user, acl, username, client_id).rules;
    let asked = RequestView::Subscribe { filter: requested, qos };
    let sent = RequestView::Publish { topic: requested, qos, retain };
    lemma_rules_for(Action::Subscribe, g, username, client_id, requested);
    lemma_rules_for(Action::Publish, e, username, client_id, requested);
    assert forall|i: int| 0 <= i < rules.len() implies {
        &&& (#[trigger] rules[i]).permission == Permission::Allow
        &&& rules[i].applies(asked) <==> i < subs.len() && rules[i].topic.hits(requested)
        &&& rules[i].applies(sent) <==> i >= subs.len() && rules[i].topic.hits(requested)
    } by {
        if i < subs.len() {
            assert(rules[i] == subs[i]);
        } else {
            assert(rules[i] == pubs[i - subs.len()]);
        }
    }
    lemma_decision(rules, asked);
    lemma_decision(rules, sent);
    if exists|i: int| 0 <= i < rules.len() && (#[trigger] rules[i]).applies(asked) {
        let i = choose|i: int| 0 <= i < rules.len() && (#[trigger] rules[i]).applies(asked);
        assert(subs[i].topic.hits(requested));
    }
    if exists|i: int| 0 <= i < subs.len() && (#[trigger] subs[i]).topic.hits(requested) {
        let i = choose|i: int| 0 <= i < subs.len() && (#[trigger] subs[i]).topic.hits(requested);
        assert(rules[i].applies(asked));
    }
    if exists|i: int| 0 <= i < rules.len() && (#[trigger] rules[i]).applies(sent) {
        let i = choose|i: int| 0 <= i < rules.len() && (#[trigger] rules[i]).applies(sent);
        assert(pubs[i - subs.len()].topic.hits(requested));
    }
    if exists|i: int| 0 <= i < pubs.len() && (#[trigger] pubs[i]).topic.hits(requested) {
        let i = choose|i: int| 0 <= i < pubs.len() && (#[trigger] pubs[i]).topic.hits(requested);
        assert(rules[i + subs.len()] == pubs[i]);
        assert(rules[i + subs.len()].applies(sent));
    }
}

/// A text between slashes, or before them, holds the placeholders that the whole
/// holds.
proof fn lemma_literal_within(front: Seq<char>, s: Seq<char>, back: Seq<char>)
    requires
        front.len() > 0 ==> front.last() == '/',
        back.len() > 0,
        back[0] == '/',
        !front.contains('$'),
        !back.contains('$'),
        is_literal(s),
    ensures
        is_literal(front + s + back),
{
    reveal_strlit("${username}");
    reveal_strlit("${clientid}");
    lemma_not_held_within(front, s, back, "${username}"@);
    lemma_not_held_within(front, s, back, "${clientid}"@);
}

proof fn lemma_not_held_within(front: Seq<char>, s: Seq<char>, back: Seq<char>, p: Seq<char>)
    requires
        front.len() > 0 ==> front.last() == '/',
        back.len() > 0,
        back[0] == '/',
        p.len() > 0,
        p[0] == '$',
        !p.contains('/'),
        !front.contains('$'),
        !back.contains('$'),
        !text::holds(s, p),
    ensures
        !text::holds(front + s + back, p),
{
    text::lemma_holds_needs_first(front, p);
    text::lemma_holds_needs_first(back, p);
    if front.len() > 0 {
        text::lemma_not_held_across(front, s, p);
    } else {
        assert(front + s =~= s);
    }
    text::lemma_not_held_across(front + s, back, p);
}

/// Whether the rule for a user's own topics is about no others: the user id has
/// neither wildcards nor slashes and holds no placeholder.
pub open spec fn is_confined_id(userid: Seq<char>) -> bool {
    !topic::wild(userid) && !userid.contains('/') && is_literal(userid)
}

/// The rule for a user's own topics is about nothing else, if the user id stands
/// for itself, and about all of them, if it is not reserved.
pub proof fn lemma_own_hits(
    userid: Seq<char>,
    username: Option<Seq<char>>,
    client_id: Seq<char>,
    requested: Seq<char>,
)
    requires
        is_confined_id(userid),
    ensures
        text_hits(topic::own_topics(userid), username, client_id, requested) ==> is_own(
            requested,
            userid,
        ),
        is_plain(userid) && is_own(requested, userid) ==> text_hits(
            topic::own_topics(userid),
            username,
            client_id,
            requested,
        ),
{
    let s = topic::own_topics(userid);
    lemma_accepts_own(requested, userid);
    if is_plain(userid) {
        law_own_rule(requested, userid);
    }
    lemma_literal_within(seq!['+', '/'], userid, seq!['/', '#']);
    reveal_strlit("eq ");
    assert(s[0] == '+');
    if text::begins_with(s, "eq "@) {
        assert(s.take(3)[0] == 'e');
    }
}

/// Whether the rule for a prefix is about nothing but the prefix and what is
/// below it: it has no wildcards, holds no placeholder, and does not begin as
/// rules for single topics do.
pub open spec fn is_confined(prefix: Seq<char>) -> bool {
    !topic::wild(prefix) && is_literal(prefix) && !text::begins_with(prefix, "eq "@)
}

/// Whether the rule for a prefix is about the prefix and what is below it, and
/// about nothing else.
pub open spec fn stands_for_itself(prefix: Seq<char>) -> bool {
    is_confined(prefix) && is_plain_prefix(prefix)
}

/// The rule for a prefix is about what is below it and nothing else, if the
/// prefix stands for itself.
pub proof fn lemma_below_hits(
    prefix: Seq<char>,
    username: Option<Seq<char>>,
    client_id: Seq<char>,
    requested: Seq<char>,
)
    requires
        is_confined(prefix),
    ensures
        text_hits(topic::below(prefix), username, client_id, requested) ==> is_below(
            requested,
            prefix,
        ),
        stands_for_itself(prefix) && is_below(requested, prefix) ==> text_hits(
            topic::below(prefix),
            username,
            client_id,
            requested,
        ),
{
    let s = topic::below(prefix);
    let p = topic::segments(prefix);
    reveal_strlit("eq ");
    lemma_below_segments(prefix);
    assert forall|i: int| 0 <= i < p.len() implies (#[trigger] p[i]) != seq!['+']
        && !topic::is_multi(p[i]) by {
        lemma_plain_segment(prefix, i);
    }
    lemma_accepts_below(p, topic::segments(requested));
    if is_plain_prefix(prefix) {
        law_prefix_rule(requested, prefix);
    }
    assert(s =~= Seq::<char>::empty() + prefix + seq!['/', '#']);
    lemma_literal_within(Seq::empty(), prefix, seq!['/', '#']);
    if text::begins_with(s, "eq "@) {
        assert(s.take(3) =~= "eq "@);
        assert(s[2] == ' ' && s[1] == 'q' && s[0] == 'e') by {
            assert(s.take(3)[2] == ' ' && s.take(3)[1] == 'q' && s.take(3)[0] == 'e');
        }
        assert(prefix.len() >= 3);
        assert(prefix.take(3) =~= s.take(3));
    }
}

/// Whether all prefixes of a list stand for themselves.
pub open spec fn all_stand(prefixes: Seq<Seq<char>>) -> bool {
    forall|i: int| 0 <= i < prefixes.len() ==> stands_for_itself(#[trigger] prefixes[i])
}

/// Whether the rules for all prefixes of a list are about nothing but them and
/// what is below them.
pub open spec fn all_confined(prefixes: Seq<Seq<char>>) -> bool {
    forall|i: int| 0 <= i < prefixes.len() ==> is_confined(#[trigger] prefixes[i])
}

/// What a user that is no superuser may subscribe to are the user's own topics or
/// below a prefix that the user is granted.
proof fn lemma_subscribes_within(
    user: UserView,
    acl: AclView,
    username: Option<Seq<char>>,
    client_id: Seq<char>,
    requested: Seq<char>,
    qos: u8,
)
    requires
        !user.superuser,
        is_confined_id(user.userid),
        all_confined(acl.fanout_prefixes),
        user.admin ==> all_confined(acl.admin_prefixes),
        auth_info(user, acl, username, client_id).allows(
            RequestView::Subscribe { filter: requested, qos },
        ),
    ensures
        ({
            ||| is_own(requested, user.userid)
            ||| is_below_any(requested, acl.fanout_prefixes)
            ||| user.admin && is_below_any(requested, acl.admin_prefixes)
        }),
{
    let g = granted(user.userid, user.admin, acl.fanout_prefixes, acl.admin_prefixes);
    let n = acl.fanout_prefixes.len() as int;
    lemma_allowed(user, acl, username, client_id, requested, qos, false);
    let j = choose|j: int|
        0 <= j < g.len() && text_hits(#[trigger] g[j], username, client_id, requested);
    if j == 0 {
        assert(g[0] == topic::own_topics(user.userid));
        lemma_own_hits(user.userid, username, client_id, requested);
    } else if j <= n {
        let prefix = acl.fanout_prefixes[j - 1];
        assert(g[j] == topic::below(prefix));
        lemma_below_hits(prefix, username, client_id, requested);
        assert(is_below(requested, acl.fanout_prefixes[j - 1]));
    } else {
        let prefix = acl.admin_prefixes[j - n - 1];
        assert(g[j] == topic::below(prefix));
        lemma_below_hits(prefix, username, client_id, requested);
        assert(is_below(requested, acl.admin_prefixes[j - n - 1]));
    }
}

/// A user that is no superuser may subscribe to the topics whose second segment
/// is the user id, to what everyone gets, as an admin to what admins get, and
/// to nothing else.
pub proof fn law_what_a_user_may_subscribe_to(
    user: UserView,
    acl: AclView,
    username: Option<Seq<char>>,
    client_id: Seq<char>,
    requested: Seq<char>,
    qos: u8,
)
    requires
        !user.superuser,
        is_plain(user.userid),
        is_literal(user.userid),
        all_stand(acl.fanout_prefixes),
        user.admin ==> all_stand(acl.admin_prefixes),
    ensures
        auth_info(user, acl, username, client_id).allows(
            RequestView::Subscribe { filter: requested, qos },
        ) <==> {
            ||| is_own(requested, user.userid)
            ||| is_below_any(requested, acl.fanout_prefixes)
            ||| user.admin && is_below_any(requested, acl.admin_prefixes)
        },
{
    let g = granted(user.userid, user.admin, acl.fanout_prefixes, acl.admin_prefixes);
    let n = acl.fanout_prefixes.len() as int;
    lemma_allowed(user, acl, username, client_id, requested, qos, false);
    if any_hits(g, username, client_id, requested) {
        lemma_subscribes_within(user, acl, username, client_id, requested, qos);
    }
    if is_own(requested, user.userid) {
        lemma_own_hits(user.userid, username, client_id, requested);
        assert(g[0] == topic::own_topics(user.userid));
        assert(text_hits(g[0], username, client_id, requested));
    }
    if is_below_any(requested, acl.fanout_prefixes) {
        let i = choose|i: int|
            0 <= i < n && is_below(requested, #[trigger] acl.fanout_prefixes[i]);
        lemma_below_hits(acl.fanout_prefixes[i], username, client_id, requested);
        assert(g[i + 1] == topic::below(acl.fanout_prefixes[i]));
        assert(text_hits(g[i + 1], username, client_id, requested));
    }
    if user.admin && is_below_any(requested, acl.admin_prefixes) {
        let i = choose|i: int|
            0 <= i < acl.admin_prefixes.len() && is_below(
                requested,
                #[trigger] acl.admin_prefixes[i],
            );
        lemma_below_hits(acl.admin_prefixes[i], username, client_id, requested);
        assert(g[i + n + 1] == topic::below(acl.admin_prefixes[i]));
        assert(text_hits(g[i + n + 1], username, client_id, requested));
    }
}

/// Whether no text of a list holds a placeholder.
pub open spec fn all_literal(texts: Seq<Seq<char>>) -> bool {
    forall|i: int| 0 <= i < texts.len() ==> is_literal(#[trigger] texts[i])
}

/// A user that is no superuser may publish to exactly the listed topics, with
/// any quality of service, retained or not.
pub proof fn law_what_a_user_may_publish_to(
    user: UserView,
    acl: AclView,
    username: Option<Seq<char>>,
    client_id: Seq<char>,
    requested: Seq<char>,
    qos: u8,
    retain: bool,
)
    requires
        !user.superuser,
        all_literal(acl.publish_topics),
    ensures
        auth_info(user, acl, username, client_id).allows(
            RequestView::Publish { topic: requested, qos, retain },
        ) <==> acl.publish_topics.contains(requested),
{
    let e = exactly(acl.publish_topics);
    lemma_allowed(user, acl, username, client_id, requested, qos, retain);
    reveal_strlit("eq ");
    assert forall|i: int| 0 <= i < acl.publish_topics.len() implies text_hits(
        e[i],
        username,
        client_id,
        requested,
    ) == (#[trigger] acl.publish_topics[i] == requested) by {
        let t = acl.publish_topics[i];
        assert(e[i] == "eq "@ + t);
        assert(e[i].take(3) =~= "eq "@);
        assert(e[i].skip(3) =~= t);
    }
    if any_hits(e, username, client_id, requested) {
        let j = choose|j: int|
            0 <= j < e.len() && text_hits(#[trigger] e[j], username, client_id, requested);
        assert(acl.publish_topics[j] == requested);
    }
    if acl.publish_topics.contains(requested) {
        let j = choose|j: int|
            0 <= j < acl.publish_topics.len() && acl.publish_topics[j] == requested;
        assert(text_hits(e[j], username, client_id, requested));
    }
}

/// A superuser may publish and subscribe anywhere.
pub proof fn law_superusers_may_do_everything(
    user: UserView,
    acl: AclView,
    username: Option<Seq<char>>,
    client_id: Seq<char>,
    r: RequestView,
)
    requires
        user.superuser,
    ensures
        permitted(acl.enabled, Some(auth_info(user, acl, username, client_id)), r),
{
}

/// Without access rules a client may do nothing, unless access is not
/// restricted at all.
pub proof fn law_no_rules_no_access(enabled: bool, r: RequestView)
    ensures
        permitted(enabled, None, r) <==> !enabled,
{
}

/// Whether a topic lies under one of some prefixes.
pub open spec fn lies_below_any(topic: Seq<char>, prefixes: Seq<Seq<char>>) -> bool {
    exists|i: int| 0 <= i < prefixes.len() && begins_segments(topic, #[trigger] prefixes[i])
}

/// Whether the segments of a topic begin with those of a prefix.
pub open spec fn begins_segments(topic: Seq<char>, prefix: Seq<char>) -> bool {
    let t = topic::segments(topic);
    let p = topic::segments(prefix);
    p.len() <= t.len() && t.take(p.len() as int) == p
}

proof fn lemma_request_below(requested: Seq<char>, prefix: Seq<char>, topic: Seq<char>)
    requires
        !topic::wild(prefix),
        is_below(requested, prefix),
        topic::matches_topic(topic, requested),
    ensures
        begins_segments(topic, prefix),
{
    let f = topic::segments(requested);
    let p = topic::segments(prefix);
    let t = topic::segments(topic);
    topic::lemma_first_multi(f);
    let k = topic::first_multi(f) as int;
    let n = p.len() as int;
    assert forall|i: int| 0 <= i < n implies f[i] == p[i] by {
        assert(f.take(n)[i] == p[i]);
    }
    if k < n {
        lemma_plain_segment(prefix, k);
        assert(f[k] == p[k]);
    }
    assert forall|i: int| 0 <= i < n implies t[i] == p[i] by {
        lemma_plain_segment(prefix, i);
        assert(topic::segment_fits(f[i], t[i]));
    }
    assert(t.take(n) =~= p);
}

/// Whether a `#` stands at the end of a filter only.
pub open spec fn multi_ends(filter: Seq<char>) -> bool {
    let f = topic::segments(filter);
    forall|i: int| 0 <= i < f.len() && topic::is_multi(#[trigger] f[i]) ==> i == f.len() - 1
}

/// No subscription that a user may have lets a message through that is neither
/// on the user's own topics nor below a prefix that the user is granted,
/// whatever wildcards it has.
pub proof fn law_subscriptions_do_not_leak(
    user: UserView,
    acl: AclView,
    username: Option<Seq<char>>,
    client_id: Seq<char>,
    requested: Seq<char>,
    qos: u8,
    topic: Seq<char>,
)
    requires
        !user.superuser,
        is_confined_id(user.userid),
        all_confined(acl.fanout_prefixes),
        user.admin ==> all_confined(acl.admin_prefixes),
        multi_ends(requested),
        auth_info(user, acl, username, client_id).allows(
            RequestView::Subscribe { filter: requested, qos },
        ),
        topic::matches_topic(topic, requested),
    ensures
        ({
            let t = topic::segments(topic);
            ||| t.len() >= 2 && t[1] == user.userid
            ||| lies_below_any(topic, acl.fanout_prefixes)
            ||| user.admin && lies_below_any(topic, acl.admin_prefixes)
        }),
{
    let f = topic::segments(requested);
    let t = topic::segments(topic);
    lemma_subscribes_within(user, acl, username, client_id, requested, qos);
    if is_own(requested, user.userid) {
        topic::lemma_first_multi(f);
        text::lemma_split_single(user.userid, '/');
        lemma_plain_segment(user.userid, 0);
        let k = topic::first_multi(f) as int;
        if k < 2 {
            assert(topic::is_multi(f[k]));
            assert(k == f.len() - 1);
        }
        assert(topic::segment_fits(f[1], t[1]));
    } else if is_below_any(requested, acl.fanout_prefixes) {
        let i = choose|i: int|
            0 <= i < acl.fanout_prefixes.len() && is_below(
                requested,
                #[trigger] acl.fanout_prefixes[i],
            );
        lemma_request_below(requested, acl.fanout_prefixes[i], topic);
    } else {
        let i = choose|i: int|
            0 <= i < acl.admin_prefixes.len() && is_below(
                requested,
                #[trigger] acl.admin_prefixes[i],
            );
        lemma_request_below(requested, acl.admin_prefixes[i], topic);
    }
}

/// Topics, rules and requests are seen as what they hold.
pub proof fn law_rules_as_seen(
    text: String,
    rule: Rule,
    filter: &str,
    qos: u8,
    retain: bool,
    rules: Seq<Rule>,
    i: int,
)
    ensures
        AclTopic::Exact(text)@ == AclTopicView::Exact(text@),
        AclTopic::Filter(text)@ == AclTopicView::Filter(text@),
        rule@.permission == rule.permission,
        rule@.action == rule.action,
        rule@.qos is Some <==> rule.qos is Some,
        rule.qos matches Some(q) ==> rule@.qos == Some(q@),
        rule@.retain == rule.retain,
        rule@.topic == rule.topic@,
        (Request::Subscribe { filter, qos })@ == (RequestView::Subscribe { filter: filter@, qos }),
        (Request::Publish { topic: filter, qos, retain })@ == (RequestView::Publish {
            topic: filter@,
            qos,
            retain,
        }),
        rule_views(rules).len() == rules.len(),
        0 <= i < rules.len() ==> rule_views(rules)[i] == rules[i]@,
{
}

/// What a client may do is seen as what it holds.
pub proof fn law_access_as_seen(a: AuthInfo)
    ensures
        a@.superuser == a.superuser,
        a@.expire_at == a.expire_at,
        a@.rules.len() == a.rules@.len(),
        forall|i: int| 0 <= i < a.rules@.len() ==> #[trigger] a@.rules[i] == a.rules@[i]@,
        auth_of(None) is None,
        auth_of(Some(&a)) == Some(a@),
{
}

/// A rule is about a request if its action and its topics are, and where it has
/// qualities of service, the request's is among them; where it has a retain flag,
/// one that allows retained messages is about all messages, one that allows only
/// others is about those, and one that stops messages is about those with its
/// flag.
pub proof fn law_when_a_rule_applies(
    rule: RuleView,
    requested: Seq<char>,
    qos: u8,
    retain: bool,
)
    ensures
        rule.applies(RequestView::Subscribe { filter: requested, qos }) <==> {
            &&& rule.action == Action::Subscribe || rule.action == Action::All
            &&& rule.qos is None || rule.qos->0.contains(qos)
            &&& rule.topic.hits(requested)
        },
        rule.applies(RequestView::Publish { topic: requested, qos, retain }) <==> {
            &&& rule.action == Action::Publish || rule.action == Action::All
            &&& rule.qos is None || rule.qos->0.contains(qos)
            &&& rule.retain is None || rule.retain->0 == retain || (rule.retain->0
                && rule.permission == Permission::Allow)
            &&& rule.topic.hits(requested)
        },
{
}

/// The first rule that is about a request decides, and there is no decision
/// without one.
pub proof fn law_the_first_rule_decides(rules: Seq<RuleView>, r: RequestView, k: int)
    ensures
        0 <= k < rules.len() && rules[k].applies(r) && (forall|j: int|
            0 <= j < k ==> !(#[trigger] rules[j]).applies(r)) ==> decision(rules, r) == Some(
            rules[k].permission,
        ),
        (forall|j: int| 0 <= j < rules.len() ==> !(#[trigger] rules[j]).applies(r)) ==> decision(
            rules,
            r,
        ) is None,
    decreases rules.len(),
{
    if rules.len() > 0 && !rules[0].applies(r) {
        let rest = rules.drop_first();
        law_the_first_rule_decides(rest, r, k - 1);
        if forall|j: int| 0 <= j < rules.len() ==> !(#[trigger] rules[j]).applies(r) {
            assert forall|j: int| 0 <= j < rest.len() implies !(#[trigger] rest[j]).applies(
                r,
            ) by {
                assert(!rules[j + 1].applies(r));
            }
        }
        if 0 <= k < rules.len() && rules[k].applies(r) && forall|j: int|
            0 <= j < k ==> !(#[trigger] rules[j]).applies(r) {
            assert(rest[k - 1] == rules[k]);
            assert forall|j: int| 0 <= j < k - 1 implies !(#[trigger] rest[j]).applies(r) by {
                assert(!rules[j + 1].applies(r));
            }
        }
    }
}

/// With access restricted, a client may do what the first of its rules about it
/// allows; a superuser may do everything, and a client without rules nothing.
/// With access not restricted, everyone may do everything.
pub proof fn law_access_is_by_the_rules(a: AuthInfoView, r: RequestView, k: int)
    ensures
        permitted(false, Some(a), r),
        permitted(false, None, r),
        !permitted(true, None, r),
        permitted(true, Some(a), r) <==> a.allows(r),
        a.superuser ==> permitted(true, Some(a), r),
        !a.superuser ==> (permitted(true, Some(a), r) <==> decision(a.rules, r) == Some(
            Permission::Allow,
        )),
        !a.superuser && 0 <= k < a.rules.len() && a.rules[k].applies(r) && (forall|j: int|
            0 <= j < k ==> !(#[trigger] a.rules[j]).applies(r)) ==> (permitted(true, Some(a), r)
            <==> a.rules[k].permission == Permission::Allow),
        !a.superuser && (forall|j: int|
            0 <= j < a.rules.len() ==> !(#[trigger] a.rules[j]).applies(r)) ==> !permitted(
            true,
            Some(a),
            r,
        ),
{
    law_the_first_rule_decides(a.rules, r, k);
}

/// A rule for one topic is about that topic only; one with a filter is about a
/// request if the filter is well formed and accepts its segments.
pub proof fn law_what_a_rule_is_about(text: Seq<char>, requested: Seq<char>)
    ensures
        AclTopicView::Exact(text).hits(requested) <==> text == requested,
        AclTopicView::Filter(text).hits(requested) <==> valid_filter(text) && rule_accepts(
            topic::segments(text),
            topic::segments(requested),
        ),
{
}

/// A filter is well formed if each segment is a wildcard or free of them, `#` is
/// the last, and none but the first begins with a dollar sign.
pub proof fn law_well_formed_filters(filter: Seq<char>)
    ensures
        valid_filter(filter) <==> forall|i: int|
            0 <= i < topic::segments(filter).len() ==> {
                let seg = #[trigger] topic::segments(filter)[i];
                &&& seg == seq!['+'] || seg == seq!['#'] || (!seg.contains('+') && !seg.contains(
                    '#',
                ))
                &&& seg == seq!['#'] ==> i == topic::segments(filter).len() - 1
                &&& seg.len() > 0 && seg[0] == '$' ==> i == 0
            },
{
    let f = topic::segments(filter);
    if forall|i: int|
        0 <= i < f.len() ==> {
            let seg = #[trigger] f[i];
            &&& seg == seq!['+'] || seg == seq!['#'] || (!seg.contains('+') && !seg.contains('#'))
            &&& seg == seq!['#'] ==> i == f.len() - 1
            &&& seg.len() > 0 && seg[0] == '$' ==> i == 0
        } {
        assert(valid_filter(filter));
    }
    if valid_filter(filter) {
        assert forall|i: int| 0 <= i < f.len() implies {
            let seg = #[trigger] f[i];
            &&& seg == seq!['+'] || seg == seq!['#'] || (!seg.contains('+') && !seg.contains('#'))
            &&& seg == seq!['#'] ==> i == f.len() - 1
            &&& seg.len() > 0 && seg[0] == '$' ==> i == 0
        } by {
            assert(proper_segment(f[i]));
        }
    }
}

/// How a filter is held against a request, segment by segment: each stands for
/// itself and `+` for any one that does not begin with a dollar sign; `#` stands
/// for the rest, be it empty, unless that begins with a dollar sign. A `+` on a
/// segment with a dollar sign accepts if nothing but a `#` follows it.
pub proof fn law_segment_by_segment(
    f: Seq<char>,
    fs: Seq<Seq<char>>,
    t: Seq<char>,
    ts: Seq<Seq<char>>,
)
    ensures
        rule_accepts(Seq::empty(), Seq::empty()),
        !rule_accepts(Seq::empty(), seq![t] + ts),
        rule_accepts(seq![f] + fs, Seq::empty()) <==> f == seq!['#'],
        rule_accepts(seq![seq!['#']] + fs, seq![t] + ts) <==> t.len() == 0 || t[0] != '$',
        t.len() == 0 || t[0] != '$' ==> (rule_accepts(seq![seq!['+']] + fs, seq![t] + ts)
            <==> rule_accepts(fs, ts)),
        t.len() > 0 && t[0] == '$' ==> (rule_accepts(seq![seq!['+']] + fs, seq![t] + ts)
            <==> fs.len() == 0 || fs[0] == seq!['#']),
        f != seq!['+'] && f != seq!['#'] ==> (rule_accepts(seq![f] + fs, seq![t] + ts) <==> f == t
            && rule_accepts(fs, ts)),
{
    let many = seq![t] + ts;
    assert(many[0] == t);
    assert(many.drop_first() =~= ts);
    let own = seq![f] + fs;
    assert(own[0] == f);
    assert(own.drop_first() =~= fs);
    let single = seq![seq!['+']] + fs;
    assert(single[0] == seq!['+']);
    assert(single.drop_first() =~= fs);
    assert(fs.len() > 0 ==> single[1] == fs[0]);
    let multi = seq![seq!['#']] + fs;
    assert(multi[0] == seq!['#']);
    assert(seq!['#'][0] == '#');
    assert(seq!['+'][0] == '+');
    assert(seq!['#'] != seq!['+']);
}

/// Topics without dollar signs are accepted by the filters of rules just as by
/// those of subscriptions.
pub proof fn law_rules_accept_as_subscriptions_do(filter: Seq<char>, requested: Seq<char>)
    requires
        valid_filter(filter),
        !requested.contains('$'),
    ensures
        AclTopicView::Filter(filter).hits(requested) <==> topic::matches_topic(requested, filter),
{
    let f = topic::segments(filter);
    let t = topic::segments(requested);
    assert forall|i: int| 0 <= i < t.len() implies !is_reserved(#[trigger] t[i]) by {
        lemma_segments_lack(requested, '$', i);
        if is_reserved(t[i]) {
            assert(t[i].contains(t[i][0]));
        }
    }
    lemma_accepts_unreserved(f, t);
}

proof fn lemma_accepts_unreserved(f: Seq<Seq<char>>, t: Seq<Seq<char>>)
    requires
        forall|i: int| 0 <= i < t.len() ==> !is_reserved(#[trigger] t[i]),
    ensures
        rule_accepts(f, t) <==> topic::segments_match(t, f),
    decreases t.len(),
{
    topic::lemma_first_multi(f);
    assert(seq!['#'][0] == '#');
    assert(seq!['+'][0] == '+');
    assert(seq!['#'] != seq!['+']);
    let k = topic::first_multi(f);
    if f.len() > 0 && !topic::is_multi(f[0]) {
        let g = f.drop_first();
        topic::lemma_first_multi(g);
        assert(k == 1 + topic::first_multi(g));
        if t.len() > 0 {
            let u = t.drop_first();
            assert forall|i: int| 0 <= i < u.len() implies !is_reserved(#[trigger] u[i]) by {
                assert(u[i] == t[i + 1]);
            }
            lemma_accepts_unreserved(g, u);
            if topic::segments_match(t, f) {
                assert(topic::segment_fits(f[0], t[0]));
                assert forall|i: int| 0 <= i < topic::first_multi(g) implies topic::segment_fits(
                    #[trigger] g[i],
                    u[i],
                ) by {
                    assert(topic::segment_fits(f[i + 1], t[i + 1]));
                }
            }
            if topic::segment_fits(f[0], t[0]) && topic::segments_match(u, g) {
                assert forall|i: int| 0 <= i < k implies topic::segment_fits(
                    #[trigger] f[i],
                    t[i],
                ) by {
                    if i > 0 {
                        assert(topic::segment_fits(g[i - 1], u[i - 1]));
                    }
                }
            }
        }
    }
}

/// What fills in the placeholders of a text: nothing changes where there are none;
/// each is replaced by the name of the user, and then by that of the client; a text
/// that asks for a user name that is not there stands for nothing.
pub proof fn law_placeholders(s: Seq<char>, name: Seq<char>, client_id: Seq<char>)
    ensures
        ({
            let user = text::holds(s, "${username}"@);
            let client = text::holds(s, "${clientid}"@);
            let named = text::replaced(s, "${username}"@, name);
            &&& !user && !client ==> expanded(s, Some(name), client_id) == Some(s) && expanded(
                s,
                None,
                client_id,
            ) == Some(s)
            &&& !user && client ==> expanded(s, Some(name), client_id) == Some(
                text::replaced(s, "${clientid}"@, client_id),
            ) && expanded(s, None, client_id) == Some(
                text::replaced(s, "${clientid}"@, client_id),
            )
            &&& user && !client ==> expanded(s, Some(name), client_id) == Some(named)
            &&& user && client ==> expanded(s, Some(name), client_id) == Some(
                text::replaced(named, "${clientid}"@, client_id),
            )
            &&& user ==> expanded(s, None, client_id) is None
        }),
{
}

/// One placeholder in a text without dollar signs makes way for what it stands for.
pub proof fn law_names_are_filled_in(
    front: Seq<char>,
    back: Seq<char>,
    name: Seq<char>,
    client_id: Seq<char>,
)
    requires
        !front.contains('$'),
        !back.contains('$'),
    ensures
        expanded(front + "${username}"@ + back, Some(name), client_id) == Some(
            front + name + back,
        ),
        expanded(front + "${clientid}"@ + back, Some(name), client_id) == Some(
            front + client_id + back,
        ),
        expanded(front + "${username}"@ + back, None, client_id) is None,
{
    let u = "${username}"@;
    let c = "${clientid}"@;
    lemma_placeholder_texts();
    lemma_filled_in(front, u, back, name, c);
    lemma_filled_in(front, c, back, client_id, u);
}

proof fn lemma_placeholder_texts()
    ensures
        "${username}"@.len() > 2,
        "${clientid}"@.len() > 2,
        "${username}"@[0] == '$',
        "${clientid}"@[0] == '$',
        "${username}"@[2] != "${clientid}"@[2],
        forall|i: int| 0 < i < "${username}"@.len() ==> "${username}"@[i] != '$',
        forall|i: int| 0 < i < "${clientid}"@.len() ==> "${clientid}"@[i] != '$',
{
    reveal_strlit("${username}");
    reveal_strlit("${clientid}");
}

proof fn lemma_filled_in(
    front: Seq<char>,
    p: Seq<char>,
    back: Seq<char>,
    with: Seq<char>,
    other: Seq<char>,
)
    requires
        !front.contains('$'),
        !back.contains('$'),
        p.len() > 2,
        p[0] == '$',
        forall|i: int| 0 < i < p.len() ==> p[i] != '$',
        other.len() > 2,
        other[0] == '$',
        p[2] != other[2],
    ensures
        text::holds(front + p + back, p),
        !text::holds(front + p + back, other),
        text::replaced(front + p + back, p, with) == front + with + back,
{
    let s = front + p + back;
    text::law_holds(front, p, back, s);
    text::lemma_holds_needs_first(back, p);
    assert forall|i: int| 0 <= i < front.len() implies !text::begins_with(
        #[trigger] s.skip(i),
        p,
    ) by {
        text::law_begins_and_ends(s.skip(i), p);
        assert(s.skip(i)[0] == front[i]);
        assert(front.contains(front[i]));
    }
    text::law_replaced(front, p, back, with);
    if text::holds(s, other) {
        text::law_holds(front, other, back, s);
        let i = choose|i: int|
            0 <= i <= s.len() - other.len() && s == #[trigger] s.take(i) + other + s.skip(
                i + other.len(),
            );
        let r = s.take(i) + other + s.skip(i + other.len());
        assert(r[i] == other[0] && r[i + 2] == other[2]);
        if i < front.len() {
            assert(front.contains(front[i]));
        } else if i >= front.len() + p.len() {
            assert(back.contains(back[i - front.len() - p.len()]));
        } else {
            assert(s[i] == p[i - front.len()]);
            assert(i == front.len());
            assert(s[i + 2] == p[2]);
        }
    }
}

/// What the text of a rule stands for: `eq` and a topic for that topic, any other
/// that is not empty for a filter, if it is well formed once filled in.
pub proof fn law_texts_of_rules(
    s: Seq<char>,
    username: Option<Seq<char>>,
    client_id: Seq<char>,
)
    ensures
        topic_of(Seq::empty(), username, client_id) is None,
        expanded(s, username, client_id) is None ==> topic_of("eq "@ + s, username, client_id)
            is None,
        expanded(s, username, client_id) matches Some(t) ==> topic_of(
            "eq "@ + s,
            username,
            client_id,
        ) == Some(AclTopicView::Exact(t)),
        s.len() > 0 && !text::begins_with(s, "eq "@) ==> (match expanded(s, username, client_id) {
            Some(f) => if valid_filter(f) {
                topic_of(s, username, client_id) == Some(AclTopicView::Filter(f))
            } else {
                topic_of(s, username, client_id) is None
            },
            None => topic_of(s, username, client_id) is None,
        }),
{
    reveal_strlit("eq ");
    text::law_begins_and_ends(s, "eq "@);
    assert(("eq "@ + s).skip(3) =~= s);
    let none = Seq::<char>::empty();
    text::law_begins_and_ends(none, "eq "@);
}

/// A user is granted the topics with the user id in second place, everything below
/// each prefix for everyone, and an admin everything below each prefix for admins;
/// nothing else.
pub proof fn law_what_is_granted(
    userid: Seq<char>,
    admin: bool,
    fanout: Seq<Seq<char>>,
    admin_only: Seq<Seq<char>>,
    i: int,
)
    ensures
        ({
            let g = granted(userid, admin, fanout, admin_only);
            let n = fanout.len() as int;
            &&& g.len() == 1 + n + (if admin {
                admin_only.len() as int
            } else {
                0
            })
            &&& g[0] == "+/"@ + userid + "/#"@
            &&& 0 <= i < n ==> g[1 + i] == fanout[i] + "/#"@
            &&& admin && 0 <= i < admin_only.len() ==> g[1 + n + i] == admin_only[i] + "/#"@
        }),
{
    topic::law_filters_as_written(Seq::empty(), userid);
    if 0 <= i < fanout.len() {
        topic::law_filters_as_written(fanout[i], userid);
    }
    if 0 <= i < admin_only.len() {
        topic::law_filters_as_written(admin_only[i], userid);
    }
}

/// Each text adds a rule that allows the action on what the text stands for, with
/// any quality of service and any retain flag, or none if it stands for nothing.
pub proof fn law_rules_from_texts(
    action: Action,
    texts: Seq<Seq<char>>,
    s: Seq<char>,
    username: Option<Seq<char>>,
    client_id: Seq<char>,
)
    ensures
        rules_for(action, Seq::empty(), username, client_id) == Seq::<RuleView>::empty(),
        topic_of(s, username, client_id) is None ==> rules_for(
            action,
            texts.push(s),
            username,
            client_id,
        ) == rules_for(action, texts, username, client_id),
        topic_of(s, username, client_id) matches Some(t) ==> rules_for(
            action,
            texts.push(s),
            username,
            client_id,
        ) == rules_for(action, texts, username, client_id).push(
            RuleView {
                permission: Permission::Allow,
                action,
                qos: None,
                retain: None,
                topic: t,
            },
        ),
{
    assert(texts.push(s).drop_last() =~= texts);
}

/// The access rules of a user never expire and have the user's flag; a superuser has
/// no rules, others those for the filters that they are granted and behind them those
/// for the topics that may be published to.
pub proof fn law_access_of_a_user(
    user: UserView,
    acl: AclView,
    username: Option<Seq<char>>,
    client_id: Seq<char>,
)
    ensures
        ({
            let a = auth_info(user, acl, username, client_id);
            &&& a.superuser == user.superuser
            &&& a.expire_at is None
            &&& user.superuser ==> a.rules.len() == 0
            &&& !user.superuser ==> a.rules == rules_for(
                Action::Subscribe,
                granted(user.userid, user.admin, acl.fanout_prefixes, acl.admin_prefixes),
                username,
                client_id,
            ) + rules_for(
                Action::Publish,
                acl.publish_topics.map_values(|t: Seq<char>| "eq "@ + t),
                username,
                client_id,
            )
        }),
{
}

/// With access restricted, a user that is no superuser may publish to exactly the
/// listed topics, with any quality of service, retained or not.
pub proof fn law_publishing_is_by_the_list(
    user: UserView,
    acl: AclView,
    username: Option<Seq<char>>,
    client_id: Seq<char>,
    topic: Seq<char>,
    qos: u8,
    retain: bool,
)
    requires
        !user.superuser,
        forall|i: int|
            0 <= i < acl.publish_topics.len() ==> !text::holds(
                #[trigger] acl.publish_topics[i],
                "${username}"@,
            ) && !text::holds(acl.publish_topics[i], "${clientid}"@),
    ensures
        permitted(
            true,
            Some(auth_info(user, acl, username, client_id)),
            RequestView::Publish { topic, qos, retain },
        ) <==> acl.publish_topics.contains(topic),
{
    law_what_a_user_may_publish_to(user, acl, username, client_id, topic, qos, retain);
}

/// With access restricted, a user that is no superuser may subscribe, with any quality
/// of service, to filters with the user id as the second segment, to those that begin
/// with the segments of a prefix for everyone and, as an admin, of one for admins, and
/// to no others; a wildcard of a rule does not stand for a segment with a dollar sign
/// in front.
pub proof fn law_subscribing_is_by_id_and_prefix(
    user: UserView,
    acl: AclView,
    username: Option<Seq<char>>,
    client_id: Seq<char>,
    filter: Seq<char>,
    qos: u8,
)
    requires
        !user.superuser,
        !user.userid.contains('+') && !user.userid.contains('#') && !user.userid.contains('/'),
        !user.userid.contains('$'),
        forall|i: int|
            0 <= i < acl.fanout_prefixes.len() ==> {
                let p = #[trigger] acl.fanout_prefixes[i];
                !p.contains('+') && !p.contains('#') && !p.contains('$') && !text::begins_with(
                    p,
                    "eq "@,
                )
            },
        forall|i: int|
            0 <= i < acl.admin_prefixes.len() ==> {
                let p = #[trigger] acl.admin_prefixes[i];
                !p.contains('+') && !p.contains('#') && !p.contains('$') && !text::begins_with(
                    p,
                    "eq "@,
                )
            },
    ensures
        permitted(
            true,
            Some(auth_info(user, acl, username, client_id)),
            RequestView::Subscribe { filter, qos },
        ) <==> {
            let t = topic::segments(filter);
            ||| t.len() >= 2 && t[1] == user.userid && (t[0].len() == 0 || t[0][0] != '$') && (
            t.len() == 2 || t[2].len() == 0 || t[2][0] != '$')
            ||| exists|i: int|
                0 <= i < acl.fanout_prefixes.len() && {
                    let p = topic::segments(#[trigger] acl.fanout_prefixes[i]);
                    &&& p.len() <= t.len()
                    &&& t.take(p.len() as int) == p
                    &&& t.len() == p.len() || t[p.len() as int].len() == 0 || t[p.len() as int][0]
                        != '$'
                }
            ||| user.admin && exists|i: int|
                0 <= i < acl.admin_prefixes.len() && {
                    let p = topic::segments(#[trigger] acl.admin_prefixes[i]);
                    &&& p.len() <= t.len()
                    &&& t.take(p.len() as int) == p
                    &&& t.len() == p.len() || t[p.len() as int].len() == 0 || t[p.len() as int][0]
                        != '$'
                }
        },
{
    lemma_undollared(user.userid);
    assert forall|i: int| 0 <= i < acl.fanout_prefixes.len() implies stands_for_itself(
        #[trigger] acl.fanout_prefixes[i],
    ) by {
        lemma_undollared(acl.fanout_prefixes[i]);
    }
    assert forall|i: int| 0 <= i < acl.admin_prefixes.len() implies stands_for_itself(
        #[trigger] acl.admin_prefixes[i],
    ) by {
        lemma_undollared(acl.admin_prefixes[i]);
    }
    law_what_a_user_may_subscribe_to(user, acl, username, client_id, filter, qos);
    let t = topic::segments(filter);
    assert forall|i: int| 0 <= i < acl.fanout_prefixes.len() implies is_below(
        filter,
        #[trigger] acl.fanout_prefixes[i],
    ) == ({
        let p = topic::segments(acl.fanout_prefixes[i]);
        &&& p.len() <= t.len()
        &&& t.take(p.len() as int) == p
        &&& t.len() == p.len() || t[p.len() as int].len() == 0 || t[p.len() as int][0] != '$'
    }) by {}
    assert forall|i: int| 0 <= i < acl.admin_prefixes.len() implies is_below(
        filter,
        #[trigger] acl.admin_prefixes[i],
    ) == ({
        let p = topic::segments(acl.admin_prefixes[i]);
        &&& p.len() <= t.len()
        &&& t.take(p.len() as int) == p
        &&& t.len() == p.len() || t[p.len() as int].len() == 0 || t[p.len() as int][0] != '$'
    }) by {}
}

/// A text without dollar signs holds no placeholder and has no reserved segment.
proof fn lemma_undollared(s: Seq<char>)
    requires
        !s.contains('$'),
    ensures
        is_literal(s),
        !is_reserved(s),
        forall|i: int|
            0 <= i < topic::segments(s).len() ==> !is_reserved(#[trigger] topic::segments(s)[i]),
{
    reveal_strlit("${username}");
    reveal_strlit("${clientid}");
    text::lemma_holds_needs_first(s, "${username}"@);
    text::lemma_holds_needs_first(s, "${clientid}"@);
    if is_reserved(s) {
        assert(s.contains(s[0]));
    }
    let f = topic::segments(s);
    assert forall|i: int| 0 <= i < f.len() implies !is_reserved(#[trigger] f[i]) by {
        lemma_segments_lack(s, '$', i);
        if is_reserved(f[i]) {
            assert(f[i].contains(f[i][0]));
        }
    }
}

/// Which texts the laws on rules speak of: those without placeholders, those that a
/// rule takes as one segment or as a prefix, and requests for them.
pub proof fn law_which_texts_stand_for_themselves(s: Seq<char>, requested: Seq<char>)
    ensures
        is_literal(s) <==> !text::holds(s, "${username}"@) && !text::holds(s, "${clientid}"@),
        is_plain(s) <==> !s.contains('+') && !s.contains('#') && !s.contains('/') && (s.len() == 0
            || s[0] != '$'),
        is_confined_id(s) <==> !s.contains('+') && !s.contains('#') && !s.contains('/')
            && is_literal(s),
        is_confined(s) <==> !s.contains('+') && !s.contains('#') && is_literal(s)
            && !text::begins_with(s, "eq "@),
        !s.contains('$') && is_confined(s) ==> stands_for_itself(s),
        is_own(requested, s) ==> topic::segments(requested).len() >= 2 && topic::segments(
            requested,
        )[1] == s,
        begins_segments(requested, s) <==> topic::segments(s).len() <= topic::segments(
            requested,
        ).len() && topic::segments(requested).take(topic::segments(s).len() as int)
            == topic::segments(s),
        requested.len() > 0 && !requested.contains('#') ==> multi_ends(requested),
{
    if !s.contains('$') {
        lemma_undollared(s);
    }
    let f = topic::segments(requested);
    if !requested.contains('#') {
        assert forall|i: int| 0 <= i < f.len() implies !topic::is_multi(#[trigger] f[i]) by {
            lemma_segments_lack(requested, '#', i);
            if f[i] == seq!['#'] {
                assert(f[i][0] == '#');
                assert(f[i].contains(f[i][0]));
            }
        }
    }
}

} // verus!
