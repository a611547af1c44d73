//! The subscriptions that a client gets from the broker without asking.
use crate::acl;
use crate::acl::RequestView;
use crate::auth::{Found, FoundView};
use crate::config::{AclConfig, AclView, FanoutConfig};
use crate::db::UserView;
use crate::text;
use crate::topic;
use vstd::prelude::*;

verus! {

/// A topic filter taken apart: the filter proper, the group that shares it, and
/// how many may have it.
#[derive(Clone, Debug)]
pub struct ParsedFilter {
    pub filter: String,
    pub group: Option<String>,
    pub limit: Option<usize>,
}

/// A topic filter taken apart: the filter proper, the group that shares it, and
/// how many may have it.
pub struct ParsedView {
    pub filter: Seq<char>,
    pub group: Option<Seq<char>>,
    pub limit: Option<usize>,
}

impl View for ParsedFilter {
    type V = ParsedView;

    open spec fn view(&self) -> ParsedView {
        ParsedView {
            filter: self.filter@,
            group: match self.group {
                Some(g) => Some(g@),
                None => None,
            },
            limit: self.limit,
        }
    }
}

/// `s` without a text that it begins with, taken away as often as it does.
pub open spec fn without_front(s: Seq<char>, front: Seq<char>) -> Seq<char>
    decreases s.len(),
{
    if front.len() > 0 && text::begins_with(s, front) {
        without_front(s.skip(front.len() as int), front)
    } else {
        s
    }
}

/// What a topic filter says: `$share/group/filter`, `$limit/number/filter`,
/// `$exclusive/filter`, or the filter alone; none if it is not put together so,
/// or the filter proper is empty.
pub open spec fn parsed(s: Seq<char>) -> Option<ParsedView> {
    let i = text::find(s, '/') as int;
    let rest = s.skip(i + 1);
    let j = text::find(rest, '/') as int;
    let three = i < s.len() && j < rest.len();
    let (head, middle, tail) = (s.take(i), rest.take(j), rest.skip(j + 1));
    let r = if head == "$share"@ {
        if three {
            Some(ParsedView { filter: tail, group: Some(middle), limit: None })
        } else {
            None
        }
    } else if head == "$limit"@ {
        match text::parse_bounded(middle, usize::MAX as nat) {
            Some(n) => if three {
                Some(ParsedView { filter: tail, group: None, limit: Some(n as usize) })
            } else {
                None
            },
            None => None,
        }
    } else if head == "$exclusive"@ {
        Some(
            ParsedView { filter: without_front(s, "$exclusive/"@), group: None, limit: Some(1) },
        )
    } else {
        Some(ParsedView { filter: s, group: None, limit: None })
    };
    match r {
        Some(p) => if p.filter.len() > 0 {
            r
        } else {
            None
        },
        None => None,
    }
}

/// `rmqtt::types::parse_topic_filter`, with shared and limited subscriptions
/// allowed, as `rmqtt::types::Subscribe::from_v5` calls it: a filter in one of
/// the four forms is taken apart; it fails on another, on a limit that is no
/// number, and where nothing is left of the filter.
#[verifier::external_body]
fn parse_filter(filter: &str) -> (r: Option<ParsedFilter>)
    ensures
        match r {
            Some(p) => parsed(filter@) == Some(p@),
            None => parsed(filter@) is None,
        },
{
    let (f, g, limit) = rmqtt::types::parse_topic_filter(&filter.into(), true, true).ok()?;
    let group = match g {
        Some(g) => Some(g.to_string()),
        None => None,
    };
    Some(ParsedFilter { filter: f.to_string(), group, limit })
}

/// When a client that subscribes is sent the retained messages.
#[derive(Clone, Copy, Debug, PartialEq, Eq, Structural)]
pub enum RetainHandling {
    /// Whenever it subscribes.
    AtSubscribe,
    /// When it subscribes for the first time.
    AtSubscribeNew,
    /// Never.
    NoAtSubscribe,
}

/// A subscription that the broker makes for a client.
#[derive(Clone, Debug)]
pub struct Subscription {
    pub topic: ParsedFilter,
    pub qos: u8,
    pub no_local: bool,
    pub retain_as_published: bool,
    pub retain_handling: RetainHandling,
}

/// A subscription that the broker makes for a client.
pub struct SubscriptionView {
    pub topic: ParsedView,
    pub qos: u8,
    pub no_local: bool,
    pub retain_as_published: bool,
    pub retain_handling: RetainHandling,
}

impl View for Subscription {
    type V = SubscriptionView;

    open spec fn view(&self) -> SubscriptionView {
        SubscriptionView {
            topic: self.topic@,
            qos: self.qos,
            no_local: self.no_local,
            retain_as_published: self.retain_as_published,
            retain_handling: self.retain_handling,
        }
    }
}

/// Subscribes every client to what its user is granted.
#[derive(Clone, Debug)]
pub struct UseridAutoSubscription {
    pub qos: u8,
    pub fanout_prefixes: Vec<String>,
    pub admin_prefixes: Vec<String>,
}

/// A filter that cannot be subscribed to.
#[derive(Clone, Copy, Debug, PartialEq, Eq, Structural)]
pub struct IllegalFilter;

/// A subscription to a topic filter with a quality of service: the client gets
/// its own messages too, without the retain flag they were published with, and
/// the retained ones whenever it subscribes.
pub open spec fn plain_subscription(topic: ParsedView, qos: u8) -> SubscriptionView {
    SubscriptionView {
        topic,
        qos,
        no_local: false,
        retain_as_published: false,
        retain_handling: RetainHandling::AtSubscribe,
    }
}

/// Whether all filters of a list can be subscribed to.
pub open spec fn all_parse(filters: Seq<Seq<char>>) -> bool {
    forall|i: int| 0 <= i < filters.len() ==> parsed(#[trigger] filters[i]) is Some
}

/// The filters that a client is subscribed to, by what the directory says of its
/// user; none if the client has named no user.
pub open spec fn filters_for(
    found: Option<FoundView>,
    fanout: Seq<Seq<char>>,
    admin_only: Seq<Seq<char>>,
) -> Seq<Seq<char>> {
    match found {
        Some(FoundView::User(u)) => acl::granted(u.userid, u.admin, fanout, admin_only),
        _ => Seq::empty(),
    }
}

/// What the directory says, if it was asked.
pub open spec fn found_of(found: Option<&Found>) -> Option<FoundView> {
    match found {
        Some(f) => Some(f@),
        None => None,
    }
}

impl UseridAutoSubscription {
    /// The subscriptions that a configuration asks for; the quality of service is
    /// at most 2.
    pub fn new(fanout: &FanoutConfig, acl: &AclConfig) -> (r: Self)
        ensures
            r.qos == (if fanout.qos > 2 {
                2
            } else {
                fanout.qos
            }),
            text::texts(r.fanout_prefixes@) == acl@.fanout_prefixes,
            text::texts(r.admin_prefixes@) == acl@.admin_prefixes,
    {
        UseridAutoSubscription {
            qos: if fanout.qos > 2 {
                2
            } else {
                fanout.qos
            },
            fanout_prefixes: text::copy_strings(&acl.fanout_prefixes),
            admin_prefixes: text::copy_strings(&acl.admin_prefixes),
        }
    }

    /// Whether clients are subscribed at all.
    pub fn enable(&self) -> (r: bool)
        ensures
            r,
    {
        true
    }

    /// One subscription.
    pub fn subscription(&self, filter: &str) -> (r: Result<Subscription, IllegalFilter>)
        ensures
            match r {
                Ok(s) => parsed(filter@) matches Some(p) && s@ == plain_subscription(p, self.qos),
                Err(_) => parsed(filter@) is None,
            },
    {
        match parse_filter(filter) {
            Some(topic) => Ok(
                Subscription {
                    topic,
                    qos: self.qos,
                    no_local: false,
                    retain_as_published: false,
                    retain_handling: RetainHandling::AtSubscribe,
                },
            ),
            None => Err(IllegalFilter),
        }
    }

    /// The subscriptions of a client, by what the directory says of its user; none
    /// if the client has named no user. It fails if a filter cannot be subscribed
    /// to.
    pub fn subscribes(&self, found: Option<&Found>) -> (r: Result<
        Vec<Subscription>,
        IllegalFilter,
    >)
        ensures
            ({
                let filters = filters_for(
                    found_of(found),
                    text::texts(self.fanout_prefixes@),
                    text::texts(self.admin_prefixes@),
                );
                match r {
                    Ok(subs) => {
                        &&& subs@.len() == filters.len()
                        &&& forall|i: int|
                            0 <= i < filters.len() ==> parsed(#[trigger] filters[i]) is Some
                                && subs@[i]@ == plain_subscription(
                                parsed(filters[i])->0,
                                self.qos,
                            )
                    },
                    Err(_) => !all_parse(filters),
                }
            }),
    {
        let mut subs: Vec<Subscription> = Vec::new();
        let record = match found {
            Some(Found::User(record)) => record,
            _ => {
                return Ok(subs);
            },
        };
        let filters = acl::granted_filters(record, &self.fanout_prefixes, &self.admin_prefixes);
        let ghost all = text::texts(filters@);
        let mut i: usize = 0;
        while i < filters.len()
            invariant
                i <= filters.len(),
                all == text::texts(filters@),
                subs@.len() == i,
                forall|j: int|
                    0 <= j < i ==> parsed(#[trigger] all[j]) is Some && subs@[j]@
                        == plain_subscription(parsed(all[j])->0, self.qos),
                all == filters_for(
                    found_of(found),
                    text::texts(self.fanout_prefixes@),
                    text::texts(self.admin_prefixes@),
                ),
            decreases filters.len() - i,
        {
            assert(all[i as int] == filters@[i as int]@);
            match self.subscription(filters[i].as_str()) {
                Ok(s) => {
                    subs.push(s);
                },
                Err(e) => {
                    assert(parsed(all[i as int]) is None);
                    return Err(e);
                },
            }
            i += 1;
        }
        Ok(subs)
    }
}

/// The prefix that a granted filter, other than the one for the user's own
/// topics, is made of.
pub open spec fn prefix_at(acl: AclView, i: int) -> Seq<char> {
    let n = acl.fanout_prefixes.len() as int;
    if i <= n {
        acl.fanout_prefixes[i - 1]
    } else {
        acl.admin_prefixes[i - n - 1]
    }
}

/// Whether a text begins with the name of a form of topic filters.
pub open spec fn names_a_form(s: Seq<char>) -> bool {
    let head = topic::segments(s)[0];
    head == "$share"@ || head == "$limit"@ || head == "$exclusive"@
}

/// The broker subscribes nobody to anything that the user may not subscribe to,
/// and subscribes to it as it is.
pub proof fn law_automatic_subscriptions_are_permitted(
    user: UserView,
    acl: AclView,
    username: Option<Seq<char>>,
    client_id: Seq<char>,
    i: int,
    qos: u8,
)
    requires
        0 <= i < acl::granted(
            user.userid,
            user.admin,
            acl.fanout_prefixes,
            acl.admin_prefixes,
        ).len(),
        i == 0 ==> acl::is_plain(user.userid) && acl::is_literal(user.userid),
        i > 0 ==> acl::stands_for_itself(prefix_at(acl, i)) && !names_a_form(prefix_at(acl, i)),
    ensures
        ({
            let f = acl::granted(
                user.userid,
                user.admin,
                acl.fanout_prefixes,
                acl.admin_prefixes,
            )[i];
            &&& acl::auth_info(user, acl, username, client_id).allows(
                RequestView::Subscribe { filter: f, qos },
            )
            &&& parsed(f) == Some(ParsedView { filter: f, group: None, limit: None })
        }),
{
    let g = acl::granted(user.userid, user.admin, acl.fanout_prefixes, acl.admin_prefixes);
    let f = g[i];
    let head = topic::segments(f)[0];
    assert(seq!['+'][0] == '+');
    assert(seq!['#'][0] == '#');
    if i == 0 {
        assert(f == topic::own_topics(user.userid));
        acl::lemma_own_segments(user.userid);
        acl::lemma_own_hits(user.userid, username, client_id, f);
        assert(acl::is_own(f, user.userid));
        assert(head == seq!['+']);
        assert("$share"@ != head && "$limit"@ != head && "$exclusive"@ != head) by {
            reveal_strlit("$share");
            reveal_strlit("$limit");
            reveal_strlit("$exclusive");
        }
    } else {
        let prefix = prefix_at(acl, i);
        let p = topic::segments(prefix);
        assert(f == topic::below(prefix));
        acl::lemma_below_segments(prefix);
        text::lemma_split_nonempty(prefix, '/');
        assert(p.push(seq!['#']).take(p.len() as int) =~= p);
        assert(acl::is_below(f, prefix));
        acl::lemma_below_hits(prefix, username, client_id, f);
        assert(head == p[0]);
    }
    lemma_parses_as_itself(f);
    if !user.superuser {
        acl::lemma_allowed(user, acl, username, client_id, f, qos, false);
        assert(acl::text_hits(g[i], username, client_id, f));
    }
}

/// A filter that does not begin with the name of a form says nothing but itself.
proof fn lemma_parses_as_itself(s: Seq<char>)
    requires
        !names_a_form(s),
        s.len() > 0,
    ensures
        parsed(s) == Some(ParsedView { filter: s, group: None, limit: None }),
{
    text::lemma_find(s, '/');
    let i = text::find(s, '/') as int;
    if i == s.len() {
        assert(s.take(i) =~= s);
    }
    assert(topic::segments(s)[0] == s.take(i));
}

/// Filters and subscriptions are seen as what they hold.
pub proof fn law_subscriptions_as_seen(p: ParsedFilter, s: Subscription, f: Found)
    ensures
        p@.filter == p.filter@,
        p@.group is Some <==> p.group is Some,
        p.group matches Some(g) ==> p@.group == Some(g@),
        p@.limit == p.limit,
        s@.topic == s.topic@,
        s@.qos == s.qos,
        s@.no_local == s.no_local,
        s@.retain_as_published == s.retain_as_published,
        s@.retain_handling == s.retain_handling,
        found_of(None) is None,
        found_of(Some(&f)) == Some(f@),
{
}

/// A subscription that the broker makes has the filter and the quality of service that
/// it was asked for, brings the client its own messages too, without the retain flag
/// they were published with, and the retained ones.
pub proof fn law_how_the_broker_subscribes(topic: ParsedView, qos: u8)
    ensures
        plain_subscription(topic, qos).topic == topic,
        plain_subscription(topic, qos).qos == qos,
        !plain_subscription(topic, qos).no_local,
        !plain_subscription(topic, qos).retain_as_published,
        plain_subscription(topic, qos).retain_handling == RetainHandling::AtSubscribe,
{
}

/// A client of a user that is known is subscribed to the user's own topics, to what is
/// below each prefix for everyone, and as an admin to what is below each prefix for
/// admins; any other is subscribed to nothing.
pub proof fn law_who_is_subscribed_to_what(
    u: UserView,
    fanout: Seq<Seq<char>>,
    admin_only: Seq<Seq<char>>,
    i: int,
)
    ensures
        filters_for(None, fanout, admin_only).len() == 0,
        filters_for(Some(FoundView::Nobody), fanout, admin_only).len() == 0,
        filters_for(Some(FoundView::Failed), fanout, admin_only).len() == 0,
        ({
            let f = filters_for(Some(FoundView::User(u)), fanout, admin_only);
            let n = fanout.len() as int;
            &&& f.len() == 1 + n + (if u.admin {
                admin_only.len() as int
            } else {
                0
            })
            &&& f[0] == "+/"@ + u.userid + "/#"@
            &&& 0 <= i < n ==> f[1 + i] == fanout[i] + "/#"@
            &&& u.admin && 0 <= i < admin_only.len() ==> f[1 + n + i] == admin_only[i] + "/#"@
        }),
{
    acl::law_what_is_granted(u.userid, u.admin, fanout, admin_only, i);
}

/// A filter that does not begin with the name of a form says nothing but itself, and an
/// empty one cannot be subscribed to.
pub proof fn law_ordinary_filters(s: Seq<char>)
    ensures
        parsed(Seq::empty()) is None,
        s.len() > 0 && (s[0] != '$' || !names_a_form(s)) ==> parsed(s) == Some(
            ParsedView { filter: s, group: None, limit: None },
        ),
        names_a_form(s) <==> topic::segments(s)[0] == "$share"@ || topic::segments(s)[0]
            == "$limit"@ || topic::segments(s)[0] == "$exclusive"@,
{
    reveal_strlit("$share");
    reveal_strlit("$limit");
    reveal_strlit("$exclusive");
    if s.len() > 0 {
        if s[0] != '$' {
            text::lemma_find(s, '/');
            let i = text::find(s, '/') as int;
            if i == s.len() {
                assert(s.take(i) =~= s);
            }
            let head = topic::segments(s)[0];
            assert(head == s.take(i));
            assert(head.len() > 0 ==> head[0] == s[0]);
            assert("$share"@[0] == '$' && "$limit"@[0] == '$' && "$exclusive"@[0] == '$');
        }
        if !names_a_form(s) {
            lemma_parses_as_itself(s);
        }
    }
    let none = Seq::<char>::empty();
    text::law_no_occurrence(none, '/');
    assert(none.take(0) =~= none);
    assert("$share"@.len() > 0 && "$limit"@.len() > 0 && "$exclusive"@.len() > 0);
}

proof fn lemma_three_pieces(head: Seq<char>, middle: Seq<char>, tail: Seq<char>)
    requires
        !head.contains('/'),
        !middle.contains('/'),
    ensures
        ({
            let s = head + seq!['/'] + middle + seq!['/'] + tail;
            let i = text::find(s, '/') as int;
            let rest = s.skip(i + 1);
            let j = text::find(rest, '/') as int;
            &&& i == head.len() && i < s.len() && s.take(i) == head
            &&& j == middle.len() && j < rest.len() && rest.take(j) == middle
            &&& rest.skip(j + 1) == tail
        }),
{
    let s = head + seq!['/'] + middle + seq!['/'] + tail;
    let i = head.len() as int;
    let j = middle.len() as int;
    assert forall|k: int| 0 <= k < i implies s[k] != '/' by {
        assert(head.contains(head[k]));
    }
    text::law_occurrences(s, '/', i);
    assert(s.take(i) =~= head);
    let rest = s.skip(i + 1);
    assert(rest =~= middle + seq!['/'] + tail);
    assert forall|k: int| 0 <= k < j implies rest[k] != '/' by {
        assert(middle.contains(middle[k]));
    }
    text::law_occurrences(rest, '/', j);
    assert(rest.take(j) =~= middle);
    assert(rest.skip(j + 1) =~= tail);
}

/// `$share/group/filter` is the filter, shared by the group.
pub proof fn law_shared_filters(group: Seq<char>, filter: Seq<char>)
    requires
        !group.contains('/'),
    ensures
        filter.len() > 0 ==> parsed("$share"@ + seq!['/'] + group + seq!['/'] + filter) == Some(
            ParsedView { filter, group: Some(group), limit: None },
        ),
        filter.len() == 0 ==> parsed("$share"@ + seq!['/'] + group + seq!['/'] + filter) is None,
{
    assert(!"$share"@.contains('/')) by {
        reveal_strlit("$share");
    }
    lemma_three_pieces("$share"@, group, filter);
}

/// `$limit/number/filter` is the filter, for at most so many; another text in place of
/// the number is an error.
pub proof fn law_limited_filters(number: Seq<char>, filter: Seq<char>)
    requires
        !number.contains('/'),
        filter.len() > 0,
    ensures
        ({
            let s = "$limit"@ + seq!['/'] + number + seq!['/'] + filter;
            match text::parse_bounded(number, usize::MAX as nat) {
                Some(n) => parsed(s) == Some(
                    ParsedView { filter, group: None, limit: Some(n as usize) },
                ),
                None => parsed(s) is None,
            }
        }),
{
    assert(!"$limit"@.contains('/') && "$limit"@ != "$share"@) by {
        reveal_strlit("$limit");
        reveal_strlit("$share");
        assert("$limit"@[1] == 'l' && "$share"@[1] == 's');
    }
    lemma_three_pieces("$limit"@, number, filter);
}

/// `$exclusive/filter` is the filter, for one.
pub proof fn law_exclusive_filters(filter: Seq<char>)
    requires
        filter.len() > 0,
        !text::begins_with(filter, "$exclusive/"@),
    ensures
        parsed("$exclusive"@ + seq!['/'] + filter) == Some(
            ParsedView { filter, group: None, limit: Some(1) },
        ),
{
    let head = "$exclusive"@;
    let s = head + seq!['/'] + filter;
    let front = "$exclusive/"@;
    assert(!head.contains('/') && head != "$share"@ && head != "$limit"@ && front =~= head
        + seq!['/']) by {
        reveal_strlit("$exclusive");
        reveal_strlit("$exclusive/");
        reveal_strlit("$limit");
        reveal_strlit("$share");
        assert(head[1] == 'e' && "$limit"@[1] == 'l' && "$share"@[1] == 's');
    }
    let i = head.len() as int;
    assert forall|k: int| 0 <= k < i implies s[k] != '/' by {
        assert(head.contains(head[k]));
    }
    text::law_occurrences(s, '/', i);
    assert(s.take(i) =~= head);
    assert(s =~= front + filter);
    text::law_begins_and_ends(filter, front);
    assert(s.skip(front.len() as int) =~= filter);
    assert(without_front(filter, front) == filter);
}

/// All filters of a list can be subscribed to if each can.
pub proof fn law_lists_of_filters(filters: Seq<Seq<char>>, i: int)
    ensures
        0 <= i < filters.len() && parsed(filters[i]) is None ==> !all_parse(filters),
        !all_parse(filters) ==> exists|j: int|
            0 <= j < filters.len() && parsed(#[trigger] filters[j]) is None,
{
}

/// A front that a text begins with several times is taken away each time.
pub proof fn law_fronts_are_taken_away(s: Seq<char>, front: Seq<char>)
    requires
        front.len() > 0,
    ensures
        without_front(front + s, front) == without_front(s, front),
        !text::begins_with(s, front) ==> without_front(s, front) == s,
{
    text::law_begins_and_ends(s, front);
    assert((front + s).skip(front.len() as int) =~= s);
}

} // verus!
