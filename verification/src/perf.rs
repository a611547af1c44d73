//! What the load tests decide: their settings, who connects where and
//! publishes what, how long to wait, and what the readings of the containers
//! say. Averages, percentiles and charts are made elsewhere.
use crate::acl;
use crate::acl::RequestView;
use crate::api;
use crate::api::{CreateUser, CreateView};
use crate::auth;
use crate::config::AclView;
use crate::sort;
use crate::sort::Ranked;
use crate::text;
use crate::topic;
use std::collections::VecDeque;
use vstd::arithmetic::power::pow;
use vstd::prelude::*;
use vstd::utf8::*;

verus! {

/// What is wrong with a setting.
#[derive(Clone, Copy, Debug, PartialEq, Eq, Structural)]
pub enum SettingError {
    /// A node is not of the form `host:port`.
    BadNode,
    /// The port of a node is no port.
    BadPort,
    /// Something that has to be a number is none.
    BadNumber,
}

/// A node to connect to.
#[derive(Clone, Debug)]
pub struct Node {
    pub host: String,
    pub port: u16,
}

/// The host and the port of a text that ends in a colon and a port.
pub open spec fn node_of(s: Seq<char>) -> Result<(Seq<char>, nat), SettingError> {
    let t = text::trim(s);
    match text::find_last(t, ':') {
        Some(i) => match text::parse_bounded(t.skip(i + 1), u16::MAX as nat) {
            Some(port) => Ok((t.take(i), port)),
            None => Err(SettingError::BadPort),
        },
        None => Err(SettingError::BadNode),
    }
}

/// The number that a text is, but for white space around it.
pub open spec fn count_of(s: Seq<char>) -> Result<nat, SettingError> {
    match text::parse_bounded(text::trim(s), usize::MAX as nat) {
        Some(n) => Ok(n),
        None => Err(SettingError::BadNumber),
    }
}

fn parse_node(piece: &Vec<char>) -> (r: Result<Node, SettingError>)
    ensures
        match r {
            Ok(n) => node_of(piece@) == Ok::<(Seq<char>, nat), SettingError>(
                (n.host@, n.port as nat),
            ),
            Err(e) => node_of(piece@) == Err::<(Seq<char>, nat), SettingError>(e),
        },
{
    let t = text::trim_chars(piece.as_slice());
    match text::position_last(t.as_slice(), ':') {
        Some(i) => {
            let host = text::copy_range(t.as_slice(), 0, i);
            let port = text::copy_range(t.as_slice(), i + 1, t.len());
            assert(host@ =~= t@.take(i as int));
            assert(port@ =~= t@.skip(i + 1));
            let port = text::string_of(port.as_slice());
            match text::parse_number(port.as_str(), u16::MAX as u64) {
                Some(p) => Ok(Node { host: text::string_of(host.as_slice()), port: p as u16 }),
                None => Err(SettingError::BadPort),
            }
        },
        None => Err(SettingError::BadNode),
    }
}

/// Whether an error is what is wrong with the first node of a list that cannot
/// be read.
pub open spec fn is_node_error(list: Seq<char>, e: SettingError) -> bool {
    let pieces = text::split(list, ',');
    exists|i: int|
        0 <= i < pieces.len() && node_of(#[trigger] pieces[i]) == Err::<
            (Seq<char>, nat),
            SettingError,
        >(e) && forall|j: int| 0 <= j < i ==> node_of(#[trigger] pieces[j]) is Ok
}

/// The nodes of a list with commas.
pub fn parse_nodes(list: &str) -> (r: Result<Vec<Node>, SettingError>)
    ensures
        match r {
            Ok(nodes) => are_nodes(nodes@, list@),
            Err(e) => is_node_error(list@, e),
        },
{
    let chars = text::chars_of(list);
    let parts = text::split_chars(chars.as_slice(), ',');
    let ghost pieces = text::contents(parts@);
    let mut nodes: Vec<Node> = Vec::new();
    let mut i: usize = 0;
    while i < parts.len()
        invariant
            i <= parts.len(),
            pieces == text::contents(parts@),
            pieces == text::split(list@, ','),
            nodes@.len() == i,
            forall|j: int|
                0 <= j < i ==> node_of(#[trigger] pieces[j]) == Ok::<
                    (Seq<char>, nat),
                    SettingError,
                >((nodes@[j].host@, nodes@[j].port as nat)),
        decreases parts.len() - i,
    {
        assert(pieces[i as int] == parts@[i as int]@);
        match parse_node(&parts[i]) {
            Ok(n) => {
                nodes.push(n);
            },
            Err(e) => {
                return Err(e);
            },
        }
        i += 1;
    }
    Ok(nodes)
}

/// The numbers of a list with commas.
pub fn parse_counts(list: &str) -> (r: Result<Vec<usize>, SettingError>)
    ensures
        match r {
            Ok(counts) => are_counts(counts@, list@),
            Err(e) => e == SettingError::BadNumber && !counts_ok(list@),
        },
{
    let chars = text::chars_of(list);
    let parts = text::split_chars(chars.as_slice(), ',');
    let ghost pieces = text::contents(parts@);
    let mut counts: Vec<usize> = Vec::new();
    let mut i: usize = 0;
    while i < parts.len()
        invariant
            i <= parts.len(),
            pieces == text::contents(parts@),
            pieces == text::split(list@, ','),
            counts@.len() == i,
            forall|j: int|
                0 <= j < i ==> count_of(#[trigger] pieces[j]) == Ok::<nat, SettingError>(
                    counts@[j] as nat,
                ),
        decreases parts.len() - i,
    {
        assert(pieces[i as int] == parts@[i as int]@);
        let t = text::trim_chars(parts[i].as_slice());
        let t = text::string_of(t.as_slice());
        match text::parse_number(t.as_str(), usize::MAX as u64) {
            Some(n) => {
                counts.push(n as usize);
            },
            None => {
                return Err(SettingError::BadNumber);
            },
        }
        i += 1;
    }
    Ok(counts)
}

/// The names of a list with commas, without the white space around them.
pub fn parse_names(list: &str) -> (r: Vec<String>)
    ensures
        text::texts(r@) == text::split(list@, ',').map_values(|s: Seq<char>| text::trim(s)),
{
    let chars = text::chars_of(list);
    let parts = text::split_chars(chars.as_slice(), ',');
    let ghost pieces = text::contents(parts@);
    let mut names: Vec<String> = Vec::new();
    let mut i: usize = 0;
    while i < parts.len()
        invariant
            i <= parts.len(),
            pieces == text::contents(parts@),
            names@.len() == i,
            forall|j: int| 0 <= j < i ==> (#[trigger] names@[j])@ == text::trim(pieces[j]),
        decreases parts.len() - i,
    {
        assert(pieces[i as int] == parts@[i as int]@);
        let t = text::trim_chars(parts[i].as_slice());
        names.push(text::string_of(t.as_slice()));
        i += 1;
    }
    assert(text::texts(names@) =~= pieces.map_values(|s: Seq<char>| text::trim(s)));
    names
}

/// A number of subscribers at which to measure.
struct Level {
    n: usize,
}

impl Ranked for Level {
    closed spec fn ranks(&self, other: &Self) -> bool {
        self.n <= other.n
    }

    proof fn ranks_total(a: &Self, b: &Self) {
    }

    proof fn ranks_transitive(a: &Self, b: &Self, c: &Self) {
    }

    fn at_most(&self, other: &Self) -> (r: bool) {
        self.n <= other.n
    }
}

/// The numbers of a list in ascending order, each once.
pub fn distinct_levels(counts: &Vec<usize>) -> (r: Vec<usize>)
    ensures
        forall|i: int, j: int|
            #![trigger r@[i], r@[j]]
            0 <= i < j < r@.len() ==> r@[i] < r@[j],
        forall|n: usize| r@.contains(n) <==> counts@.contains(n),
{
    let mut queue: VecDeque<Level> = VecDeque::new();
    let mut i: usize = 0;
    while i < counts.len()
        invariant
            i <= counts.len(),
            queue@.len() == i,
            forall|j: int| 0 <= j < i ==> (#[trigger] queue@[j]).n == counts@[j],
        decreases counts.len() - i,
    {
        queue.push_back(Level { n: counts[i] });
        i += 1;
    }
    let ghost given = queue@;
    let sorted = sort::sort(queue);
    let mut r: Vec<usize> = Vec::new();
    let mut k: usize = 0;
    while k < sorted.len()
        invariant
            k <= sorted.len(),
            sort::ascending(sorted@),
            forall|a: int, b: int|
                #![trigger r@[a], r@[b]]
                0 <= a < b < r@.len() ==> r@[a] < r@[b],
            forall|a: int| 0 <= a < r@.len() ==> r@[a] <= sorted@[k - 1].n,
            r@.len() > 0 ==> k > 0,
            forall|a: int|
                0 <= a < r@.len() ==> exists|b: int|
                    0 <= b < k && (#[trigger] sorted@[b]).n == #[trigger] r@[a],
            forall|b: int| 0 <= b < k ==> r@.contains((#[trigger] sorted@[b]).n),
        decreases sorted.len() - k,
    {
        let n = sorted[k].n;
        let ghost before = r@;
        proof {
            if k > 0 {
                assert(sorted@[k - 1].ranks(&sorted@[k as int]));
            }
        }
        if r.len() == 0 || r[r.len() - 1] < n {
            r.push(n);
            proof {
                assert(r@[before.len() as int] == n);
                assert forall|b: int| 0 <= b < k implies r@.contains((#[trigger] sorted@[b]).n) by {
                    let h = choose|h: int| 0 <= h < before.len() && before[h] == sorted@[b].n;
                    assert(r@[h] == sorted@[b].n);
                }
                assert forall|a: int| 0 <= a < r@.len() implies exists|b: int|
                    0 <= b < k + 1 && (#[trigger] sorted@[b]).n == #[trigger] r@[a] by {
                    if a < before.len() {
                        assert(r@[a] == before[a]);
                        let b = choose|b: int| 0 <= b < k && (#[trigger] sorted@[b]).n == before[a];
                        assert(sorted@[b].n == r@[a]);
                    } else {
                        assert(sorted@[k as int].n == r@[a]);
                    }
                }
            }
        } else {
            assert(r@[r@.len() - 1] == n);
        }
        k += 1;
    }
    proof {
        broadcast use vstd::seq_lib::group_to_multiset_ensures;

        assert forall|n: usize| r@.contains(n) <==> counts@.contains(n) by {
            if r@.contains(n) {
                let a = choose|a: int| 0 <= a < r@.len() && r@[a] == n;
                let b = choose|b: int| 0 <= b < sorted@.len() && (#[trigger] sorted@[b]).n == r@[a];
                let e = sorted@[b];
                assert(sorted@.contains(e));
                assert(given.to_multiset().count(e) == sorted@.to_multiset().count(e));
                assert(given.contains(e));
                let j = choose|j: int| 0 <= j < given.len() && given[j] == e;
                assert(counts@[j] == n);
            }
            if counts@.contains(n) {
                let j = choose|j: int| 0 <= j < counts@.len() && counts@[j] == n;
                let e = given[j];
                assert(given.contains(e));
                assert(given.to_multiset().count(e) == sorted@.to_multiset().count(e));
                assert(sorted@.contains(e));
                let b = choose|b: int| 0 <= b < sorted@.len() && sorted@[b] == e;
                assert(sorted@[b].n == n);
            }
        }
    }
    r
}

/// The settings of the throughput test, as the environment gives them.
#[derive(Clone, Debug)]
pub struct PerfEnv {
    pub nodes: Option<String>,
    pub api: Option<String>,
    pub token: Option<String>,
    pub subs: Option<String>,
    pub msgs: Option<String>,
    pub devices_per_user: Option<String>,
    pub payload: Option<String>,
    pub out: Option<String>,
}

/// The settings of the throughput test.
#[derive(Clone, Debug)]
pub struct Settings {
    pub nodes: Vec<Node>,
    pub api: String,
    pub token: String,
    pub sub_counts: Vec<usize>,
    pub messages: u64,
    pub devices_per_user: usize,
    pub payload_size: usize,
    pub out: String,
}

/// A text from the environment, or a default.
pub open spec fn env_text(value: Option<String>, default: Seq<char>) -> Seq<char> {
    match value {
        Some(s) => s@,
        None => default,
    }
}

/// A text from the environment, or a default.
pub fn env_or(value: Option<String>, default: &str) -> (r: String)
    ensures
        r@ == env_text(value, default@),
{
    match value {
        Some(s) => s,
        None => default.to_owned(),
    }
}

/// The nodes that are connected to by default.
pub fn default_nodes() -> (r: String)
    ensures
        r@ == "127.0.0.1:1883,127.0.0.1:1884,127.0.0.1:1885"@,
{
    "127.0.0.1:1883,127.0.0.1:1884,127.0.0.1:1885".to_owned()
}

fn number(value: Option<String>, default: &str, max: u64) -> (r: Result<u64, SettingError>)
    ensures
        match r {
            Ok(n) => text::parse_bounded(env_text(value, default@), max as nat) == Some(n as nat),
            Err(e) => e == SettingError::BadNumber && text::parse_bounded(
                env_text(value, default@),
                max as nat,
            ) is None,
        },
{
    let s = env_or(value, default);
    match text::parse_number(s.as_str(), max) {
        Some(n) => Ok(n),
        None => Err(SettingError::BadNumber),
    }
}

/// Whether nodes are those of a list with commas.
pub open spec fn are_nodes(nodes: Seq<Node>, list: Seq<char>) -> bool {
    let pieces = text::split(list, ',');
    nodes.len() == pieces.len() && forall|i: int|
        0 <= i < pieces.len() ==> node_of(#[trigger] pieces[i]) == Ok::<
            (Seq<char>, nat),
            SettingError,
        >((nodes[i].host@, nodes[i].port as nat))
}

/// Whether numbers are those of a list with commas.
pub open spec fn are_counts(counts: Seq<usize>, list: Seq<char>) -> bool {
    let pieces = text::split(list, ',');
    counts.len() == pieces.len() && forall|i: int|
        0 <= i < pieces.len() ==> count_of(#[trigger] pieces[i]) == Ok::<nat, SettingError>(
            counts[i] as nat,
        )
}

/// Whether a list of nodes with commas can be read.
pub open spec fn nodes_ok(list: Seq<char>) -> bool {
    forall|i: int|
        0 <= i < text::split(list, ',').len() ==> node_of(
            #[trigger] text::split(list, ',')[i],
        ) is Ok
}

/// Whether a list of numbers with commas can be read.
pub open spec fn counts_ok(list: Seq<char>) -> bool {
    forall|i: int|
        0 <= i < text::split(list, ',').len() ==> count_of(
            #[trigger] text::split(list, ',')[i],
        ) is Ok
}

/// Whether a number from the environment can be read.
pub open spec fn number_ok(value: Option<String>, default: Seq<char>, max: nat) -> bool {
    text::parse_bounded(env_text(value, default), max) is Some
}

/// The settings of the throughput test.
pub fn load_settings(env: PerfEnv) -> (r: Result<Settings, SettingError>)
    ensures
        r is Ok <==> {
            &&& nodes_ok(env_text(env.nodes, "127.0.0.1:1883,127.0.0.1:1884,127.0.0.1:1885"@))
            &&& counts_ok(env_text(env.subs, "100,500,1000,2500,5000"@))
            &&& number_ok(env.msgs, "10000"@, u64::MAX as nat)
            &&& number_ok(env.devices_per_user, "1"@, usize::MAX as nat)
            &&& number_ok(env.payload, "256"@, usize::MAX as nat)
        },
        r matches Err(e) ==> if nodes_ok(
            env_text(env.nodes, "127.0.0.1:1883,127.0.0.1:1884,127.0.0.1:1885"@),
        ) {
            e == SettingError::BadNumber
        } else {
            is_node_error(
                env_text(env.nodes, "127.0.0.1:1883,127.0.0.1:1884,127.0.0.1:1885"@),
                e,
            )
        },
        r matches Ok(s) ==> {
            &&& are_nodes(
                s.nodes@,
                env_text(env.nodes, "127.0.0.1:1883,127.0.0.1:1884,127.0.0.1:1885"@),
            )
            &&& are_counts(s.sub_counts@, env_text(env.subs, "100,500,1000,2500,5000"@))
            &&& text::parse_bounded(env_text(env.msgs, "10000"@), u64::MAX as nat) == Some(
                s.messages as nat,
            )
            &&& text::parse_bounded(env_text(env.devices_per_user, "1"@), usize::MAX as nat)
                == Some(s.devices_per_user as nat)
            &&& text::parse_bounded(env_text(env.payload, "256"@), usize::MAX as nat) == Some(
                s.payload_size as nat,
            )
            &&& s.api@ == env_text(env.api, "http://127.0.0.1:8090"@)
            &&& s.token@ == env_text(env.token, "change-me"@)
            &&& s.out@ == env_text(env.out, "perf-results.svg"@)
        },
{
    let nodes = match env.nodes {
        Some(s) => parse_nodes(s.as_str()),
        None => parse_nodes(default_nodes().as_str()),
    };
    let nodes = match nodes {
        Ok(n) => n,
        Err(e) => {
            return Err(e);
        },
    };
    let sub_counts = match parse_counts(env_or(env.subs, "100,500,1000,2500,5000").as_str()) {
        Ok(c) => c,
        Err(e) => {
            return Err(e);
        },
    };
    let messages = match number(env.msgs, "10000", u64::MAX) {
        Ok(n) => n,
        Err(e) => {
            return Err(e);
        },
    };
    let devices_per_user = match number(env.devices_per_user, "1", usize::MAX as u64) {
        Ok(n) => n as usize,
        Err(e) => {
            return Err(e);
        },
    };
    let payload_size = match number(env.payload, "256", usize::MAX as u64) {
        Ok(n) => n as usize,
        Err(e) => {
            return Err(e);
        },
    };
    Ok(
        Settings {
            nodes,
            api: env_or(env.api, "http://127.0.0.1:8090"),
            token: env_or(env.token, "change-me"),
            sub_counts,
            messages,
            devices_per_user,
            payload_size,
            out: env_or(env.out, "perf-results.svg"),
        },
    )
}

/// The settings of the resource test, as the environment gives them.
#[derive(Clone, Debug)]
pub struct ResEnv {
    pub nodes: Option<String>,
    pub api: Option<String>,
    pub token: Option<String>,
    pub subs: Option<String>,
    pub devices_per_user: Option<String>,
    pub services: Option<String>,
    pub settle_secs: Option<String>,
    pub samples: Option<String>,
    pub msg_rate: Option<String>,
    pub payload: Option<String>,
    pub out: Option<String>,
}

/// The settings of the resource test.
#[derive(Clone, Debug)]
pub struct ResSettings {
    pub nodes: Vec<Node>,
    pub api: String,
    pub token: String,
    pub sub_levels: Vec<usize>,
    pub devices_per_user: usize,
    pub services: Vec<String>,
    pub settle_secs: u64,
    pub samples: usize,
    pub msg_rate: u64,
    pub payload_size: usize,
    pub out: String,
}

/// Whether levels are the numbers of a list with commas, ascending and each
/// once.
pub open spec fn are_levels(levels: Seq<usize>, list: Seq<char>) -> bool {
    &&& forall|i: int, j: int|
        #![trigger levels[i], levels[j]]
        0 <= i < j < levels.len() ==> levels[i] < levels[j]
    &&& exists|counts: Seq<usize>| #[trigger]
        are_counts(counts, list) && forall|n: usize| levels.contains(n) <==> counts.contains(n)
}

/// The settings of the resource test.
pub fn load_resource_settings(env: ResEnv) -> (r: Result<ResSettings, SettingError>)
    ensures
        r is Ok <==> {
            &&& nodes_ok(env_text(env.nodes, "127.0.0.1:1883,127.0.0.1:1884,127.0.0.1:1885"@))
            &&& counts_ok(env_text(env.subs, "0,1000,2500,5000,7500,10000"@))
            &&& number_ok(env.devices_per_user, "1"@, usize::MAX as nat)
            &&& number_ok(env.settle_secs, "10"@, u64::MAX as nat)
            &&& number_ok(env.samples, "3"@, usize::MAX as nat)
            &&& number_ok(env.msg_rate, "10"@, u64::MAX as nat)
            &&& number_ok(env.payload, "64"@, usize::MAX as nat)
        },
        r matches Err(e) ==> if nodes_ok(
            env_text(env.nodes, "127.0.0.1:1883,127.0.0.1:1884,127.0.0.1:1885"@),
        ) {
            e == SettingError::BadNumber
        } else {
            is_node_error(
                env_text(env.nodes, "127.0.0.1:1883,127.0.0.1:1884,127.0.0.1:1885"@),
                e,
            )
        },
        r matches Ok(s) ==> {
            &&& are_nodes(
                s.nodes@,
                env_text(env.nodes, "127.0.0.1:1883,127.0.0.1:1884,127.0.0.1:1885"@),
            )
            &&& are_levels(s.sub_levels@, env_text(env.subs, "0,1000,2500,5000,7500,10000"@))
            &&& text::parse_bounded(env_text(env.devices_per_user, "1"@), usize::MAX as nat)
                == Some(s.devices_per_user as nat)
            &&& text::texts(s.services@) == text::split(
                env_text(env.services, "node1,node2,node3"@),
                ',',
            ).map_values(|n: Seq<char>| text::trim(n))
            &&& text::parse_bounded(env_text(env.settle_secs, "10"@), u64::MAX as nat) == Some(
                s.settle_secs as nat,
            )
            &&& text::parse_bounded(env_text(env.samples, "3"@), usize::MAX as nat) == Some(
                s.samples as nat,
            )
            &&& text::parse_bounded(env_text(env.msg_rate, "10"@), u64::MAX as nat) == Some(
                s.msg_rate as nat,
            )
            &&& text::parse_bounded(env_text(env.payload, "64"@), usize::MAX as nat) == Some(
                s.payload_size as nat,
            )
            &&& s.api@ == env_text(env.api, "http://127.0.0.1:8090"@)
            &&& s.token@ == env_text(env.token, "change-me"@)
            &&& s.out@ == env_text(env.out, "perf-resources.svg"@)
        },
{
    let nodes = match env.nodes {
        Some(s) => parse_nodes(s.as_str()),
        None => parse_nodes(default_nodes().as_str()),
    };
    let nodes = match nodes {
        Ok(n) => n,
        Err(e) => {
            return Err(e);
        },
    };
    let counts = match parse_counts(env_or(env.subs, "0,1000,2500,5000,7500,10000").as_str()) {
        Ok(c) => c,
        Err(e) => {
            return Err(e);
        },
    };
    let sub_levels = distinct_levels(&counts);
    let services = parse_names(env_or(env.services, "node1,node2,node3").as_str());
    let devices_per_user = match number(env.devices_per_user, "1", usize::MAX as u64) {
        Ok(n) => n as usize,
        Err(e) => {
            return Err(e);
        },
    };
    let settle_secs = match number(env.settle_secs, "10", u64::MAX) {
        Ok(n) => n,
        Err(e) => {
            return Err(e);
        },
    };
    let samples = match number(env.samples, "3", usize::MAX as u64) {
        Ok(n) => n as usize,
        Err(e) => {
            return Err(e);
        },
    };
    let msg_rate = match number(env.msg_rate, "10", u64::MAX) {
        Ok(n) => n,
        Err(e) => {
            return Err(e);
        },
    };
    let payload_size = match number(env.payload, "64", usize::MAX as u64) {
        Ok(n) => n as usize,
        Err(e) => {
            return Err(e);
        },
    };
    Ok(
        ResSettings {
            nodes,
            api: env_or(env.api, "http://127.0.0.1:8090"),
            token: env_or(env.token, "change-me"),
            sub_levels,
            devices_per_user,
            services,
            settle_secs,
            samples,
            msg_rate,
            payload_size,
            out: env_or(env.out, "perf-resources.svg"),
        },
    )
}

/// The largest of some numbers, or zero.
pub open spec fn largest_of(counts: Seq<usize>) -> usize
    decreases counts.len(),
{
    if counts.len() == 0 {
        0
    } else {
        let rest = largest_of(counts.drop_last());
        if counts.last() > rest {
            counts.last()
        } else {
            rest
        }
    }
}

/// The largest of some numbers, or zero.
pub fn largest(counts: &Vec<usize>) -> (r: usize)
    ensures
        r == largest_of(counts@),
{
    let mut r: usize = 0;
    let mut i: usize = 0;
    assert(counts@.take(0) =~= Seq::empty());
    while i < counts.len()
        invariant
            i <= counts.len(),
            r == largest_of(counts@.take(i as int)),
        decreases counts.len() - i,
    {
        if counts[i] > r {
            r = counts[i];
        }
        i += 1;
        assert(counts@.take(i as int).drop_last() =~= counts@.take(i - 1));
    }
    assert(counts@.take(i as int) =~= counts@);
    r
}

/// The number of users that have so many devices each: the quotient, rounded up.
pub open spec fn users_of(subscribers: int, devices_per_user: int) -> int {
    (subscribers + devices_per_user - 1) / devices_per_user
}

/// The number of users that it takes for so many subscribers.
pub fn users_for(subscribers: usize, devices_per_user: usize) -> (r: usize)
    requires
        devices_per_user > 0,
        subscribers + devices_per_user - 1 <= usize::MAX,
    ensures
        r == users_of(subscribers as int, devices_per_user as int),
{
    (subscribers + (devices_per_user - 1)) / devices_per_user
}

/// The name that a test run gives to one of many things.
pub open spec fn name_of(prefix: Seq<char>, run_id: Seq<char>, i: nat) -> Seq<char> {
    prefix + run_id + "-"@ + text::decimal(i)
}

/// The name that a test run gives to one of many things.
pub fn name(prefix: &str, run_id: &str, i: u64) -> (r: String)
    ensures
        r@ == name_of(prefix@, run_id@, i as nat),
{
    let head = text::concat(prefix, run_id);
    let dash = text::concat(head.as_str(), "-");
    text::concat(dash.as_str(), text::decimal_of(i).as_str())
}

/// The topic of one of the users of a test run.
pub open spec fn topic_of(run_id: Seq<char>, user: nat) -> Seq<char> {
    "chat/"@ + name_of("uid-"@, run_id, user) + "/m/all"@
}

/// The topic of one of the users of a test run.
pub fn topic(run_id: &str, user: u64) -> (r: String)
    ensures
        r@ == topic_of(run_id@, user as nat),
{
    let head = text::concat("chat/", name("uid-", run_id, user).as_str());
    text::concat(head.as_str(), "/m/all")
}

/// The password of everyone in a test run.
pub const PASSWORD: &'static str = "perf-pass";

/// The load tests.
#[derive(Clone, Copy, Debug, PartialEq, Eq, Structural)]
pub enum LoadTest {
    Throughput,
    Resources,
}

/// The request by which one of the users of a test run is created. In the
/// resource test they publish to their own topics, for which they are superusers.
pub open spec fn user_request_of(test: LoadTest, run_id: Seq<char>, user: nat) -> CreateView {
    CreateView {
        username: name_of("tok-"@, run_id, user),
        userid: name_of("uid-"@, run_id, user),
        password: PASSWORD@,
        superuser: test == LoadTest::Resources,
        admin: false,
    }
}

/// The request by which one of the users of a test run is created.
pub fn user_request(test: LoadTest, run_id: &str, user: u64) -> (r: CreateUser)
    ensures
        r@ == user_request_of(test, run_id@, user as nat),
{
    CreateUser {
        username: name("tok-", run_id, user),
        userid: name("uid-", run_id, user),
        password: PASSWORD.to_owned(),
        superuser: test == LoadTest::Resources,
        admin: false,
    }
}

/// The request by which the publisher of a throughput test is created.
pub fn publisher_request(run_id: &str) -> (r: CreateUser)
    ensures
        r@ == (CreateView {
            username: "tok-pub-"@ + run_id@,
            userid: "svc-perf"@,
            password: PASSWORD@,
            superuser: true,
            admin: false,
        }),
{
    CreateUser {
        username: text::concat("tok-pub-", run_id),
        userid: "svc-perf".to_owned(),
        password: PASSWORD.to_owned(),
        superuser: true,
        admin: false,
    }
}

/// Where users are created.
pub fn users_url(api: &str) -> (r: String)
    ensures
        r@ == api@ + "/api/v1/users"@,
{
    text::concat(api, "/api/v1/users")
}

/// Where a user is deleted.
pub fn user_url(api: &str, username: &str) -> (r: String)
    ensures
        r@ == api@ + "/api/v1/users"@ + "/"@ + username@,
{
    let head = text::concat(users_url(api).as_str(), "/");
    text::concat(head.as_str(), username)
}

/// One subscriber of a test run.
#[derive(Clone, Debug)]
pub struct Subscriber {
    pub node: usize,
    pub client_id: String,
    pub username: String,
    pub topic: String,
}

/// The subscriber with a number: the devices of a user follow each other, and the
/// subscribers go round the nodes.
pub fn subscriber(
    prefix: &str,
    run_id: &str,
    i: usize,
    devices_per_user: usize,
    nodes: usize,
) -> (r: Subscriber)
    requires
        devices_per_user > 0,
        nodes > 0,
    ensures
        r.node == i % nodes,
        r.client_id@ == name_of(prefix@, run_id@, i as nat),
        r.username@ == name_of("tok-"@, run_id@, (i / devices_per_user) as nat),
        r.topic@ == topic_of(run_id@, (i / devices_per_user) as nat),
{
    let user = i / devices_per_user;
    Subscriber {
        node: i % nodes,
        client_id: name(prefix, run_id, i as u64),
        username: name("tok-", run_id, user as u64),
        topic: topic(run_id, user as u64),
    }
}

/// The topic of a message: the users get the messages in turn.
pub fn message_topic(run_id: &str, seq: u64, users: usize) -> (r: String)
    requires
        users > 0,
    ensures
        r@ == topic_of(run_id@, (seq as usize as int % users as int) as nat),
{
    topic(run_id, (seq as usize % users) as u64)
}

/// The number of messages that arrive if all do.
pub fn expected_deliveries(messages: u64, devices_per_user: usize) -> (r: u64)
    requires
        messages * devices_per_user <= u64::MAX,
    ensures
        r == messages * devices_per_user,
{
    messages * devices_per_user as u64
}

/// The text of a message: when it was sent, a bar, and filling.
pub open spec fn payload_of(sent_ns: nat, padding: nat) -> Seq<char> {
    text::decimal(sent_ns) + "|"@ + Seq::new(padding, |i: int| 'x')
}

/// The text of a message.
pub fn payload(sent_ns: u64, padding: usize) -> (r: String)
    ensures
        r@ == payload_of(sent_ns as nat, padding as nat),
{
    let mut r = text::concat(text::decimal_of(sent_ns).as_str(), "|");
    let ghost head = r@;
    let mut i: usize = 0;
    assert(head + Seq::new(0, |i: int| 'x') =~= head);
    while i < padding
        invariant
            i <= padding,
            r@ == head + Seq::new(i as nat, |i: int| 'x'),
        decreases padding - i,
    {
        r.push('x');
        i += 1;
        assert(head + Seq::new(i as nat, |i: int| 'x') =~= (head + Seq::new(
            (i - 1) as nat,
            |i: int| 'x',
        )).push('x'));
    }
    r
}

/// When the text of a message says that it was sent.
pub open spec fn sent_at(payload: Seq<u8>) -> Option<nat> {
    if valid_utf8(payload) {
        text::parse_bounded(text::split(decode_utf8(payload), '|')[0], u64::MAX as nat)
    } else {
        None
    }
}

/// How long a message was under way, if it says when it was sent; not less than
/// zero, though clocks may differ.
pub fn latency(payload: &[u8], received_ns: u64) -> (r: Option<u64>)
    ensures
        match r {
            Some(l) => sent_at(payload@) matches Some(sent) && l == (if received_ns >= sent {
                received_ns - sent
            } else {
                0
            }),
            None => sent_at(payload@) is None,
        },
{
    match text::from_utf8(payload) {
        Some(s) => {
            let chars = text::chars_of(s.as_str());
            let parts = text::split_chars(chars.as_slice(), '|');
            proof {
                text::lemma_split_nonempty(chars@, '|');
                assert(text::contents(parts@).len() > 0);
                assert(text::contents(parts@)[0] == parts@[0]@);
            }
            let first = text::string_of(parts[0].as_slice());
            match text::parse_number(first.as_str(), u64::MAX) {
                Some(sent) => Some(received_ns.saturating_sub(sent)),
                None => None,
            }
        },
        None => None,
    }
}

/// How often a client tries to connect.
pub const MAX_ATTEMPTS: u64 = 8;

/// What a client does that could not connect.
#[derive(Clone, Copy, Debug, PartialEq, Eq, Structural)]
pub enum ConnectStep {
    /// It waits and tries again; whether that is reported.
    Retry { wait_ms: u64, report: bool },
    /// It fails.
    GiveUp,
}

/// What a client does that could not connect at an attempt, counted from one: it
/// waits half a second more each time, and reports from the third on.
pub fn connect_failed(attempt: u64) -> (r: ConnectStep)
    ensures
        r == (if attempt < MAX_ATTEMPTS {
            ConnectStep::Retry { wait_ms: (500 * attempt) as u64, report: attempt >= 3 }
        } else {
            ConnectStep::GiveUp
        }),
{
    if attempt < MAX_ATTEMPTS {
        ConnectStep::Retry { wait_ms: 500 * attempt, report: attempt >= 3 }
    } else {
        ConnectStep::GiveUp
    }
}

/// Whether a user is there after a request to create it: it was created, or
/// existed.
pub fn user_ready(status: u16) -> (r: bool)
    ensures
        r == (status == 201 || status == 409),
{
    status == 201 || status == 409
}

/// How long a round goes on without progress: fifteen seconds.
pub const STALL_NANOS: u128 = 15_000_000_000;

/// How long a round waits at most once all is published: three minutes.
pub const ROUND_NANOS: u128 = 180_000_000_000;

/// How far the messages of a round have come.
#[derive(Clone, Debug)]
pub struct Progress {
    pub expected: u64,
    pub started: u128,
    pub last_count: u64,
    pub last_progress: u128,
}

/// What a round does next.
#[derive(Clone, Copy, Debug, PartialEq, Eq, Structural)]
pub enum RoundStep {
    Complete,
    Stalled,
    Wait,
}

impl Progress {
    /// The beginning, when all is published.
    pub fn new(expected: u64, now: u128) -> (r: Progress)
        ensures
            r == (Progress { expected, started: now, last_count: 0, last_progress: now }),
    {
        Progress { expected, started: now, last_count: 0, last_progress: now }
    }

    /// When the round has last come on, as it counts messages at a time.
    pub open spec fn came_on(&self, count: u64, now: u128) -> u128 {
        if count != self.last_count {
            now
        } else {
            self.last_progress
        }
    }

    /// What a round does that counts so many messages: it is complete with all of
    /// them, and stalled when none has come for too long or it takes too long.
    pub fn check(&mut self, count: u64, now: u128) -> (r: RoundStep)
        requires
            old(self).last_progress <= now,
            old(self).started <= now,
        ensures
            r == (if count >= old(self).expected {
                RoundStep::Complete
            } else if now - old(self).came_on(count, now) > STALL_NANOS || now - old(self).started
                > ROUND_NANOS {
                RoundStep::Stalled
            } else {
                RoundStep::Wait
            }),
            *final(self) == (if count >= old(self).expected {
                *old(self)
            } else {
                Progress {
                    last_count: count,
                    last_progress: old(self).came_on(count, now),
                    ..*old(self)
                }
            }),
    {
        if count >= self.expected {
            return RoundStep::Complete;
        }
        if count != self.last_count {
            self.last_count = count;
            self.last_progress = now;
        }
        if now - self.last_progress > STALL_NANOS || now - self.started > ROUND_NANOS {
            return RoundStep::Stalled;
        }
        RoundStep::Wait
    }
}

/// The id of the first container that `docker ps` lists, if it lists one.
pub fn container_id(listed: &str) -> (r: Option<String>)
    ensures
        match r {
            Some(id) => id@.len() > 0 && id@ == text::trim(text::split(listed@, '\n')[0]),
            None => text::trim(text::split(listed@, '\n')[0]).len() == 0,
        },
{
    let chars = text::chars_of(listed);
    let lines = text::split_chars(chars.as_slice(), '\n');
    proof {
        text::lemma_split_nonempty(chars@, '\n');
        assert(text::contents(lines@).len() > 0);
        assert(text::contents(lines@)[0] == lines@[0]@);
    }
    let id = text::trim_chars(lines[0].as_slice());
    if id.len() == 0 {
        None
    } else {
        Some(text::string_of(id.as_slice()))
    }
}

/// What `docker stats` says of a container, as texts.
#[derive(Clone, Debug)]
pub struct StatRow {
    pub id: String,
    pub cpu: String,
    pub mem: String,
}

/// What `docker stats` says of a container, as texts.
pub struct StatView {
    pub id: Seq<char>,
    pub cpu: Seq<char>,
    pub mem: Seq<char>,
}

impl View for StatRow {
    type V = StatView;

    open spec fn view(&self) -> StatView {
        StatView { id: self.id@, cpu: self.cpu@, mem: self.mem@ }
    }
}

/// `s` without the percent signs at its end.
pub open spec fn without_percent(s: Seq<char>) -> Seq<char>
    decreases s.len(),
{
    if s.len() > 0 && s.last() == '%' {
        without_percent(s.drop_last())
    } else {
        s
    }
}

/// What a line of `docker stats` says: three parts with semicolons, of which the
/// last has the memory in use before a slash.
pub open spec fn stat_of(line: Seq<char>) -> Option<StatView> {
    let parts = text::split(text::trim(line), ';');
    if parts.len() == 3 {
        Some(
            StatView {
                id: text::trim(parts[0]),
                cpu: without_percent(text::trim(parts[1])),
                mem: text::trim(text::split(parts[2], '/')[0]),
            },
        )
    } else {
        None
    }
}

/// What the lines of `docker stats` say; lines that say nothing are passed over.
pub open spec fn stats_of(lines: Seq<Seq<char>>) -> Seq<StatView>
    decreases lines.len(),
{
    if lines.len() == 0 {
        Seq::empty()
    } else {
        let rest = stats_of(lines.drop_last());
        match stat_of(lines.last()) {
            Some(s) => rest.push(s),
            None => rest,
        }
    }
}

fn trim_percent(s: &Vec<char>) -> (r: String)
    ensures
        r@ == without_percent(s@),
{
    let mut n: usize = s.len();
    assert(s@.take(n as int) =~= s@);
    while n > 0 && s[n - 1] == '%'
        invariant
            n <= s.len(),
            without_percent(s@) == without_percent(s@.take(n as int)),
        decreases n,
    {
        assert(s@.take(n as int).drop_last() =~= s@.take(n - 1));
        n -= 1;
    }
    let kept = text::copy_range(s.as_slice(), 0, n);
    assert(kept@ =~= s@.take(n as int));
    text::string_of(kept.as_slice())
}

fn parse_stat(line: &Vec<char>) -> (r: Option<StatRow>)
    ensures
        match r {
            Some(s) => stat_of(line@) == Some(s@),
            None => stat_of(line@) is None,
        },
{
    let t = text::trim_chars(line.as_slice());
    let parts = text::split_chars(t.as_slice(), ';');
    let ghost all = text::contents(parts@);
    assert(all.len() == parts@.len());
    if parts.len() != 3 {
        return None;
    }
    assert(all[0] == parts@[0]@ && all[1] == parts@[1]@ && all[2] == parts@[2]@);
    let id = text::trim_chars(parts[0].as_slice());
    let cpu = text::trim_chars(parts[1].as_slice());
    let usage = text::split_chars(parts[2].as_slice(), '/');
    proof {
        text::lemma_split_nonempty(parts@[2]@, '/');
        assert(text::contents(usage@).len() > 0);
        assert(text::contents(usage@)[0] == usage@[0]@);
    }
    let mem = text::trim_chars(usage[0].as_slice());
    Some(
        StatRow {
            id: text::string_of(id.as_slice()),
            cpu: trim_percent(&cpu),
            mem: text::string_of(mem.as_slice()),
        },
    )
}

/// What the rows of a list say.
pub open spec fn row_views(rows: Seq<StatRow>) -> Seq<StatView> {
    Seq::new(rows.len(), |i: int| rows[i]@)
}

/// What the output of `docker stats` says of containers.
pub fn parse_stats(output: &str) -> (r: Vec<StatRow>)
    ensures
        row_views(r@) == stats_of(text::split(output@, '\n')),
{
    let chars = text::chars_of(output);
    let lines = text::split_chars(chars.as_slice(), '\n');
    let ghost all = text::contents(lines@);
    let mut rows: Vec<StatRow> = Vec::new();
    let mut i: usize = 0;
    assert(all.take(0) =~= Seq::empty());
    assert(row_views(rows@) =~= Seq::empty());
    while i < lines.len()
        invariant
            i <= lines.len(),
            all == text::contents(lines@),
            row_views(rows@) == stats_of(all.take(i as int)),
        decreases lines.len() - i,
    {
        let ghost before = row_views(rows@);
        assert(all[i as int] == lines@[i as int]@);
        if let Some(row) = parse_stat(&lines[i]) {
            rows.push(row);
            assert(row_views(rows@) =~= before.push(row@));
        }
        i += 1;
        assert(all.take(i as int).drop_last() =~= all.take(i - 1));
        assert(all.take(i as int).last() == all[i - 1]);
    }
    assert(all.take(i as int) =~= all);
    rows
}

/// Whether two ids are of one container: the one is the beginning of the other.
pub open spec fn same_container(a: Seq<char>, b: Seq<char>) -> bool {
    text::begins_with(a, b) || text::begins_with(b, a)
}

/// The last row about a container, if there is one.
pub fn find_stats(rows: &Vec<StatRow>, id: &str) -> (r: Option<usize>)
    ensures
        match r {
            Some(i) => i < rows@.len() && same_container(id@, rows@[i as int].id@) && forall|j: int|
                i < j < rows@.len() ==> !same_container(id@, (#[trigger] rows@[j]).id@),
            None => forall|j: int|
                0 <= j < rows@.len() ==> !same_container(id@, (#[trigger] rows@[j]).id@),
        },
{
    let mut i: usize = rows.len();
    while i > 0
        invariant
            i <= rows.len(),
            forall|j: int|
                i <= j < rows@.len() ==> !same_container(id@, (#[trigger] rows@[j]).id@),
        decreases i,
    {
        let k = rows[i - 1].id.as_str();
        if text::strip_prefix(id, k).is_some() || text::strip_prefix(k, id).is_some() {
            return Some(i - 1);
        }
        i -= 1;
    }
    None
}

/// A unit in which memory is given.
#[derive(Clone, Copy, Debug, PartialEq, Eq, Structural)]
pub enum MemUnit {
    TiB,
    GiB,
    MiB,
    KiB,
    Byte,
}

/// The unit that a text ends in.
pub open spec fn unit_of(s: Seq<char>) -> Option<MemUnit> {
    if text::ends_with(s, "TiB"@) {
        Some(MemUnit::TiB)
    } else if text::ends_with(s, "GiB"@) {
        Some(MemUnit::GiB)
    } else if text::ends_with(s, "MiB"@) {
        Some(MemUnit::MiB)
    } else if text::ends_with(s, "KiB"@) {
        Some(MemUnit::KiB)
    } else if text::ends_with(s, "B"@) {
        Some(MemUnit::Byte)
    } else {
        None
    }
}

/// The length of the name of a unit.
pub open spec fn unit_len(u: MemUnit) -> int {
    if u == MemUnit::Byte {
        1
    } else {
        3
    }
}

fn ends_in(s: &Vec<char>, suffix: &str) -> (r: bool)
    ensures
        r == text::ends_with(s@, suffix@),
{
    let t = text::chars_of(suffix);
    if t.len() > s.len() {
        return false;
    }
    let tail = text::copy_range(s.as_slice(), s.len() - t.len(), s.len());
    assert(tail@ =~= s@.skip(s@.len() - t@.len()));
    text::chars_eq(tail.as_slice(), t.as_slice())
}

/// The number and the unit of an amount of memory, if it has a unit.
pub fn parse_mem(s: &str) -> (r: Option<(String, MemUnit)>)
    ensures
        match r {
            Some(m) => unit_of(s@) == Some(m.1) && m.0@ == text::trim(
                s@.take(s@.len() - unit_len(m.1)),
            ),
            None => unit_of(s@) is None,
        },
{
    let c = text::chars_of(s);
    proof {
        reveal_strlit("TiB");
        reveal_strlit("GiB");
        reveal_strlit("MiB");
        reveal_strlit("KiB");
        reveal_strlit("B");
    }
    let unit = if ends_in(&c, "TiB") {
        MemUnit::TiB
    } else if ends_in(&c, "GiB") {
        MemUnit::GiB
    } else if ends_in(&c, "MiB") {
        MemUnit::MiB
    } else if ends_in(&c, "KiB") {
        MemUnit::KiB
    } else if ends_in(&c, "B") {
        MemUnit::Byte
    } else {
        return None;
    };
    let n: usize = if unit == MemUnit::Byte {
        1
    } else {
        3
    };
    let number = text::copy_range(c.as_slice(), 0, c.len() - n);
    assert(number@ =~= s@.take(s@.len() - unit_len(unit)));
    let number = text::trim_chars(number.as_slice());
    Some((text::string_of(number.as_slice()), unit))
}

/// The file for the numbers of a chart.
pub fn csv_path(out: &str) -> (r: String)
    ensures
        r@ == text::replaced(out@, ".svg"@, ".csv"@),
{
    proof {
        reveal_strlit(".svg");
    }
    text::replace(out, ".svg", ".csv")
}

/// What the subscribers do while resources are measured.
#[derive(Clone, Copy, Debug, PartialEq, Eq, Structural)]
pub enum Workload {
    Idle,
    QosOne,
    QosTwo,
}

/// The file for the chart of a workload.
pub fn chart_path(out: &str, workload: Workload) -> (r: String)
    ensures
        r@ == (match workload {
            Workload::Idle => out@,
            Workload::QosOne => text::replaced(out@, ".svg"@, "-qos1.svg"@),
            Workload::QosTwo => text::replaced(out@, ".svg"@, "-qos2.svg"@),
        }),
{
    proof {
        reveal_strlit(".svg");
    }
    match workload {
        Workload::Idle => out.to_owned(),
        Workload::QosOne => text::replace(out, ".svg", "-qos1.svg"),
        Workload::QosTwo => text::replace(out, ".svg", "-qos2.svg"),
    }
}

/// How long a subscriber waits between two messages to publish so many a second,
/// in microseconds; none if it publishes nothing.
pub fn publish_interval(msg_rate: u64) -> (r: Option<u64>)
    ensures
        r == (if msg_rate == 0 {
            None::<u64>
        } else {
            Some(1_000_000u64 / msg_rate)
        }),
{
    if msg_rate == 0 {
        None
    } else {
        Some(1_000_000 / msg_rate)
    }
}

/// There are enough users for all subscribers, and not one more than it takes.
pub proof fn law_users_suffice(subscribers: int, devices_per_user: int, i: int)
    requires
        devices_per_user > 0,
        0 <= i < subscribers,
    ensures
        0 <= i / devices_per_user < users_of(subscribers, devices_per_user),
        (users_of(subscribers, devices_per_user) - 1) * devices_per_user < subscribers,
{
    let d = devices_per_user;
    let u = users_of(subscribers, d);
    assert(0 <= i / d && u * d <= subscribers + d - 1 && u * d > subscribers - 1 && (i / d) * d
        <= i) by (nonlinear_arith)
        requires
            d > 0,
            0 <= i < subscribers,
            u == (subscribers + d - 1) / d,
    ;
    assert(i / d < u) by (nonlinear_arith)
        requires
            d > 0,
            (i / d) * d <= i,
            i <= subscribers - 1,
            u * d > subscribers - 1,
    ;
    assert((u - 1) * d < subscribers) by (nonlinear_arith)
        requires
            d > 0,
            u * d <= subscribers + d - 1,
    ;
}

/// A number below a power of ten has at most as many digits as the exponent says.
proof fn lemma_decimal_short(n: nat, k: nat)
    requires
        k > 0,
        n < pow(10, k),
    ensures
        text::decimal(n).len() <= k,
    decreases k,
{
    reveal(pow);
    if n >= 10 {
        assert(pow(10, k) == 10 * pow(10, (k - 1) as nat));
        assert(pow(10, 0) == 1);
        lemma_decimal_short(n / 10, (k - 1) as nat);
    }
}

/// The hexadecimal notation of a number below a power of sixteen has at most as
/// many digits as the exponent says, and can stand in a user id.
proof fn lemma_hexadecimal_short(n: nat, k: nat)
    requires
        k > 0,
        n < pow(16, k),
    ensures
        text::hexadecimal(n).len() <= k,
        forall|i: int|
            0 <= i < text::hexadecimal(n).len() ==> api::is_segment_char(
                #[trigger] text::hexadecimal(n)[i],
            ),
    decreases k,
{
    reveal(pow);
    if n >= 16 {
        assert(pow(16, k) == 16 * pow(16, (k - 1) as nat));
        assert(pow(16, 0) == 1);
        lemma_hexadecimal_short(n / 16, (k - 1) as nat);
    }
}

/// A name of a test run is short and plain.
proof fn lemma_name(prefix: Seq<char>, started_ms: u64, i: u64)
    requires
        prefix.len() == 4,
        forall|j: int| 0 <= j < 4 ==> api::is_segment_char(#[trigger] prefix[j]),
    ensures
        api::segment_ok(name_of(prefix, text::hexadecimal(started_ms as nat), i as nat)),
        api::username_ok(name_of(prefix, text::hexadecimal(started_ms as nat), i as nat)),
{
    let run_id = text::hexadecimal(started_ms as nat);
    let d = text::decimal(i as nat);
    let s = name_of(prefix, run_id, i as nat);
    reveal_strlit("-");
    assert(pow(16, 16) == 0x1_0000_0000_0000_0000 && pow(10, 20) == 100_000_000_000_000_000_000)
        by {
        reveal(pow);
        reveal_with_fuel(pow, 21);
    }
    lemma_hexadecimal_short(started_ms as nat, 16);
    lemma_decimal_short(i as nat, 20);
    text::lemma_decimal(i as nat);
    assert forall|j: int| 0 <= j < s.len() implies api::is_segment_char(#[trigger] s[j]) by {
        if j < 4 {
            assert(s[j] == prefix[j]);
        } else if j < 4 + run_id.len() {
            assert(s[j] == run_id[j - 4]);
        } else if j > 4 + run_id.len() {
            assert(s[j] == d[j - 5 - run_id.len()]);
            assert(text::is_digit(d[j - 5 - run_id.len()]));
        }
    }
    assert(is_ascii_chars(s));
    is_ascii_chars_encode_utf8(s);
}

/// The users of a test run, which is named by the time at which it started, can
/// be created, and may subscribe to their topics; those of a resource test may
/// publish to them too.
pub proof fn law_users_of_a_run_may_use_their_topics(
    test: LoadTest,
    started_ms: u64,
    user: u64,
    hash: Seq<char>,
    acl: AclView,
    client_id: Seq<char>,
    qos: u8,
    retain: bool,
)
    ensures
        ({
            let run_id = text::hexadecimal(started_ms as nat);
            let req = user_request_of(test, run_id, user as nat);
            let info = acl::auth_info(
                api::requested_user(req, hash),
                acl,
                Some(req.username),
                client_id,
            );
            &&& api::refusal(req) is None
            &&& acl::permitted(
                acl.enabled,
                Some(info),
                RequestView::Subscribe { filter: topic_of(run_id, user as nat), qos },
            )
            &&& test == LoadTest::Resources ==> acl::permitted(
                acl.enabled,
                Some(info),
                RequestView::Publish { topic: topic_of(run_id, user as nat), qos, retain },
            )
        }),
{
    let run_id = text::hexadecimal(started_ms as nat);
    let req = user_request_of(test, run_id, user as nat);
    let id = req.userid;
    let t = topic_of(run_id, user as nat);
    reveal_strlit("tok-");
    reveal_strlit("uid-");
    reveal_strlit("perf-pass");
    reveal_strlit("chat/");
    reveal_strlit("/m/all");
    lemma_name("tok-"@, started_ms, user);
    lemma_name("uid-"@, started_ms, user);
    assert(is_ascii_chars(req.password));
    is_ascii_chars_encode_utf8(req.password);
    auth::law_user_ids_are_plain(id);
    let chat = seq!['c', 'h', 'a', 't'];
    let m = seq!['m'];
    let all = seq!['a', 'l', 'l'];
    assert(t =~= chat + seq!['/'] + (id + seq!['/'] + (m + seq!['/'] + all)));
    text::lemma_split_first(chat, '/', id + seq!['/'] + (m + seq!['/'] + all));
    text::lemma_split_first(id, '/', m + seq!['/'] + all);
    text::lemma_split_first(m, '/', all);
    assert(topic::segments(t)[1] == id);
    let u = api::requested_user(req, hash);
    let g = acl::granted(u.userid, u.admin, acl.fanout_prefixes, acl.admin_prefixes);
    if u.superuser {
        acl::law_superusers_may_do_everything(
            u,
            acl,
            Some(req.username),
            client_id,
            RequestView::Subscribe { filter: t, qos },
        );
        acl::law_superusers_may_do_everything(
            u,
            acl,
            Some(req.username),
            client_id,
            RequestView::Publish { topic: t, qos, retain },
        );
    } else {
        acl::lemma_allowed(u, acl, Some(req.username), client_id, t, qos, retain);
        acl::lemma_own_hits(id, Some(req.username), client_id, t);
        assert(g[0] == topic::own_topics(id));
        assert(acl::text_hits(g[0], Some(req.username), client_id, t));
    }
}

/// A receiver reads the time of sending out of the text of a message.
pub proof fn law_payload_tells_when_it_was_sent(sent_ns: u64, padding: nat)
    ensures
        sent_at(encode_utf8(payload_of(sent_ns as nat, padding))) == Some(sent_ns as nat),
{
    let p = payload_of(sent_ns as nat, padding);
    let d = text::decimal(sent_ns as nat);
    let fill = Seq::new(padding, |i: int| 'x');
    encode_utf8_valid_utf8(p);
    encode_utf8_decode_utf8(p);
    reveal_strlit("|");
    assert("|"@ =~= seq!['|']);
    text::lemma_decimal(sent_ns as nat);
    if d.contains('|') {
        let i = choose|i: int| 0 <= i < d.len() && d[i] == '|';
        assert(text::is_digit(d[i]));
    }
    assert(p =~= d + seq!['|'] + fill);
    text::lemma_split_first(d, '|', fill);
}

/// A node of a list is a host and a port with a colon between them, the last one; it is
/// an error if there is none, and if what is behind it is no port.
pub proof fn law_nodes_in_a_list(s: Seq<char>, host: Seq<char>, port: Seq<char>)
    ensures
        !text::trim(s).contains(':') ==> node_of(s) == Err::<(Seq<char>, nat), SettingError>(
            SettingError::BadNode,
        ),
        text::trim(s) == host + seq![':'] + port && !port.contains(':') ==> (
        match text::parse_bounded(port, 65535) {
            Some(n) => node_of(s) == Ok::<(Seq<char>, nat), SettingError>((host, n)),
            None => node_of(s) == Err::<(Seq<char>, nat), SettingError>(SettingError::BadPort),
        }),
{
    let t = text::trim(s);
    if !t.contains(':') {
        text::law_no_occurrence(t, ':');
    }
    if t == host + seq![':'] + port && !port.contains(':') {
        let i = host.len() as int;
        assert forall|j: int| i < j < t.len() implies t[j] != ':' by {
            assert(port.contains(port[j - i - 1]));
        }
        text::law_occurrences(t, ':', i);
        assert(t.take(i) =~= host);
        assert(t.skip(i + 1) =~= port);
    }
}

/// A count of a list is the number that the text is once spaces around it are dropped.
pub proof fn law_counts_in_a_list(s: Seq<char>)
    ensures
        match text::parse_bounded(text::trim(s), usize::MAX as nat) {
            Some(n) => count_of(s) == Ok::<nat, SettingError>(n),
            None => count_of(s) == Err::<nat, SettingError>(SettingError::BadNumber),
        },
{
}

/// The nodes, and the counts, of a list are those of its pieces between commas, one for
/// one.
pub proof fn law_lists(
    list: Seq<char>,
    nodes: Seq<Node>,
    counts: Seq<usize>,
    i: int,
)
    requires
        0 <= i < text::split(list, ',').len(),
    ensures
        are_nodes(nodes, list) ==> nodes.len() == text::split(list, ',').len() && node_of(
            text::split(list, ',')[i],
        ) == Ok::<(Seq<char>, nat), SettingError>((nodes[i].host@, nodes[i].port as nat)),
        are_counts(counts, list) ==> counts.len() == text::split(list, ',').len() && count_of(
            text::split(list, ',')[i],
        ) == Ok::<nat, SettingError>(counts[i] as nat),
        nodes_ok(list) ==> node_of(text::split(list, ',')[i]) is Ok,
        node_of(text::split(list, ',')[i]) is Err ==> !nodes_ok(list),
        counts_ok(list) ==> count_of(text::split(list, ',')[i]) is Ok,
        count_of(text::split(list, ',')[i]) is Err ==> !counts_ok(list),
{
}

/// A list is refused only for a piece that is none, and with what is wrong with the
/// first such piece.
pub proof fn law_refused_lists(list: Seq<char>, e: SettingError)
    ensures
        is_node_error(list, e) ==> exists|i: int|
            0 <= i < text::split(list, ',').len() && node_of(#[trigger] text::split(list, ',')[i])
                == Err::<(Seq<char>, nat), SettingError>(e) && forall|j: int|
                0 <= j < i ==> node_of(#[trigger] text::split(list, ',')[j]) is Ok,
        !nodes_ok(list) ==> exists|i: int|
            0 <= i < text::split(list, ',').len() && node_of(
                #[trigger] text::split(list, ',')[i],
            ) is Err,
        !counts_ok(list) ==> exists|i: int|
            0 <= i < text::split(list, ',').len() && count_of(
                #[trigger] text::split(list, ',')[i],
            ) is Err,
{
}

/// The levels of a run are the counts of a list, each once and in ascending order.
pub proof fn law_levels(levels: Seq<usize>, list: Seq<char>, counts: Seq<usize>)
    requires
        are_levels(levels, list),
        are_counts(counts, list),
    ensures
        forall|i: int, j: int|
            #![trigger levels[i], levels[j]]
            0 <= i < j < levels.len() ==> levels[i] < levels[j],
        forall|n: usize| levels.contains(n) <==> counts.contains(n),
{
    let other = choose|other: Seq<usize>| #[trigger]
        are_counts(other, list) && forall|n: usize| levels.contains(n) <==> other.contains(n);
    let pieces = text::split(list, ',');
    assert forall|i: int| 0 <= i < counts.len() implies counts[i] == other[i] by {
        assert(count_of(pieces[i]) == Ok::<nat, SettingError>(counts[i] as nat));
        assert(count_of(pieces[i]) == Ok::<nat, SettingError>(other[i] as nat));
    }
    assert(counts =~= other);
}

/// What the environment says is taken as it is, and the default where it says nothing.
pub proof fn law_environment(value: String, default: Seq<char>, max: nat)
    ensures
        env_text(None, default) == default,
        env_text(Some(value), default) == value@,
        number_ok(None, default, max) <==> text::parse_bounded(default, max) is Some,
        number_ok(Some(value), default, max) <==> text::parse_bounded(value@, max) is Some,
{
}

/// The largest of some numbers is one of them, and none is larger.
pub proof fn law_largest(counts: Seq<usize>)
    ensures
        counts.len() > 0 ==> counts.contains(largest_of(counts)),
        counts.len() == 0 ==> largest_of(counts) == 0,
        forall|i: int| 0 <= i < counts.len() ==> #[trigger] counts[i] <= largest_of(counts),
    decreases counts.len(),
{
    if counts.len() > 0 {
        let rest = counts.drop_last();
        law_largest(rest);
        assert(counts[counts.len() - 1] == counts.last());
        assert forall|i: int| 0 <= i < counts.len() implies #[trigger] counts[i] <= largest_of(
            counts,
        ) by {
            if i < rest.len() {
                assert(rest[i] == counts[i]);
            }
        }
        if largest_of(counts) != counts.last() {
            assert(rest.len() > 0);
            let i = choose|i: int| 0 <= i < rest.len() && rest[i] == largest_of(rest);
            assert(counts[i] == largest_of(counts));
        }
    }
}

/// Without subscribers there are no users, and with so many devices a user has that many
/// subscribers.
pub proof fn law_how_many_users(users: int, devices_per_user: int)
    requires
        users >= 0,
        devices_per_user > 0,
    ensures
        users_of(users * devices_per_user, devices_per_user) == users,
{
    vstd::arithmetic::div_mod::lemma_fundamental_div_mod_converse(
        users * devices_per_user + devices_per_user - 1,
        devices_per_user,
        users,
        devices_per_user - 1,
    );
}

/// What the users of a run are called, what they may do, and where they publish.
pub proof fn law_names_of_a_run(
    test: LoadTest,
    prefix: Seq<char>,
    run_id: Seq<char>,
    user: nat,
)
    ensures
        name_of(prefix, run_id, user) == prefix + run_id + "-"@ + text::decimal(user),
        topic_of(run_id, user) == "chat/"@ + ("uid-"@ + run_id + "-"@ + text::decimal(user))
            + "/m/all"@,
        user_request_of(test, run_id, user).username == "tok-"@ + run_id + "-"@ + text::decimal(
            user,
        ),
        user_request_of(test, run_id, user).userid == "uid-"@ + run_id + "-"@ + text::decimal(
            user,
        ),
        user_request_of(test, run_id, user).password == "perf-pass"@,
        user_request_of(test, run_id, user).superuser == (test is Resources),
        !user_request_of(test, run_id, user).admin,
{
}

/// A payload is the time it was sent at, a bar, and padding.
pub proof fn law_payloads(sent_ns: nat, padding: nat, i: int)
    ensures
        ({
            let p = payload_of(sent_ns, padding);
            let n = text::decimal(sent_ns).len() as int;
            &&& p.len() == n + 1 + padding
            &&& p.take(n) == text::decimal(sent_ns)
            &&& p[n] == '|'
            &&& n < i < p.len() ==> p[i] == 'x'
        }),
{
    reveal_strlit("|");
    let p = payload_of(sent_ns, padding);
    let n = text::decimal(sent_ns).len() as int;
    assert(p.take(n) =~= text::decimal(sent_ns));
}

/// When a payload was sent is the number in front of its first bar; one that is no text,
/// or has no such number, does not tell.
pub proof fn law_when_a_payload_was_sent(bytes: Seq<u8>, time: Seq<char>, rest: Seq<char>)
    requires
        !time.contains('|'),
    ensures
        !valid_utf8(bytes) ==> sent_at(bytes) is None,
        sent_at(encode_utf8(time + seq!['|'] + rest)) == text::parse_bounded(
            time,
            u64::MAX as nat,
        ),
        sent_at(encode_utf8(time)) == text::parse_bounded(time, u64::MAX as nat),
{
    let s = time + seq!['|'] + rest;
    encode_utf8_valid_utf8(s);
    encode_utf8_decode_utf8(s);
    encode_utf8_valid_utf8(time);
    encode_utf8_decode_utf8(time);
    text::law_split(time, rest, '|');
    assert((seq![time] + text::split(rest, '|'))[0] == time);
}

/// A round came on when the count last changed; it may stand still for 15 seconds and
/// last for three minutes, and a client tries eight times to connect.
pub proof fn law_progress(p: Progress, count: u64, now: u128)
    ensures
        count != p.last_count ==> p.came_on(count, now) == now,
        count == p.last_count ==> p.came_on(count, now) == p.last_progress,
        STALL_NANOS == 15_000_000_000,
        ROUND_NANOS == 180_000_000_000,
        MAX_ATTEMPTS == 8,
{
}

/// Percent signs at the end are dropped, all of them, and nothing else.
pub proof fn law_percent_signs(s: Seq<char>)
    ensures
        s.len() == 0 || s.last() != '%' ==> without_percent(s) == s,
        without_percent(s + seq!['%']) == without_percent(s),
{
    let t = s + seq!['%'];
    assert(t.last() == '%');
    assert(t.drop_last() =~= s);
}

/// A line of readings has three parts with semicolons between them: the container, the
/// load in percent, and the memory up to a slash; other lines say nothing.
pub proof fn law_readings(line: Seq<char>, id: Seq<char>, cpu: Seq<char>, mem: Seq<char>)
    ensures
        text::trim(line) == id + seq![';'] + (cpu + seq![';'] + mem) && !id.contains(';')
            && !cpu.contains(';') && !mem.contains(';') ==> {
            &&& stat_of(line) matches Some(s)
            &&& s.id == text::trim(id)
            &&& s.cpu == without_percent(text::trim(cpu))
            &&& s.mem == text::trim(text::split(mem, '/')[0])
        },
        text::split(text::trim(line), ';').len() != 3 ==> stat_of(line) is None,
{
    if text::trim(line) == id + seq![';'] + (cpu + seq![';'] + mem) && !id.contains(';')
        && !cpu.contains(';') && !mem.contains(';') {
        text::law_split(id, cpu + seq![';'] + mem, ';');
        text::law_split(cpu, mem, ';');
        text::law_split(mem, mem, ';');
        let parts = text::split(text::trim(line), ';');
        assert(parts =~= seq![id, cpu, mem]);
    }
}

/// The readings are those of the lines, in their order, with those left out that say
/// nothing.
pub proof fn law_readings_in_order(lines: Seq<Seq<char>>, line: Seq<char>, rows: Seq<StatRow>, i: int)
    ensures
        stats_of(Seq::empty()) == Seq::<StatView>::empty(),
        stat_of(line) is None ==> stats_of(lines.push(line)) == stats_of(lines),
        stat_of(line) matches Some(s) ==> stats_of(lines.push(line)) == stats_of(lines).push(s),
        row_views(rows).len() == rows.len(),
        0 <= i < rows.len() ==> row_views(rows)[i].id == rows[i].id@ && row_views(rows)[i].cpu
            == rows[i].cpu@ && row_views(rows)[i].mem == rows[i].mem@,
{
    assert(lines.push(line).drop_last() =~= lines);
}

/// Two ids are those of one container if one begins with the other.
pub proof fn law_containers(id: Seq<char>, rest: Seq<char>, other: Seq<char>)
    ensures
        same_container(id, id + rest),
        same_container(id + rest, id),
        same_container(id, other) ==> id.is_prefix_of(other) || other.is_prefix_of(id),
{
    assert((id + rest).take(id.len() as int) =~= id);
    if same_container(id, other) {
        if text::begins_with(id, other) {
            assert(id.subrange(0, other.len() as int) =~= other);
        } else {
            assert(other.subrange(0, id.len() as int) =~= id);
        }
    }
}

/// The unit of an amount of memory is what it ends with, a `B` alone being bytes.
pub proof fn law_units(s: Seq<char>)
    ensures
        unit_of(s + "TiB"@) == Some(MemUnit::TiB),
        unit_of(s + "GiB"@) == Some(MemUnit::GiB),
        unit_of(s + "MiB"@) == Some(MemUnit::MiB),
        unit_of(s + "KiB"@) == Some(MemUnit::KiB),
        s.len() == 0 || s.last() != 'i' ==> unit_of(s + "B"@) == Some(MemUnit::Byte),
        s.len() == 0 || s.last() != 'B' ==> unit_of(s) is None,
        unit_len(MemUnit::TiB) == 3,
        unit_len(MemUnit::GiB) == 3,
        unit_len(MemUnit::MiB) == 3,
        unit_len(MemUnit::KiB) == 3,
        unit_len(MemUnit::Byte) == 1,
{
    reveal_strlit("TiB");
    reveal_strlit("GiB");
    reveal_strlit("MiB");
    reveal_strlit("KiB");
    reveal_strlit("B");
    lemma_unit(s, "TiB"@);
    lemma_unit(s, "GiB"@);
    lemma_unit(s, "MiB"@);
    lemma_unit(s, "KiB"@);
    lemma_unit(s, "B"@);
}

/// Which units a text ends with, by its last characters.
proof fn lemma_unit(s: Seq<char>, unit: Seq<char>)
    requires
        unit.len() > 0,
    ensures
        ({
            let t = s + unit;
            let n = t.len() as int;
            &&& text::ends_with(t, "TiB"@) <==> n >= 3 && t[n - 3] == 'T' && t[n - 2] == 'i' && t[n
                - 1] == 'B'
            &&& text::ends_with(t, "GiB"@) <==> n >= 3 && t[n - 3] == 'G' && t[n - 2] == 'i' && t[n
                - 1] == 'B'
            &&& text::ends_with(t, "MiB"@) <==> n >= 3 && t[n - 3] == 'M' && t[n - 2] == 'i' && t[n
                - 1] == 'B'
            &&& text::ends_with(t, "KiB"@) <==> n >= 3 && t[n - 3] == 'K' && t[n - 2] == 'i' && t[n
                - 1] == 'B'
            &&& text::ends_with(t, "B"@) <==> t[n - 1] == 'B'
        }),
        s.len() == 0 || s.last() != 'B' ==> {
            &&& !text::ends_with(s, "TiB"@) && !text::ends_with(s, "GiB"@)
            &&& !text::ends_with(s, "MiB"@) && !text::ends_with(s, "KiB"@)
            &&& !text::ends_with(s, "B"@)
        },
{
    let t = s + unit;
    lemma_suffix(t, "TiB"@, 'T');
    lemma_suffix(t, "GiB"@, 'G');
    lemma_suffix(t, "MiB"@, 'M');
    lemma_suffix(t, "KiB"@, 'K');
    lemma_suffix(s, "TiB"@, 'T');
    lemma_suffix(s, "GiB"@, 'G');
    lemma_suffix(s, "MiB"@, 'M');
    lemma_suffix(s, "KiB"@, 'K');
}

proof fn lemma_suffix(t: Seq<char>, unit: Seq<char>, c: char)
    requires
        c == 'T' ==> unit == "TiB"@,
        c == 'G' ==> unit == "GiB"@,
        c == 'M' ==> unit == "MiB"@,
        c == 'K' ==> unit == "KiB"@,
        c == 'T' || c == 'G' || c == 'M' || c == 'K',
    ensures
        ({
            let n = t.len() as int;
            &&& text::ends_with(t, unit) <==> n >= 3 && t[n - 3] == c && t[n - 2] == 'i' && t[n - 1]
                == 'B'
            &&& text::ends_with(t, "B"@) <==> n >= 1 && t[n - 1] == 'B'
        }),
{
    reveal_strlit("TiB");
    reveal_strlit("GiB");
    reveal_strlit("MiB");
    reveal_strlit("KiB");
    reveal_strlit("B");
    let n = t.len() as int;
    text::law_begins_and_ends(t, unit);
    text::law_begins_and_ends(t, "B"@);
    assert(unit.len() == 3 && unit[0] == c && unit[1] == 'i' && unit[2] == 'B');
    assert("B"@.len() == 1 && "B"@[0] == 'B');
    if n >= 3 && t[n - 3] == c && t[n - 2] == 'i' && t[n - 1] == 'B' {
        assert forall|i: int| 0 <= i < unit.len() implies t[n - unit.len() + i]
            == #[trigger] unit[i] by {
            assert(i == 0 || i == 1 || i == 2);
        }
    }
    if text::ends_with(t, unit) {
        assert(t[n - 3 + 0] == unit[0]);
        assert(t[n - 3 + 1] == unit[1]);
        assert(t[n - 3 + 2] == unit[2]);
    }
    if text::ends_with(t, "B"@) {
        assert(t[n - 1 + 0] == "B"@[0]);
    }
}

} // verus!
