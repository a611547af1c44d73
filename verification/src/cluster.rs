//! The other nodes: where they are, what the plugin that connects them is
//! told, and how often a node tries to join.
use crate::config::ClusterConfig;
use crate::text;
use vstd::prelude::*;

verus! {

/// The address of the management API of another node, by an entry of the form
/// `id@host:port`. There is none for the node itself, nor where the entry has
/// no number in front of an `@`.
pub open spec fn peer_url(entry: Seq<char>, my_id: u64, api_port: u16) -> Option<Seq<char>> {
    let at = text::find(entry, '@') as int;
    if at >= entry.len() {
        None
    } else {
        match text::parse_bounded(entry.take(at), u64::MAX as nat) {
            Some(id) => if id == my_id {
                None
            } else {
                let host = text::split(entry.skip(at + 1), ':')[0];
                Some("http://"@ + host + ":"@ + text::decimal(api_port as nat))
            },
            None => None,
        }
    }
}

/// The addresses of the management API of the other nodes.
pub open spec fn peer_urls_of(entries: Seq<Seq<char>>, my_id: u64, api_port: u16) -> Seq<Seq<char>>
    decreases entries.len(),
{
    if entries.len() == 0 {
        Seq::empty()
    } else {
        let rest = peer_urls_of(entries.drop_last(), my_id, api_port);
        match peer_url(entries.last(), my_id, api_port) {
            Some(url) => rest.push(url),
            None => rest,
        }
    }
}

fn url_of(entry: &str, my_id: u64, api_port: u16) -> (r: Option<String>)
    ensures
        match r {
            Some(url) => peer_url(entry@, my_id, api_port) == Some(url@),
            None => peer_url(entry@, my_id, api_port) is None,
        },
{
    let chars = text::chars_of(entry);
    let mut at: usize = 0;
    while at < chars.len() && chars[at] != '@'
        invariant
            at <= chars.len(),
            chars@ == entry@,
            forall|j: int| 0 <= j < at ==> entry@[j] != '@',
        decreases chars.len() - at,
    {
        at += 1;
    }
    proof {
        text::lemma_find_is(entry@, '@', at as int);
    }
    if at == chars.len() {
        return None;
    }
    let id = text::string_of(text::copy_range(chars.as_slice(), 0, at).as_slice());
    assert(id@ =~= entry@.take(at as int));
    match text::parse_number(id.as_str(), u64::MAX) {
        Some(n) => {
            if n == my_id {
                return None;
            }
            let rest = text::copy_range(chars.as_slice(), at + 1, chars.len());
            assert(rest@ =~= entry@.skip(at + 1));
            let parts = text::split_chars(rest.as_slice(), ':');
            proof {
                text::lemma_split_nonempty(rest@, ':');
                assert(text::contents(parts@).len() > 0);
                assert(text::contents(parts@)[0] == parts@[0]@);
            }
            let host = text::string_of(parts[0].as_slice());
            let head = text::concat("http://", host.as_str());
            let colon = text::concat(head.as_str(), ":");
            Some(text::concat(colon.as_str(), text::decimal_of(api_port as u64).as_str()))
        },
        None => None,
    }
}

/// The addresses of the management API of the other nodes: the host of each
/// entry of the form `id@host:port`, with the port of this node's own API.
pub fn peer_urls(entries: &Vec<String>, my_id: u64, api_port: u16) -> (r: Vec<String>)
    ensures
        text::texts(r@) == peer_urls_of(text::texts(entries@), my_id, api_port),
{
    let ghost all = text::texts(entries@);
    let mut r: Vec<String> = Vec::new();
    let mut i: usize = 0;
    assert(all.take(0) =~= Seq::empty());
    assert(text::texts(r@) =~= Seq::empty());
    while i < entries.len()
        invariant
            i <= entries.len(),
            all == text::texts(entries@),
            text::texts(r@) == peer_urls_of(all.take(i as int), my_id, api_port),
        decreases entries.len() - i,
    {
        let ghost before = text::texts(r@);
        if let Some(url) = url_of(entries[i].as_str(), my_id, api_port) {
            r.push(url);
            assert(text::texts(r@) =~= before.push(url@));
        }
        i += 1;
        assert(all.take(i as int).drop_last() =~= all.take(i - 1));
        assert(all.take(i as int).last() == all[i - 1]);
    }
    assert(all.take(i as int) =~= all);
    r
}

/// Texts in double quotes with commas between them.
pub open spec fn quoted(items: Seq<Seq<char>>) -> Seq<char>
    decreases items.len(),
{
    if items.len() == 0 {
        Seq::empty()
    } else {
        quoted(items.drop_last()) + (if items.len() == 1 {
            Seq::empty()
        } else {
            ", "@
        }) + "\""@ + items.last() + "\""@
    }
}

/// An array of strings in TOML.
pub fn toml_string_array(items: &Vec<String>) -> (r: String)
    ensures
        r@ == "["@ + quoted(text::texts(items@)) + "]"@,
{
    let ghost all = text::texts(items@);
    let mut list = String::new();
    let mut i: usize = 0;
    assert(all.take(0) =~= Seq::empty());
    assert(list@ =~= Seq::empty());
    while i < items.len()
        invariant
            i <= items.len(),
            all == text::texts(items@),
            list@ == quoted(all.take(i as int)),
        decreases items.len() - i,
    {
        let ghost before = list@;
        if i > 0 {
            list = text::concat(list.as_str(), ", ");
        }
        list = text::concat(list.as_str(), "\"");
        list = text::concat(list.as_str(), items[i].as_str());
        list = text::concat(list.as_str(), "\"");
        i += 1;
        proof {
            assert(all.take(i as int).drop_last() =~= all.take(i - 1));
            assert(all.take(i as int).last() == all[i - 1]);
            assert(list@ =~= quoted(all.take(i as int)));
        }
    }
    assert(all.take(i as int) =~= all);
    let open = text::concat("[", list.as_str());
    text::concat(open.as_str(), "]")
}

/// The configuration of the plugin that connects the nodes.
pub open spec fn plugin_config(c: ClusterConfig, worker_threads: nat) -> Seq<char> {
    "\nworker_threads = "@ + text::decimal(worker_threads)
        + "\nmessage_type = 198\nnode_grpc_addrs = "@ + ("["@ + quoted(
        text::texts(c.node_grpc_addrs@),
    ) + "]"@) + "\nraft_peer_addrs = "@ + ("["@ + quoted(text::texts(c.raft_peer_addrs@)) + "]"@)
        + "\nladdr = \""@ + c.raft_laddr@ + "\"\nleader_id = "@ + text::decimal(c.leader_id as nat)
        + "\nverify_addr = true\ntry_lock_timeout = \"3s\"\nhealth.exit_on_node_unavailable = false"@
        + "\nraft.check_quorum = true\nraft.pre_vote = true\nraft.election_tick = 30"@
        + "\nraft.heartbeat_tick = 3\nraft.proposal_batch_size = 250"@
        + "\nraft.proposal_batch_timeout = \"20ms\"\nraft.grpc_breaker_threshold = 50"@
        + "\nraft.grpc_breaker_retry_interval = \"500ms\"\n"@
}

/// The configuration of the plugin that connects the nodes, in TOML.
pub fn cluster_raft_plugin_config(cluster: &ClusterConfig, worker_threads: usize) -> (r: String)
    ensures
        r@ == plugin_config(*cluster, worker_threads as nat),
{
    let grpc_addrs = toml_string_array(&cluster.node_grpc_addrs);
    let raft_addrs = toml_string_array(&cluster.raft_peer_addrs);
    let mut s = text::concat(
        "\nworker_threads = ",
        text::decimal_of(worker_threads as u64).as_str(),
    );
    s = text::concat(s.as_str(), "\nmessage_type = 198\nnode_grpc_addrs = ");
    s = text::concat(s.as_str(), grpc_addrs.as_str());
    s = text::concat(s.as_str(), "\nraft_peer_addrs = ");
    s = text::concat(s.as_str(), raft_addrs.as_str());
    s = text::concat(s.as_str(), "\nladdr = \"");
    s = text::concat(s.as_str(), cluster.raft_laddr.as_str());
    s = text::concat(s.as_str(), "\"\nleader_id = ");
    s = text::concat(s.as_str(), text::decimal_of(cluster.leader_id).as_str());
    s = text::concat(
        s.as_str(),
        "\nverify_addr = true\ntry_lock_timeout = \"3s\"\nhealth.exit_on_node_unavailable = false",
    );
    s = text::concat(
        s.as_str(),
        "\nraft.check_quorum = true\nraft.pre_vote = true\nraft.election_tick = 30",
    );
    s = text::concat(s.as_str(), "\nraft.heartbeat_tick = 3\nraft.proposal_batch_size = 250");
    s = text::concat(
        s.as_str(),
        "\nraft.proposal_batch_timeout = \"20ms\"\nraft.grpc_breaker_threshold = 50",
    );
    s = text::concat(s.as_str(), "\nraft.grpc_breaker_retry_interval = \"500ms\"\n");
    s
}

/// What a node does that could not join the others.
#[derive(Clone, Copy, Debug, PartialEq, Eq, Structural)]
pub enum JoinStep {
    /// It waits and tries again; this will be the attempt.
    Retry { attempt: u32, wait_secs: u64 },
    /// It fails.
    GiveUp,
}

/// What a node does that could not join the others after some retries.
pub fn join_failed(attempt: u32, cluster: &ClusterConfig) -> (r: JoinStep)
    ensures
        r == (if attempt < cluster.join_max_retries {
            JoinStep::Retry {
                attempt: (attempt + 1) as u32,
                wait_secs: cluster.join_retry_secs,
            }
        } else {
            JoinStep::GiveUp
        }),
{
    if attempt < cluster.join_max_retries {
        JoinStep::Retry { attempt: attempt + 1, wait_secs: cluster.join_retry_secs }
    } else {
        JoinStep::GiveUp
    }
}

/// A node never has itself among the other nodes.
pub proof fn law_a_node_is_not_its_own_peer(entry: Seq<char>, my_id: u64, api_port: u16)
    requires
        text::find(entry, '@') < entry.len(),
        text::parse_bounded(entry.take(text::find(entry, '@') as int), u64::MAX as nat) == Some(
            my_id as nat,
        ),
    ensures
        peer_url(entry, my_id, api_port) is None,
{
}

/// An entry of the form `id@host:port` or `id@host` is the address of the API of that
/// host, unless the id is the node's own; one without an `@` or without a number in
/// front of it is none.
pub proof fn law_where_peers_are(
    id: Seq<char>,
    host: Seq<char>,
    port: Seq<char>,
    n: nat,
    my_id: u64,
    api_port: u16,
)
    requires
        !id.contains('@'),
        !host.contains(':'),
    ensures
        ({
            let entry = id + seq!['@'] + host + seq![':'] + port;
            let bare = id + seq!['@'] + host;
            let url = "http://"@ + host + ":"@ + text::decimal(api_port as nat);
            &&& text::parse_bounded(id, u64::MAX as nat) == Some(n) && n != my_id ==> peer_url(
                entry,
                my_id,
                api_port,
            ) == Some(url) && peer_url(bare, my_id, api_port) == Some(url)
            &&& text::parse_bounded(id, u64::MAX as nat) == Some(n) && n == my_id ==> peer_url(
                entry,
                my_id,
                api_port,
            ) is None && peer_url(bare, my_id, api_port) is None
            &&& text::parse_bounded(id, u64::MAX as nat) is None ==> peer_url(
                entry,
                my_id,
                api_port,
            ) is None && peer_url(bare, my_id, api_port) is None
            &&& peer_url(id, my_id, api_port) is None
        }),
{
    let entry = id + seq!['@'] + host + seq![':'] + port;
    let bare = id + seq!['@'] + host;
    let at = id.len() as int;
    assert forall|j: int| 0 <= j < at implies id[j] != '@' by {
        assert(id.contains(id[j]));
    }
    text::law_occurrences(entry, '@', at);
    text::law_occurrences(bare, '@', at);
    text::law_no_occurrence(id, '@');
    assert(entry.take(at) =~= id);
    assert(bare.take(at) =~= id);
    assert(entry.skip(at + 1) =~= host + seq![':'] + port);
    assert(bare.skip(at + 1) =~= host);
    text::law_split(host, port, ':');
    assert((seq![host] + text::split(port, ':'))[0] == host);
}

/// The addresses of the other nodes are those of the entries, in their order, with those
/// left out that are none.
pub proof fn law_peers_in_order(
    entries: Seq<Seq<char>>,
    entry: Seq<char>,
    my_id: u64,
    api_port: u16,
)
    ensures
        peer_urls_of(Seq::empty(), my_id, api_port) == Seq::<Seq<char>>::empty(),
        peer_url(entry, my_id, api_port) is None ==> peer_urls_of(
            entries.push(entry),
            my_id,
            api_port,
        ) == peer_urls_of(entries, my_id, api_port),
        peer_url(entry, my_id, api_port) matches Some(url) ==> peer_urls_of(
            entries.push(entry),
            my_id,
            api_port,
        ) == peer_urls_of(entries, my_id, api_port).push(url),
{
    assert(entries.push(entry).drop_last() =~= entries);
}

/// Texts stand in quotes, each in its own, with a comma and a space between two.
pub proof fn law_quotes(items: Seq<Seq<char>>, item: Seq<char>)
    ensures
        quoted(Seq::empty()) == Seq::<char>::empty(),
        quoted(seq![item]) == "\""@ + item + "\""@,
        items.len() > 0 ==> quoted(items.push(item)) == quoted(items) + ", "@ + "\""@ + item
            + "\""@,
{
    assert(seq![item].drop_last() =~= Seq::empty());
    assert(quoted(seq![item].drop_last()) =~= Seq::empty());
    assert(quoted(seq![item]) =~= "\""@ + item + "\""@);
    assert(items.push(item).drop_last() =~= items);
}

/// What the plugin that connects the nodes is told: the threads, the other nodes, where
/// to listen and who leads, each as configured.
pub proof fn law_what_the_plugin_is_told(c: ClusterConfig, worker_threads: nat)
    ensures
        ({
            let told = plugin_config(c, worker_threads);
            let front = "\nworker_threads = "@ + text::decimal(worker_threads)
                + "\nmessage_type = 198\nnode_grpc_addrs = "@ + ("["@ + quoted(
                text::texts(c.node_grpc_addrs@),
            ) + "]"@) + "\nraft_peer_addrs = "@ + ("["@ + quoted(text::texts(c.raft_peer_addrs@))
                + "]"@) + "\nladdr = \""@ + c.raft_laddr@ + "\"\nleader_id = "@ + text::decimal(
                c.leader_id as nat,
            );
            &&& told.take(front.len() as int) == front
            &&& told.skip(front.len() as int)
                == "\nverify_addr = true\ntry_lock_timeout = \"3s\"\nhealth.exit_on_node_unavailable = false"@
                + "\nraft.check_quorum = true\nraft.pre_vote = true\nraft.election_tick = 30"@
                + "\nraft.heartbeat_tick = 3\nraft.proposal_batch_size = 250"@
                + "\nraft.proposal_batch_timeout = \"20ms\"\nraft.grpc_breaker_threshold = 50"@
                + "\nraft.grpc_breaker_retry_interval = \"500ms\"\n"@
        }),
{
}

} // verus!
