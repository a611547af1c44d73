//! The configuration of a node: what it is by default, and how the
//! environment overrides what the file says.
use crate::text;
use vstd::prelude::*;

verus! {

/// An address to listen on.
#[derive(Clone, Debug)]
pub struct Endpoint {
    pub host: String,
    pub port: u16,
}

/// The configuration of a node.
#[derive(Clone, Debug)]
pub struct Config {
    pub mqtt: MqttConfig,
    pub api: ApiConfig,
    pub db: DbConfig,
    pub fanout: FanoutConfig,
    pub acl: AclConfig,
    pub cluster: ClusterConfig,
}

/// The broker itself.
#[derive(Clone, Debug)]
pub struct MqttConfig {
    pub tcp_addr: Endpoint,
    pub ws_addr: Endpoint,
    pub message_expiry_secs: u64,
    pub max_mqueue_len: usize,
    pub max_inflight: u16,
    pub busy_check: bool,
    pub persist_messages: bool,
}

/// The management API.
#[derive(Clone, Debug)]
pub struct ApiConfig {
    pub addr: Endpoint,
    pub token: Option<String>,
}

/// The user directory.
#[derive(Clone, Debug)]
pub struct DbConfig {
    pub url: String,
}

/// The subscriptions that clients get without asking.
#[derive(Clone, Debug)]
pub struct FanoutConfig {
    pub auto_subscribe: bool,
    pub qos: u8,
}

/// The other nodes and how to join them.
#[derive(Clone, Debug)]
pub struct ClusterConfig {
    pub enabled: bool,
    pub node_id: u64,
    pub grpc_laddr: Endpoint,
    pub raft_laddr: String,
    pub node_grpc_addrs: Vec<String>,
    pub raft_peer_addrs: Vec<String>,
    pub leader_id: u64,
    pub join_max_retries: u32,
    pub join_retry_secs: u64,
}

/// What clients may do that are not superusers.
#[derive(Clone, Debug)]
pub struct AclConfig {
    pub enabled: bool,
    pub publish_topics: Vec<String>,
    pub fanout_prefixes: Vec<String>,
    pub admin_prefixes: Vec<String>,
}

/// What clients may do that are not superusers.
pub struct AclView {
    pub enabled: bool,
    pub publish_topics: Seq<Seq<char>>,
    pub fanout_prefixes: Seq<Seq<char>>,
    pub admin_prefixes: Seq<Seq<char>>,
}

impl View for AclConfig {
    type V = AclView;

    open spec fn view(&self) -> AclView {
        AclView {
            enabled: self.enabled,
            publish_topics: text::texts(self.publish_topics@),
            fanout_prefixes: text::texts(self.fanout_prefixes@),
            admin_prefixes: text::texts(self.admin_prefixes@),
        }
    }
}

/// An endpoint: the host and the port.
pub open spec fn is_at(e: Endpoint, host: Seq<char>, port: u16) -> bool {
    e.host@ == host && e.port == port
}

fn any_host(port: u16) -> (r: Endpoint)
    ensures
        is_at(r, "0.0.0.0"@, port),
{
    Endpoint { host: "0.0.0.0".to_owned(), port }
}

impl MqttConfig {
    /// Whether nothing was configured.
    pub open spec fn is_default(&self) -> bool {
        &&& is_at(self.tcp_addr, "0.0.0.0"@, 1883)
        &&& is_at(self.ws_addr, "0.0.0.0"@, 8083)
        &&& self.message_expiry_secs == 20 * 60
        &&& self.max_mqueue_len == 1000
        &&& self.max_inflight == 65535
        &&& !self.busy_check
        &&& !self.persist_messages
    }
}

impl Default for MqttConfig {
    fn default() -> (r: Self)
        ensures
            r.is_default(),
    {
        MqttConfig {
            tcp_addr: any_host(1883),
            ws_addr: any_host(8083),
            message_expiry_secs: 20 * 60,
            max_mqueue_len: 1000,
            max_inflight: 65535,
            busy_check: false,
            persist_messages: false,
        }
    }
}

impl ApiConfig {
    /// Whether nothing was configured.
    pub open spec fn is_default(&self) -> bool {
        &&& is_at(self.addr, "0.0.0.0"@, 8090)
        &&& self.token is None
    }
}

impl Default for ApiConfig {
    fn default() -> (r: Self)
        ensures
            r.is_default(),
    {
        ApiConfig { addr: any_host(8090), token: None }
    }
}

impl DbConfig {
    /// Whether nothing was configured.
    pub open spec fn is_default(&self) -> bool {
        &&& self.url@ == "redb://data/users.redb"@
    }
}

impl Default for DbConfig {
    fn default() -> (r: Self)
        ensures
            r.is_default(),
    {
        DbConfig { url: "redb://data/users.redb".to_owned() }
    }
}

impl FanoutConfig {
    /// Whether nothing was configured.
    pub open spec fn is_default(&self) -> bool {
        &&& !self.auto_subscribe
        &&& self.qos == 1
    }
}

impl Default for FanoutConfig {
    fn default() -> (r: Self)
        ensures
            r.is_default(),
    {
        FanoutConfig { auto_subscribe: false, qos: 1 }
    }
}

impl ClusterConfig {
    /// Whether nothing was configured.
    pub open spec fn is_default(&self) -> bool {
        &&& !self.enabled
        &&& self.node_id == 1
        &&& is_at(self.grpc_laddr, "0.0.0.0"@, 5363)
        &&& self.raft_laddr@ == "0.0.0.0:6003"@
        &&& self.node_grpc_addrs@.len() == 0
        &&& self.raft_peer_addrs@.len() == 0
        &&& self.leader_id == 1
        &&& self.join_max_retries == 10
        &&& self.join_retry_secs == 5
    }
}

impl Default for ClusterConfig {
    fn default() -> (r: Self)
        ensures
            r.is_default(),
    {
        ClusterConfig {
            enabled: false,
            node_id: 1,
            grpc_laddr: any_host(5363),
            raft_laddr: "0.0.0.0:6003".to_owned(),
            node_grpc_addrs: Vec::new(),
            raft_peer_addrs: Vec::new(),
            leader_id: 1,
            join_max_retries: 10,
            join_retry_secs: 5,
        }
    }
}

impl AclConfig {
    /// Whether nothing was configured.
    pub open spec fn is_default(&self) -> bool {
        self@ == (AclView {
                enabled: true,
                publish_topics: seq!["chatsync"@, "updates"@],
                fanout_prefixes: seq!["fanout"@],
                admin_prefixes: seq!["adminfanout"@],
            })
    }
}

impl Default for AclConfig {
    fn default() -> (r: Self)
        ensures
            r.is_default(),
    {
        let mut publish_topics: Vec<String> = Vec::new();
        publish_topics.push("chatsync".to_owned());
        publish_topics.push("updates".to_owned());
        let mut fanout_prefixes: Vec<String> = Vec::new();
        fanout_prefixes.push("fanout".to_owned());
        let mut admin_prefixes: Vec<String> = Vec::new();
        admin_prefixes.push("adminfanout".to_owned());
        let r = AclConfig { enabled: true, publish_topics, fanout_prefixes, admin_prefixes };
        assert(r@.publish_topics =~= seq!["chatsync"@, "updates"@]);
        assert(r@.fanout_prefixes =~= seq!["fanout"@]);
        assert(r@.admin_prefixes =~= seq!["adminfanout"@]);
        r
    }
}

impl Default for Config {
    fn default() -> (r: Self)
        ensures
            r.mqtt.is_default(),
            r.api.is_default(),
            r.db.is_default(),
            r.fanout.is_default(),
            r.acl.is_default(),
            r.cluster.is_default(),
    {
        Config {
            mqtt: MqttConfig::default(),
            api: ApiConfig::default(),
            db: DbConfig::default(),
            fanout: FanoutConfig::default(),
            acl: AclConfig::default(),
            cluster: ClusterConfig::default(),
        }
    }
}

/// What the environment sets: `API_TOKEN`, `DB_URL` and `NODE_ID`.
#[derive(Clone, Debug)]
pub struct Overrides {
    pub api_token: Option<String>,
    pub db_url: Option<String>,
    pub node_id: Option<String>,
}

/// Why there is no configuration.
#[derive(Clone, Copy, Debug, PartialEq, Eq, Structural)]
pub enum ConfigError {
    /// `NODE_ID` is not a number that a node can have.
    BadNodeId,
}

impl Config {
    /// The configuration of a node: the one of the file, or the default where
    /// there is no file, with what the environment sets in place of it.
    pub fn load(file: Option<Config>, env: Overrides) -> (r: Result<Config, ConfigError>)
        ensures
            match env.node_id {
                Some(id) => r is Ok <==> text::parse_bounded(id@, u64::MAX as nat) is Some,
                None => r is Ok,
            },
            r matches Ok(c) ==> {
                &&& match file {
                    Some(f) => {
                        &&& c.mqtt == f.mqtt
                        &&& c.fanout == f.fanout
                        &&& c.acl == f.acl
                        &&& c.api == (ApiConfig {
                            token: if env.api_token is Some {
                                env.api_token
                            } else {
                                f.api.token
                            },
                            ..f.api
                        })
                        &&& env.db_url is None ==> c.db == f.db
                        &&& env.node_id is None ==> c.cluster == f.cluster
                        &&& c.cluster == (ClusterConfig { node_id: c.cluster.node_id, ..f.cluster })
                    },
                    None => {
                        &&& c.mqtt.is_default()
                        &&& c.fanout.is_default()
                        &&& c.acl.is_default()
                        &&& (ApiConfig { token: None, ..c.api }).is_default()
                        &&& c.api.token == env.api_token
                        &&& env.db_url is None ==> c.db.is_default()
                        &&& (ClusterConfig { node_id: 1, ..c.cluster }).is_default()
                        &&& env.node_id is None ==> c.cluster.node_id == 1
                    },
                }
                &&& env.db_url matches Some(url) ==> c.db == (DbConfig { url })
                &&& env.node_id matches Some(id) ==> Some(c.cluster.node_id as nat)
                    == text::parse_bounded(id@, u64::MAX as nat)
            },
    {
        let mut cfg = match file {
            Some(f) => f,
            None => Config::default(),
        };
        if let Some(token) = env.api_token {
            cfg.api.token = Some(token);
        }
        if let Some(url) = env.db_url {
            cfg.db.url = url;
        }
        if let Some(id) = env.node_id {
            match text::parse_number(id.as_str(), u64::MAX) {
                Some(n) => {
                    cfg.cluster.node_id = n;
                },
                None => {
                    return Err(ConfigError::BadNodeId);
                },
            }
        }
        Ok(cfg)
    }
}

/// What a node is by default.
pub proof fn law_defaults(
    mqtt: MqttConfig,
    api: ApiConfig,
    db: DbConfig,
    fanout: FanoutConfig,
    cluster: ClusterConfig,
)
    ensures
        mqtt.is_default() <==> {
            &&& mqtt.tcp_addr.host@ == "0.0.0.0"@ && mqtt.tcp_addr.port == 1883
            &&& mqtt.ws_addr.host@ == "0.0.0.0"@ && mqtt.ws_addr.port == 8083
            &&& mqtt.message_expiry_secs == 1200
            &&& mqtt.max_mqueue_len == 1000
            &&& mqtt.max_inflight == 65535
            &&& mqtt.busy_check == false
            &&& mqtt.persist_messages == false
        },
        api.is_default() <==> {
            &&& api.addr.host@ == "0.0.0.0"@ && api.addr.port == 8090
            &&& api.token is None
        },
        db.is_default() <==> db.url@ == "redb://data/users.redb"@,
        fanout.is_default() <==> fanout.auto_subscribe == false && fanout.qos == 1,
        cluster.is_default() <==> {
            &&& cluster.enabled == false
            &&& cluster.node_id == 1
            &&& cluster.grpc_laddr.host@ == "0.0.0.0"@ && cluster.grpc_laddr.port == 5363
            &&& cluster.raft_laddr@ == "0.0.0.0:6003"@
            &&& cluster.node_grpc_addrs@.len() == 0
            &&& cluster.raft_peer_addrs@.len() == 0
            &&& cluster.leader_id == 1
            &&& cluster.join_max_retries == 10
            &&& cluster.join_retry_secs == 5
        },
{
}

/// What clients may do by default, and how what they may do is seen.
pub proof fn law_default_access(acl: AclConfig)
    ensures
        acl@.enabled == acl.enabled,
        acl@.publish_topics.len() == acl.publish_topics@.len(),
        acl@.fanout_prefixes.len() == acl.fanout_prefixes@.len(),
        acl@.admin_prefixes.len() == acl.admin_prefixes@.len(),
        forall|i: int|
            0 <= i < acl.publish_topics@.len() ==> #[trigger] acl@.publish_topics[i]
                == acl.publish_topics@[i]@,
        forall|i: int|
            0 <= i < acl.fanout_prefixes@.len() ==> #[trigger] acl@.fanout_prefixes[i]
                == acl.fanout_prefixes@[i]@,
        forall|i: int|
            0 <= i < acl.admin_prefixes@.len() ==> #[trigger] acl@.admin_prefixes[i]
                == acl.admin_prefixes@[i]@,
        acl.is_default() ==> {
            &&& acl.enabled
            &&& acl.publish_topics@.len() == 2
            &&& acl.publish_topics@[0]@ == "chatsync"@
            &&& acl.publish_topics@[1]@ == "updates"@
            &&& acl.fanout_prefixes@.len() == 1
            &&& acl.fanout_prefixes@[0]@ == "fanout"@
            &&& acl.admin_prefixes@.len() == 1
            &&& acl.admin_prefixes@[0]@ == "adminfanout"@
        },
{
    if acl.is_default() {
        assert(acl@.publish_topics == seq!["chatsync"@, "updates"@]);
        assert(acl@.publish_topics.len() == 2);
        assert(acl.publish_topics@.len() == 2);
        assert(acl@.publish_topics[0] == acl.publish_topics@[0]@);
        assert(acl@.publish_topics[1] == acl.publish_topics@[1]@);
        assert(acl@.fanout_prefixes == seq!["fanout"@]);
        assert(acl@.fanout_prefixes.len() == 1);
        assert(acl@.fanout_prefixes[0] == acl.fanout_prefixes@[0]@);
        assert(acl@.admin_prefixes == seq!["adminfanout"@]);
        assert(acl@.admin_prefixes.len() == 1);
        assert(acl@.admin_prefixes[0] == acl.admin_prefixes@[0]@);
    }
}

} // verus!
