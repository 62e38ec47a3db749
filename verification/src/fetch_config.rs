//! The configuration of a Fetch node.

use crate::tls::TlsIdentityConfig;
use vstd::prelude::*;

verus! {

/// Everything a Fetch node is told.
#[derive(Debug)]
pub struct Config {
    pub bind: String,
    pub upstream: String,
    pub graph: Option<GraphConfig>,
    /// The identity for dialing Crawl; plaintext where absent.
    pub tls: Option<TlsIdentityConfig>,
    /// The identities for the tunnel itself.
    pub tunnel_tls: Option<TunnelTlsConfig>,
    /// The relay listener. A node without one neither forwards nor terminates
    /// chains.
    pub relay: Option<RelayConfig>,
}

/// A relay listener.
#[derive(Debug)]
pub struct RelayConfig {
    pub bind: String,
    /// This node's own id. A chain whose first hop names another is refused.
    pub node_id: String,
    pub max_hops: usize,
    pub max_concurrent_total: usize,
    pub max_concurrent_per_peer: usize,
    pub idle_timeout_ms: u64,
    /// Bounds everything before the splice.
    pub handshake_timeout_ms: u64,
    /// Connections that may be in their handshake, in all and per address.
    pub max_pending_total: usize,
    pub max_pending_per_addr: usize,
    /// Empty admits any peer that the CA vouches for.
    pub allow_peers: Vec<String>,
    /// Required, see [`check`].
    pub tls: Option<TlsIdentityConfig>,
}

/// The two sides of the tunnel, each with or without mutual TLS.
#[derive(Debug)]
pub struct TunnelTlsConfig {
    pub listener: Option<TlsIdentityConfig>,
    pub upstream: Option<TlsIdentityConfig>,
}

/// Resolving the upstream from Crawl's graph.
#[derive(Debug)]
pub struct GraphConfig {
    pub crawl_upstream: String,
    pub source_node_id: String,
    pub target_node_ids: Vec<String>,
    pub poll_interval_ms: u64,
    pub allowed_protocols: Vec<String>,
    pub max_hops: usize,
    pub max_candidates: usize,
    pub attempt_timeout_ms: u64,
}

pub const DEFAULT_RELAY_MAX_HOPS: usize = 8;

pub const DEFAULT_MAX_CONCURRENT_TOTAL: usize = 256;

pub const DEFAULT_MAX_CONCURRENT_PER_PEER: usize = 8;

pub const DEFAULT_IDLE_TIMEOUT_MS: u64 = 30_000;

pub const DEFAULT_HANDSHAKE_TIMEOUT_MS: u64 = 10_000;

pub const DEFAULT_MAX_PENDING_TOTAL: usize = 256;

pub const DEFAULT_MAX_PENDING_PER_ADDR: usize = 16;

pub const DEFAULT_MAX_CANDIDATES: usize = 3;

pub const DEFAULT_ATTEMPT_TIMEOUT_MS: u64 = 3000;

pub const DEFAULT_POLL_INTERVAL_MS: u64 = 5000;

pub const DEFAULT_MAX_HOPS: usize = 4;

pub const DEFAULT_SOURCE_NODE_ID: &'static str = "fetch";

/// One target or several, as a configuration may spell them.
#[derive(Debug)]
pub enum OneOrMany {
    One(String),
    Many(Vec<String>),
}

impl OneOrMany {
    /// The targets in order.
    pub open spec fn list(self) -> Seq<Seq<char>> {
        match self {
            OneOrMany::One(one) => seq![one@],
            OneOrMany::Many(many) => crate::proto::texts(many@),
        }
    }

    /// The targets in order.
    pub fn into_vec(self) -> (r: Vec<String>)
        ensures
            crate::proto::texts(r@) == self.list(),
    {
        match self {
            OneOrMany::One(one) => {
                let mut r: Vec<String> = Vec::new();
                r.push(one);
                assert(crate::proto::texts(r@) =~= seq![one@]);
                r
            },
            OneOrMany::Many(many) => many,
        }
    }
}

/// A relay section as it is written, with what was left out.
#[derive(Debug)]
pub struct RelaySection {
    pub bind: String,
    pub node_id: String,
    pub max_hops: Option<usize>,
    pub max_concurrent_total: Option<usize>,
    pub max_concurrent_per_peer: Option<usize>,
    pub idle_timeout_ms: Option<u64>,
    pub handshake_timeout_ms: Option<u64>,
    pub max_pending_total: Option<usize>,
    pub max_pending_per_addr: Option<usize>,
    pub allow_peers: Option<Vec<String>>,
    pub tls: Option<TlsIdentityConfig>,
}

/// A graph section as it is written.
#[derive(Debug)]
pub struct GraphSection {
    pub crawl_upstream: String,
    pub source_node_id: Option<String>,
    pub target_node_ids: OneOrMany,
    pub poll_interval_ms: Option<u64>,
    pub allowed_protocols: Option<Vec<String>>,
    pub max_hops: Option<usize>,
    pub max_candidates: Option<usize>,
    pub attempt_timeout_ms: Option<u64>,
}

/// A configuration as it is written.
#[derive(Debug)]
pub struct ConfigFile {
    pub bind: String,
    pub upstream: String,
    pub graph: Option<GraphSection>,
    pub tls: Option<TlsIdentityConfig>,
    pub tunnel_tls: Option<TunnelTlsConfig>,
    pub relay: Option<RelaySection>,
}

/// A count that was written, or its default.
pub open spec fn count_or(written: Option<usize>, default: usize) -> usize {
    match written {
        Some(n) => n,
        None => default,
    }
}

/// A time that was written, or its default.
pub open spec fn time_or(written: Option<u64>, default: u64) -> u64 {
    match written {
        Some(n) => n,
        None => default,
    }
}

/// The names that were written; none where the list was left out.
pub open spec fn names_or_none(written: Option<Vec<String>>) -> Seq<Seq<char>> {
    match written {
        Some(list) => crate::proto::texts(list@),
        None => Seq::empty(),
    }
}

/// A count that was written, or its default.
pub(crate) fn count(written: Option<usize>, default: usize) -> (r: usize)
    ensures
        r == count_or(written, default),
{
    match written {
        Some(n) => n,
        None => default,
    }
}

/// A time that was written, or its default.
pub(crate) fn time(written: Option<u64>, default: u64) -> (r: u64)
    ensures
        r == time_or(written, default),
{
    match written {
        Some(n) => n,
        None => default,
    }
}

/// The names that were written; none where the list was left out.
pub(crate) fn names(written: Option<Vec<String>>) -> (r: Vec<String>)
    ensures
        crate::proto::texts(r@) == names_or_none(written),
{
    match written {
        Some(list) => list,
        None => {
            let r: Vec<String> = Vec::new();
            assert(crate::proto::texts(r@) =~= Seq::<Seq<char>>::empty());
            r
        },
    }
}

/// A name that was written, or its default.
pub open spec fn name_or(written: Option<String>, default: Seq<char>) -> Seq<char> {
    match written {
        Some(s) => s@,
        None => default,
    }
}

/// A name that was written, or its default.
pub(crate) fn name(written: Option<String>, default: &str) -> (r: String)
    ensures
        r@ == name_or(written, default@),
{
    match written {
        Some(s) => s,
        None => default.to_owned(),
    }
}

impl RelaySection {
    /// Whether `config` is the section with its defaults.
    pub open spec fn means(self, config: RelayConfig) -> bool {
        &&& config.bind == self.bind
        &&& config.node_id == self.node_id
        &&& config.max_hops == count_or(self.max_hops, 8)
        &&& config.max_concurrent_total == count_or(self.max_concurrent_total, 256)
        &&& config.max_concurrent_per_peer == count_or(self.max_concurrent_per_peer, 8)
        &&& config.idle_timeout_ms == time_or(self.idle_timeout_ms, 30_000)
        &&& config.handshake_timeout_ms == time_or(self.handshake_timeout_ms, 10_000)
        &&& config.max_pending_total == count_or(self.max_pending_total, 256)
        &&& config.max_pending_per_addr == count_or(self.max_pending_per_addr, 16)
        &&& crate::proto::texts(config.allow_peers@) == names_or_none(self.allow_peers)
        &&& config.tls == self.tls
    }

    /// The section with its defaults.
    pub fn resolve(self) -> (r: RelayConfig)
        ensures
            self.means(r),
    {
        RelayConfig {
            bind: self.bind,
            node_id: self.node_id,
            max_hops: count(self.max_hops, DEFAULT_RELAY_MAX_HOPS),
            max_concurrent_total: count(self.max_concurrent_total, DEFAULT_MAX_CONCURRENT_TOTAL),
            max_concurrent_per_peer: count(
                self.max_concurrent_per_peer,
                DEFAULT_MAX_CONCURRENT_PER_PEER,
            ),
            idle_timeout_ms: time(self.idle_timeout_ms, DEFAULT_IDLE_TIMEOUT_MS),
            handshake_timeout_ms: time(self.handshake_timeout_ms, DEFAULT_HANDSHAKE_TIMEOUT_MS),
            max_pending_total: count(self.max_pending_total, DEFAULT_MAX_PENDING_TOTAL),
            max_pending_per_addr: count(self.max_pending_per_addr, DEFAULT_MAX_PENDING_PER_ADDR),
            allow_peers: names(self.allow_peers),
            tls: self.tls,
        }
    }
}

impl GraphSection {
    /// Whether `config` is the section with its defaults.
    pub open spec fn means(self, config: GraphConfig) -> bool {
        &&& config.crawl_upstream == self.crawl_upstream
        &&& config.source_node_id@ == name_or(self.source_node_id, "fetch"@)
        &&& crate::proto::texts(config.target_node_ids@) == self.target_node_ids.list()
        &&& config.poll_interval_ms == time_or(self.poll_interval_ms, 5000)
        &&& crate::proto::texts(config.allowed_protocols@) == names_or_none(
            self.allowed_protocols,
        )
        &&& config.max_hops == count_or(self.max_hops, 4)
        &&& config.max_candidates == count_or(self.max_candidates, 3)
        &&& config.attempt_timeout_ms == time_or(self.attempt_timeout_ms, 3000)
    }

    /// The section with its defaults.
    pub fn resolve(self) -> (r: GraphConfig)
        ensures
            self.means(r),
    {
        GraphConfig {
            crawl_upstream: self.crawl_upstream,
            source_node_id: name(self.source_node_id, DEFAULT_SOURCE_NODE_ID),
            target_node_ids: self.target_node_ids.into_vec(),
            poll_interval_ms: time(self.poll_interval_ms, DEFAULT_POLL_INTERVAL_MS),
            allowed_protocols: names(self.allowed_protocols),
            max_hops: count(self.max_hops, DEFAULT_MAX_HOPS),
            max_candidates: count(self.max_candidates, DEFAULT_MAX_CANDIDATES),
            attempt_timeout_ms: time(self.attempt_timeout_ms, DEFAULT_ATTEMPT_TIMEOUT_MS),
        }
    }
}

impl ConfigFile {
    /// Whether `config` is what was written, with the defaults of what was
    /// not.
    pub open spec fn means(self, config: Config) -> bool {
        &&& config.bind == self.bind
        &&& config.upstream == self.upstream
        &&& config.tls == self.tls
        &&& config.tunnel_tls == self.tunnel_tls
        &&& match self.graph {
            None => config.graph is None,
            Some(section) => config.graph is Some && section.means(config.graph->0),
        }
        &&& match self.relay {
            None => config.relay is None,
            Some(section) => config.relay is Some && section.means(config.relay->0),
        }
    }

    /// What is wrong with what was written, if anything.
    pub open spec fn fault(self) -> Option<ConfigError> {
        if self.graph matches Some(section) && section.target_node_ids.list().len() == 0 {
            Some(ConfigError::NoTargets)
        } else if self.relay matches Some(section) && section.tls is None {
            Some(ConfigError::RelayWithoutTls)
        } else {
            None
        }
    }

    /// Fills in the defaults and checks the result.
    pub fn resolve(self) -> (r: Result<Config, ConfigError>)
        ensures
            match r {
                Ok(config) => self.fault() is None && self.means(config),
                Err(e) => self.fault() == Some(e),
            },
    {
        let graph: Option<GraphConfig> = match self.graph {
            None => None,
            Some(section) => Some(section.resolve()),
        };
        let relay: Option<RelayConfig> = match self.relay {
            None => None,
            Some(section) => Some(section.resolve()),
        };
        let config: Config = Config {
            bind: self.bind,
            upstream: self.upstream,
            graph,
            tls: self.tls,
            tunnel_tls: self.tunnel_tls,
            relay,
        };
        proof {
            if self.graph is Some {
                assert(crate::proto::texts(config.graph->0.target_node_ids@).len()
                    == config.graph->0.target_node_ids@.len());
            }
        }
        match check(&config) {
            Ok(()) => Ok(config),
            Err(e) => Err(e),
        }
    }
}

/// Why a configuration is refused.
#[derive(Debug, Clone, Copy, PartialEq, Eq)]
pub enum ConfigError {
    NoTargets,
    RelayWithoutTls,
}

impl ConfigError {
    pub open spec fn words(self) -> Seq<char> {
        match self {
            ConfigError::NoTargets => "graph.target_node_ids must name at least one node"@,
            ConfigError::RelayWithoutTls =>
                "[relay.tls] is required: a relay listener without mutual TLS is an open proxy. See SECURITY.md"@,
        }
    }

    pub fn describe(&self) -> (r: &'static str)
        ensures
            r@ == self.words(),
    {
        match *self {
            ConfigError::NoTargets => "graph.target_node_ids must name at least one node",
            ConfigError::RelayWithoutTls =>
                "[relay.tls] is required: a relay listener without mutual TLS is an open proxy. See SECURITY.md",
        }
    }
}

/// What is wrong with the configuration, if anything.
pub open spec fn config_fault(config: Config) -> Option<ConfigError> {
    if config.graph matches Some(graph) && graph.target_node_ids@.len() == 0 {
        Some(ConfigError::NoTargets)
    } else if config.relay matches Some(relay) && relay.tls is None {
        Some(ConfigError::RelayWithoutTls)
    } else {
        None
    }
}

/// A graph needs a target, and a relay needs mutual TLS.
pub fn check(config: &Config) -> (r: Result<(), ConfigError>)
    ensures
        match r {
            Ok(()) => config_fault(*config) is None,
            Err(e) => config_fault(*config) == Some(e),
        },
{
    if let Some(graph) = &config.graph {
        if graph.target_node_ids.len() == 0 {
            return Err(ConfigError::NoTargets);
        }
    }
    if let Some(relay) = &config.relay {
        if relay.tls.is_none() {
            return Err(ConfigError::RelayWithoutTls);
        }
    }
    Ok(())
}

/// Said of a graph without a relay.
pub open spec fn unreachable_target() -> Seq<char> {
    "[graph] is configured but [relay] is not: this node cannot be reached as a route target, and graph-resolved candidates will fail before falling back to the static upstream. Configure [relay] and advertise its bind address in this node's listen_addrs."@
}

/// Said of a relay without a listener identity.
pub open spec fn cannot_terminate() -> Seq<char> {
    "[relay] is configured but [tunnel_tls.listener] is not: this node cannot terminate a relayed chain, and an originator attempting one will fail with an opaque TLS error. The end-to-end session is also the only proof of an originator's identity once chains exceed one hop."@
}

/// Said of a graph without an upstream identity.
pub open spec fn cleartext_chains() -> Seq<char> {
    "[graph] is configured but [tunnel_tls.upstream] is not: chains this node opens carry no end-to-end TLS, so every relay on the path can read them."@
}

/// Everything said of a configuration.
pub open spec fn said(config: Config) -> Seq<Seq<char>> {
    (if config.graph is Some && config.relay is None {
        seq![unreachable_target()]
    } else {
        seq![]
    }) + (if config.relay is Some && !has_listener_tls(config) {
        seq![cannot_terminate()]
    } else {
        seq![]
    }) + (if config.graph is Some && !has_upstream_tls(config) {
        seq![cleartext_chains()]
    } else {
        seq![]
    })
}

/// Graph routes end at relay listeners, so a node with a graph and no relay
/// cannot be reached as a target.
pub fn graph_without_relay_warning(config: &Config) -> (r: Option<&'static str>)
    ensures
        r is Some <==> config.graph is Some && config.relay is None,
        r matches Some(text) ==> text@ == unreachable_target(),
{
    if config.graph.is_some() && config.relay.is_none() {
        return Some(
            "[graph] is configured but [relay] is not: this node cannot be reached as a route target, and graph-resolved candidates will fail before falling back to the static upstream. Configure [relay] and advertise its bind address in this node's listen_addrs.",
        );
    }
    None
}

/// Whether the tunnel listener has an identity.
pub open spec fn has_listener_tls(config: Config) -> bool {
    config.tunnel_tls matches Some(tls) && tls.listener is Some
}

/// Whether the tunnel's upstream side has an identity.
pub open spec fn has_upstream_tls(config: Config) -> bool {
    config.tunnel_tls matches Some(tls) && tls.upstream is Some
}

/// A relay without a listener identity cannot complete the end-to-end session
/// of a chain that ends here.
pub fn relay_without_tunnel_listener_tls_warning(config: &Config) -> (r: Option<&'static str>)
    ensures
        r is Some <==> config.relay is Some && !has_listener_tls(*config),
        r matches Some(text) ==> text@ == cannot_terminate(),
{
    let has_listener: bool = match &config.tunnel_tls {
        Some(tls) => tls.listener.is_some(),
        None => false,
    };
    if config.relay.is_some() && !has_listener {
        return Some(
            "[relay] is configured but [tunnel_tls.listener] is not: this node cannot terminate a relayed chain, and an originator attempting one will fail with an opaque TLS error. The end-to-end session is also the only proof of an originator's identity once chains exceed one hop.",
        );
    }
    None
}

/// Without an upstream identity the chains of a graph are cleartext to every
/// relay that carries them.
pub fn graph_without_e2e_tls_warning(config: &Config) -> (r: Option<&'static str>)
    ensures
        r is Some <==> config.graph is Some && !has_upstream_tls(*config),
        r matches Some(text) ==> text@ == cleartext_chains(),
{
    let has_upstream: bool = match &config.tunnel_tls {
        Some(tls) => tls.upstream.is_some(),
        None => false,
    };
    if config.graph.is_some() && !has_upstream {
        return Some(
            "[graph] is configured but [tunnel_tls.upstream] is not: chains this node opens carry no end-to-end TLS, so every relay on the path can read them.",
        );
    }
    None
}

/// What an operator should be told at start, in this order.
pub fn warnings(config: &Config) -> (r: Vec<&'static str>)
    ensures
        r@.map_values(|w: &'static str| w@) == said(*config),
{
    let mut r: Vec<&'static str> = Vec::new();
    assert(r@.map_values(|w: &'static str| w@) =~= Seq::<Seq<char>>::empty());
    if let Some(text) = graph_without_relay_warning(config) {
        let ghost before = r@.map_values(|w: &'static str| w@);
        r.push(text);
        assert(r@.map_values(|w: &'static str| w@) =~= before.push(text@));
    }
    if let Some(text) = relay_without_tunnel_listener_tls_warning(config) {
        let ghost before = r@.map_values(|w: &'static str| w@);
        r.push(text);
        assert(r@.map_values(|w: &'static str| w@) =~= before.push(text@));
    }
    if let Some(text) = graph_without_e2e_tls_warning(config) {
        let ghost before = r@.map_values(|w: &'static str| w@);
        r.push(text);
        assert(r@.map_values(|w: &'static str| w@) =~= before.push(text@));
    }
    assert(r@.map_values(|w: &'static str| w@) =~= said(*config));
    r
}

// ---------------------------------------------------------------------------
// What a file comes to
// ---------------------------------------------------------------------------

/// One name stands for a list of one; a list stands for itself.
pub proof fn law_one_or_many(one: String, many: Vec<String>)
    ensures
        OneOrMany::One(one).list().len() == 1,
        OneOrMany::One(one).list()[0] == one@,
        OneOrMany::Many(many).list().len() == many@.len(),
        forall|i: int|
            0 <= i < many@.len() ==> #[trigger] OneOrMany::Many(many).list()[i] == many@[i]@,
{
}

proof fn lemma_names(written: Option<Vec<String>>, kept: Seq<String>)
    requires
        crate::proto::texts(kept) == names_or_none(written),
    ensures
        kept.len() == if written is Some {
            written->0@.len()
        } else {
            0
        },
        written matches Some(list) ==> forall|i: int|
            0 <= i < list@.len() ==> (#[trigger] kept[i])@ == list@[i]@,
{
    let shown = crate::proto::texts(kept);
    assert(shown.len() == kept.len());
    if let Some(list) = written {
        let given = crate::proto::texts(list@);
        assert(shown == given);
        assert(given.len() == list@.len());
        assert forall|i: int| 0 <= i < list@.len() implies (#[trigger] kept[i])@ == list@[i]@ by {
            assert(shown[i] == given[i]);
            assert(shown[i] == kept[i]@);
        }
    }
}

/// A relay is set up as its section says; what the section leaves out has the
/// default.
pub proof fn law_a_relay_is_as_written(section: RelaySection, config: RelayConfig)
    requires
        section.means(config),
    ensures
        config.bind@ == section.bind@,
        config.node_id@ == section.node_id@,
        config.tls == section.tls,
        section.max_hops matches Some(n) ==> config.max_hops == n,
        section.max_hops is None ==> config.max_hops == 8,
        section.max_concurrent_total matches Some(n) ==> config.max_concurrent_total == n,
        section.max_concurrent_total is None ==> config.max_concurrent_total == 256,
        section.max_concurrent_per_peer matches Some(n) ==> config.max_concurrent_per_peer == n,
        section.max_concurrent_per_peer is None ==> config.max_concurrent_per_peer == 8,
        section.idle_timeout_ms matches Some(n) ==> config.idle_timeout_ms == n,
        section.idle_timeout_ms is None ==> config.idle_timeout_ms == 30_000,
        section.handshake_timeout_ms matches Some(n) ==> config.handshake_timeout_ms == n,
        section.handshake_timeout_ms is None ==> config.handshake_timeout_ms == 10_000,
        section.max_pending_total matches Some(n) ==> config.max_pending_total == n,
        section.max_pending_total is None ==> config.max_pending_total == 256,
        section.max_pending_per_addr matches Some(n) ==> config.max_pending_per_addr == n,
        section.max_pending_per_addr is None ==> config.max_pending_per_addr == 16,
        config.allow_peers@.len() == if section.allow_peers is Some {
            section.allow_peers->0@.len()
        } else {
            0
        },
        section.allow_peers matches Some(list) ==> forall|i: int|
            0 <= i < list@.len() ==> (#[trigger] config.allow_peers@[i])@ == list@[i]@,
{
    lemma_names(section.allow_peers, config.allow_peers@);
}

/// The graph is followed as its section says; what the section leaves out has
/// the default.
pub proof fn law_a_graph_is_as_written(section: GraphSection, config: GraphConfig)
    requires
        section.means(config),
    ensures
        config.crawl_upstream@ == section.crawl_upstream@,
        section.source_node_id matches Some(id) ==> config.source_node_id@ == id@,
        section.source_node_id is None ==> config.source_node_id@ == "fetch"@,
        section.target_node_ids matches OneOrMany::One(id) ==> config.target_node_ids@.len() == 1
            && config.target_node_ids@[0]@ == id@,
        section.target_node_ids matches OneOrMany::Many(ids) ==> config.target_node_ids@.len()
            == ids@.len() && forall|i: int|
            0 <= i < ids@.len() ==> (#[trigger] config.target_node_ids@[i])@ == ids@[i]@,
        section.poll_interval_ms matches Some(n) ==> config.poll_interval_ms == n,
        section.poll_interval_ms is None ==> config.poll_interval_ms == 5000,
        section.max_hops matches Some(n) ==> config.max_hops == n,
        section.max_hops is None ==> config.max_hops == 4,
        section.max_candidates matches Some(n) ==> config.max_candidates == n,
        section.max_candidates is None ==> config.max_candidates == 3,
        section.attempt_timeout_ms matches Some(n) ==> config.attempt_timeout_ms == n,
        section.attempt_timeout_ms is None ==> config.attempt_timeout_ms == 3000,
        config.allowed_protocols@.len() == if section.allowed_protocols is Some {
            section.allowed_protocols->0@.len()
        } else {
            0
        },
        section.allowed_protocols matches Some(list) ==> forall|i: int|
            0 <= i < list@.len() ==> (#[trigger] config.allowed_protocols@[i])@ == list@[i]@,
{
    lemma_names(section.allowed_protocols, config.allowed_protocols@);
    let kept = crate::proto::texts(config.target_node_ids@);
    let given = section.target_node_ids.list();
    assert(kept.len() == given.len());
    match section.target_node_ids {
        OneOrMany::One(id) => {
            assert(kept[0] == given[0]);
        },
        OneOrMany::Many(ids) => {
            assert forall|i: int| 0 <= i < ids@.len() implies (
            #[trigger] config.target_node_ids@[i])@ == ids@[i]@ by {
                assert(kept[i] == given[i]);
            }
        },
    }
}

/// A file is refused for a graph without a target, and for a relay without TLS;
/// what a file comes to is refused exactly where the file is.
pub proof fn law_what_a_file_is_refused_for(file: ConfigFile, config: Config)
    ensures
        file.fault() == Some(ConfigError::NoTargets) <==> file.graph is Some
            && file.graph->0.target_node_ids is Many
            && file.graph->0.target_node_ids->Many_0@.len() == 0,
        file.fault() == Some(ConfigError::RelayWithoutTls) <==> file.fault()
            != Some(ConfigError::NoTargets) && file.relay is Some && file.relay->0.tls is None,
        config_fault(config) == Some(ConfigError::NoTargets) <==> config.graph is Some
            && config.graph->0.target_node_ids@.len() == 0,
        config_fault(config) == Some(ConfigError::RelayWithoutTls) <==> config_fault(config)
            != Some(ConfigError::NoTargets) && config.relay is Some && config.relay->0.tls is None,
        file.means(config) ==> config_fault(config) == file.fault(),
{
    if file.means(config) {
        if let Some(section) = file.graph {
            assert(crate::proto::texts(config.graph->0.target_node_ids@).len()
                == section.target_node_ids.list().len());
        }
    }
}

/// A file means what its sections mean.
pub proof fn law_a_file_is_its_sections(file: ConfigFile, config: Config)
    requires
        file.means(config),
    ensures
        config.bind@ == file.bind@,
        config.upstream@ == file.upstream@,
        config.tls == file.tls,
        config.tunnel_tls == file.tunnel_tls,
        config.graph is Some == file.graph is Some,
        config.relay is Some == file.relay is Some,
        file.graph is Some ==> file.graph->0.means(config.graph->0),
        file.relay is Some ==> file.relay->0.means(config.relay->0),
{
}

/// What is warned of: a graph without a relay, a relay that cannot end a chain,
/// and chains that every relay can read. Each is said once where it holds, in
/// that order, and nothing else is said.
pub proof fn law_what_is_warned_of(config: Config)
    ensures
        ({
            let listener = config.tunnel_tls is Some && config.tunnel_tls->0.listener is Some;
            let upstream = config.tunnel_tls is Some && config.tunnel_tls->0.upstream is Some;
            let a: int = if config.graph is Some && config.relay is None {
                1
            } else {
                0
            };
            let b: int = if config.relay is Some && !listener {
                1
            } else {
                0
            };
            let c: int = if config.graph is Some && !upstream {
                1
            } else {
                0
            };
            &&& said(config).len() == a + b + c
            &&& a == 1 ==> said(config)[0] == unreachable_target()
            &&& b == 1 ==> said(config)[a] == cannot_terminate()
            &&& c == 1 ==> said(config)[a + b] == cleartext_chains()
        }),
{
}

/// What is told of a file that is refused.
pub proof fn law_refusals_name_the_setting()
    ensures
        ConfigError::NoTargets.words() == "graph.target_node_ids must name at least one node"@,
        ConfigError::RelayWithoutTls.words()
            == "[relay.tls] is required: a relay listener without mutual TLS is an open proxy. See SECURITY.md"@,
        unreachable_target()
            == "[graph] is configured but [relay] is not: this node cannot be reached as a route target, and graph-resolved candidates will fail before falling back to the static upstream. Configure [relay] and advertise its bind address in this node's listen_addrs."@,
        cannot_terminate()
            == "[relay] is configured but [tunnel_tls.listener] is not: this node cannot terminate a relayed chain, and an originator attempting one will fail with an opaque TLS error. The end-to-end session is also the only proof of an originator's identity once chains exceed one hop."@,
        cleartext_chains()
            == "[graph] is configured but [tunnel_tls.upstream] is not: chains this node opens carry no end-to-end TLS, so every relay on the path can read them."@,
{
}

} // verus!
