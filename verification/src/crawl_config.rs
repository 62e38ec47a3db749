//! The configuration of a Crawl.

use crate::crawl::CrawlState;
use crate::fetch_config::{names, time};
use crate::tls::TlsIdentityConfig;
use vstd::prelude::*;

verus! {

/// Everything a Crawl is told.
#[derive(Debug)]
pub struct Config {
    pub bind: String,
    /// Requires mutual TLS on the listener; plaintext where absent.
    pub tls: Option<TlsIdentityConfig>,
    /// How long a node may stay silent before it drops out of snapshots.
    pub node_ttl_ms: u64,
    /// The authenticated ids that may relay for others. Nobody by default.
    pub relay_peers: Vec<String>,
}

pub const DEFAULT_NODE_TTL_MS: u64 = 60_000;

/// A configuration as it is written, with what was left out.
#[derive(Debug)]
pub struct ConfigFile {
    pub bind: String,
    pub tls: Option<TlsIdentityConfig>,
    pub node_ttl_ms: Option<u64>,
    pub relay_peers: Option<Vec<String>>,
}

impl ConfigFile {
    /// The configuration with its defaults.
    pub fn resolve(self) -> (r: Config)
        ensures
            r.bind == self.bind,
            r.tls == self.tls,
            r.node_ttl_ms == crate::fetch_config::time_or(self.node_ttl_ms, 60_000),
            crate::proto::texts(r.relay_peers@) == crate::fetch_config::names_or_none(
                self.relay_peers,
            ),
    {
        Config {
            bind: self.bind,
            tls: self.tls,
            node_ttl_ms: time(self.node_ttl_ms, DEFAULT_NODE_TTL_MS),
            relay_peers: names(self.relay_peers),
        }
    }
}

/// The state that a Crawl starts with.
pub fn initial_state(node_ttl_ms: Option<u64>, relay_peers: Vec<String>) -> (r: CrawlState)
    ensures
        r@.ids.len() == 0,
        r@.nodes == Map::<Seq<char>, crate::crawl::NodeEntryView>::empty(),
        r@.reports.len() == 0,
        r@.node_ttl_ms == node_ttl_ms,
        r@.relay_peers == crate::proto::texts(relay_peers@),
        crate::crawl::table_ok(r@.reports),
{
    let mut state: CrawlState = CrawlState::default();
    state.node_ttl_ms = node_ttl_ms;
    state.relay_peers = relay_peers;
    assert(state@.nodes =~= Map::<Seq<char>, crate::crawl::NodeEntryView>::empty());
    state
}

} // verus!
