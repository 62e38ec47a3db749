//! The configuration of a Head.

use crate::fetch_config::{count, name, names, time, OneOrMany};
use crate::table::Table;
use crate::tls::TlsIdentityConfig;
use vstd::prelude::*;

verus! {

/// Everything a Head is told.
#[derive(Debug)]
pub struct Config {
    pub http: HttpConfig,
    pub radii: Option<RadiiConfig>,
    pub routing: RoutingConfig,
    pub graph: Option<GraphConfig>,
    /// The identity for the bridge listener and for dialing Crawl; plaintext
    /// where absent.
    pub tls: Option<TlsIdentityConfig>,
}

#[derive(Debug)]
pub struct HttpConfig {
    pub bind: String,
}

/// The bridge to a Crawl.
#[derive(Debug)]
pub struct RadiiConfig {
    pub bind: String,
    pub crawl_upstream: String,
}

/// Where requests go without a graph.
#[derive(Debug)]
pub struct RoutingConfig {
    pub default_backend: String,
    pub host_map: Table<String>,
}

/// Resolving backends from Crawl's graph, ahead of the host map.
#[derive(Debug)]
pub struct GraphConfig {
    pub crawl_upstream: String,
    pub source_node_id: String,
    pub poll_interval_ms: u64,
    pub allowed_protocols: Vec<String>,
    pub max_hops: usize,
    /// The nodes that may serve a host.
    pub node_map: Table<Vec<String>>,
    pub max_candidates: usize,
}

pub const DEFAULT_SOURCE_NODE_ID: &'static str = "head";

pub const DEFAULT_POLL_INTERVAL_MS: u64 = 5000;

pub const DEFAULT_MAX_HOPS: usize = 4;

pub const DEFAULT_MAX_CANDIDATES: usize = 3;

/// How long an attempt at a backend may take, where nothing else is said.
pub const DEFAULT_ATTEMPT_TIMEOUT_MS: u64 = 3000;

/// How long a backend may take to start its response, where nothing else is
/// said.
pub const DEFAULT_RESPONSE_TIMEOUT_MS: u64 = 30_000;

/// What a node map says: the nodes of each host, in order.
pub open spec fn node_map_view(map: Map<Seq<char>, Vec<String>>) -> Map<
    Seq<char>,
    Seq<Seq<char>>,
> {
    map.map_values(|ids: Vec<String>| crate::proto::texts(ids@))
}

/// What the spelled entries of a node map say; a later entry for a host
/// replaces an earlier one.
pub open spec fn spelled(entries: Seq<(String, OneOrMany)>) -> Map<Seq<char>, Seq<Seq<char>>>
    decreases entries.len(),
{
    if entries.len() == 0 {
        Map::empty()
    } else {
        spelled(entries.drop_last()).insert(entries.last().0@, entries.last().1.list())
    }
}

/// The node map as it is used, from the entries as they are spelled: a host
/// with one node may name it alone.
pub fn node_map(entries: Vec<(String, OneOrMany)>) -> (r: Table<Vec<String>>)
    ensures
        node_map_view(r@) == spelled(entries@),
{
    let ghost all = entries@;
    let mut map: Table<Vec<String>> = Table::new();
    assert(node_map_view(map@) =~= Map::<Seq<char>, Seq<Seq<char>>>::empty());
    assert(all.take(0) =~= Seq::<(String, OneOrMany)>::empty());
    for entry in it: entries
        invariant
            it.seq() == all,
            node_map_view(map@) == spelled(all.take(it.index() as int)),
    {
        let ghost before = map@;
        let ghost i = it.index() as int;
        assert(entry == all[i]);
        let (host, ids) = entry;
        let list: Vec<String> = ids.into_vec();
        map.insert(host, list);
        proof {
            assert(all.take(i + 1).drop_last() =~= all.take(i));
            assert(all.take(i + 1).last() == all[i]);
            assert(node_map_view(map@) =~= node_map_view(before).insert(
                all[i].0@,
                crate::proto::texts(list@),
            ));
        }
    }
    assert(all.take(all.len() as int) =~= all);
    map
}

/// A routing section as it is written, with what was left out.
#[derive(Debug)]
pub struct RoutingSection {
    pub default_backend: String,
    pub host_map: Vec<(String, String)>,
}

/// A graph section as it is written.
#[derive(Debug)]
pub struct GraphSection {
    pub crawl_upstream: String,
    pub source_node_id: Option<String>,
    pub poll_interval_ms: Option<u64>,
    pub allowed_protocols: Option<Vec<String>>,
    pub max_hops: Option<usize>,
    pub node_map: Vec<(String, OneOrMany)>,
    pub max_candidates: Option<usize>,
}

/// What the entries of a host map say; a later entry for a host replaces an
/// earlier one.
pub open spec fn hosts(entries: Seq<(String, String)>) -> Map<Seq<char>, Seq<char>>
    decreases entries.len(),
{
    if entries.len() == 0 {
        Map::empty()
    } else {
        hosts(entries.drop_last()).insert(entries.last().0@, entries.last().1@)
    }
}

impl RoutingSection {
    /// The section as it is used.
    pub fn resolve(self) -> (r: RoutingConfig)
        ensures
            r.default_backend == self.default_backend,
            r.host_map@.map_values(|s: String| s@) == hosts(self.host_map@),
    {
        let ghost all = self.host_map@;
        let mut map: Table<String> = Table::new();
        assert(map@.map_values(|s: String| s@) =~= Map::<Seq<char>, Seq<char>>::empty());
        assert(all.take(0) =~= Seq::<(String, String)>::empty());
        for entry in it: self.host_map
            invariant
                it.seq() == all,
                map@.map_values(|s: String| s@) == hosts(all.take(it.index() as int)),
        {
            let ghost before = map@;
            let ghost i = it.index() as int;
            assert(entry == all[i]);
            let (host, backend) = entry;
            map.insert(host, backend);
            proof {
                assert(all.take(i + 1).drop_last() =~= all.take(i));
                assert(all.take(i + 1).last() == all[i]);
                assert(map@.map_values(|s: String| s@) =~= before.map_values(
                    |s: String| s@,
                ).insert(all[i].0@, all[i].1@));
            }
        }
        assert(all.take(all.len() as int) =~= all);
        RoutingConfig { default_backend: self.default_backend, host_map: map }
    }
}

impl GraphSection {
    /// The section with its defaults.
    pub fn resolve(self) -> (r: GraphConfig)
        ensures
            r.crawl_upstream == self.crawl_upstream,
            r.source_node_id@ == crate::fetch_config::name_or(self.source_node_id, "head"@),
            r.poll_interval_ms == crate::fetch_config::time_or(self.poll_interval_ms, 5000),
            crate::proto::texts(r.allowed_protocols@) == crate::fetch_config::names_or_none(
                self.allowed_protocols,
            ),
            r.max_hops == crate::fetch_config::count_or(self.max_hops, 4),
            node_map_view(r.node_map@) == spelled(self.node_map@),
            r.max_candidates == crate::fetch_config::count_or(self.max_candidates, 3),
    {
        GraphConfig {
            crawl_upstream: self.crawl_upstream,
            source_node_id: name(self.source_node_id, DEFAULT_SOURCE_NODE_ID),
            poll_interval_ms: time(self.poll_interval_ms, DEFAULT_POLL_INTERVAL_MS),
            allowed_protocols: names(self.allowed_protocols),
            max_hops: count(self.max_hops, DEFAULT_MAX_HOPS),
            node_map: node_map(self.node_map),
            max_candidates: count(self.max_candidates, DEFAULT_MAX_CANDIDATES),
        }
    }
}

/// A host goes where the last entry for it says; a host without an entry goes
/// nowhere.
pub proof fn law_the_last_entry_counts(entries: Seq<(String, String)>, name: Seq<char>, i: int)
    ensures
        hosts(entries).dom().contains(name) <==> exists|j: int|
            0 <= j < entries.len() && (#[trigger] entries[j]).0@ == name,
        0 <= i < entries.len() && entries[i].0@ == name && (forall|j: int|
            i < j < entries.len() ==> (#[trigger] entries[j]).0@ != name) ==> hosts(entries)[name]
            == entries[i].1@,
    decreases entries.len(),
{
    if entries.len() > 0 {
        let init = entries.drop_last();
        let last = entries.len() - 1;
        law_the_last_entry_counts(init, name, i);
        assert(entries.last() == entries[last]);
        if hosts(entries).dom().contains(name) && entries[last].0@ != name {
            let j = choose|j: int| 0 <= j < init.len() && (#[trigger] init[j]).0@ == name;
            assert(entries[j].0@ == name);
        }
        if exists|j: int| 0 <= j < entries.len() && (#[trigger] entries[j]).0@ == name {
            let j = choose|j: int| 0 <= j < entries.len() && (#[trigger] entries[j]).0@ == name;
            if j < last {
                assert(init[j].0@ == name);
            }
        }
        if 0 <= i < last && entries[i].0@ == name && (forall|j: int|
            i < j < entries.len() ==> (#[trigger] entries[j]).0@ != name) {
            assert(entries[last].0@ != name);
            assert(init[i].0@ == name);
            assert forall|j: int| i < j < init.len() implies (#[trigger] init[j]).0@ != name by {
                assert(init[j] == entries[j]);
            }
        }
    }
}

/// Likewise the nodes of a host: those of the last entry, one or many, in
/// order.
pub proof fn law_the_last_node_list_counts(
    entries: Seq<(String, OneOrMany)>,
    name: Seq<char>,
    i: int,
)
    ensures
        spelled(entries).dom().contains(name) <==> exists|j: int|
            0 <= j < entries.len() && (#[trigger] entries[j]).0@ == name,
        0 <= i < entries.len() && entries[i].0@ == name && (forall|j: int|
            i < j < entries.len() ==> (#[trigger] entries[j]).0@ != name) ==> match entries[i].1 {
            OneOrMany::One(id) => spelled(entries)[name] == seq![id@],
            OneOrMany::Many(ids) => spelled(entries)[name].len() == ids@.len() && forall|k: int|
                0 <= k < ids@.len() ==> #[trigger] spelled(entries)[name][k] == ids@[k]@,
        },
    decreases entries.len(),
{
    if entries.len() > 0 {
        let init = entries.drop_last();
        let last = entries.len() - 1;
        law_the_last_node_list_counts(init, name, i);
        assert(entries.last() == entries[last]);
        if spelled(entries).dom().contains(name) && entries[last].0@ != name {
            let j = choose|j: int| 0 <= j < init.len() && (#[trigger] init[j]).0@ == name;
            assert(entries[j].0@ == name);
        }
        if exists|j: int| 0 <= j < entries.len() && (#[trigger] entries[j]).0@ == name {
            let j = choose|j: int| 0 <= j < entries.len() && (#[trigger] entries[j]).0@ == name;
            if j < last {
                assert(init[j].0@ == name);
            }
        }
        if 0 <= i < last && entries[i].0@ == name && (forall|j: int|
            i < j < entries.len() ==> (#[trigger] entries[j]).0@ != name) {
            assert(entries[last].0@ != name);
            assert(init[i].0@ == name);
            assert forall|j: int| i < j < init.len() implies (#[trigger] init[j]).0@ != name by {
                assert(init[j] == entries[j]);
            }
        }
    }
}

/// What a node map shows of a host is its list, name by name.
pub proof fn law_node_maps_show_every_name(map: Map<Seq<char>, Vec<String>>, host: Seq<char>)
    ensures
        node_map_view(map).dom().contains(host) <==> map.dom().contains(host),
        map.dom().contains(host) ==> node_map_view(map)[host].len() == map[host]@.len()
            && forall|k: int|
            0 <= k < map[host]@.len() ==> #[trigger] node_map_view(map)[host][k] == map[host]@[k]@,
{
}

} // verus!
