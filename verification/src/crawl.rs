//! The Crawl: a registry of nodes and a table of reachability reports, and
//! what each message does to them.

use crate::frame::{graph_report_encoded_bound, node_info_encoded_bound};
use crate::proto::{copy_listeners, copy_texts, GraphReport, ListenAddr, NodeInfo, RadiiMessage, RelayedMessage, SNAPSHOT_BUDGET};
use crate::table::Table;
use crate::text::{contains, same};
use vstd::hash_set::StringHashSet;
use vstd::prelude::*;

verus! {

/// Ceilings on the reachability state that peers can make a Crawl hold. The
/// one per peer keeps a single peer from starving the others out.
pub const MAX_REACHABILITY_ENTRIES: usize = 16_384;

pub const MAX_REACHABILITY_ENTRIES_PER_PEER: usize = 1_024;

// ---------------------------------------------------------------------------
// Data
// ---------------------------------------------------------------------------

/// A registered node.
#[derive(Debug)]
pub struct NodeEntry {
    pub listen_addrs: Vec<ListenAddr>,
    pub roles: Vec<String>,
    pub last_seen_unix_ms: u64,
}

#[verifier::ext_equal]
pub struct NodeEntryView {
    pub listen_addrs: Seq<crate::proto::ListenAddrView>,
    pub roles: Seq<Seq<char>>,
    pub last_seen_unix_ms: u64,
}

impl View for NodeEntry {
    type V = NodeEntryView;

    open spec fn view(&self) -> NodeEntryView {
        NodeEntryView {
            listen_addrs: crate::proto::listen_views(self.listen_addrs@),
            roles: crate::proto::texts(self.roles@),
            last_seen_unix_ms: self.last_seen_unix_ms,
        }
    }
}

/// Who observed, about what, over which protocol. A fresh report under the
/// same key is a heartbeat and replaces the old one.
pub type ReachabilityKey = (String, String, String);

pub struct KeyView {
    pub from: Seq<char>,
    pub target: Seq<char>,
    pub protocol: Seq<char>,
}

/// What a key says.
pub open spec fn key_view(key: ReachabilityKey) -> KeyView {
    KeyView { from: key.0@, target: key.1@, protocol: key.2@ }
}

/// A peer's most recent observation about one target and protocol.
#[derive(Debug)]
pub struct ReachabilityEntry {
    pub reachable: bool,
    pub rtt_ms: Option<u32>,
    pub observed_addr: Option<String>,
    pub last_seen_unix_ms: u64,
}

pub struct ReportView {
    pub reachable: bool,
    pub rtt_ms: Option<u32>,
    pub observed_addr: Option<Seq<char>>,
    pub last_seen_unix_ms: u64,
}

impl View for ReachabilityEntry {
    type V = ReportView;

    open spec fn view(&self) -> ReportView {
        ReportView {
            reachable: self.reachable,
            rtt_ms: self.rtt_ms,
            observed_addr: crate::proto::opt_text(self.observed_addr),
            last_seen_unix_ms: self.last_seen_unix_ms,
        }
    }
}

/// The reports, oldest key first, each key once.
#[derive(Debug)]
pub struct ReachabilityTable {
    pub entries: Vec<(ReachabilityKey, ReachabilityEntry)>,
}

impl View for ReachabilityTable {
    type V = Seq<(KeyView, ReportView)>;

    open spec fn view(&self) -> Seq<(KeyView, ReportView)> {
        self.entries@.map_values(
            |e: (ReachabilityKey, ReachabilityEntry)| (key_view(e.0), e.1@),
        )
    }
}

/// Everything a Crawl knows.
#[derive(Debug)]
pub struct CrawlState {
    pub nodes: Table<NodeEntry>,
    pub reachability: ReachabilityTable,
    /// `None` means that entries never expire. Otherwise a node and a report
    /// drop out of snapshots once they have not been heard of for longer.
    pub node_ttl_ms: Option<u64>,
    /// The authenticated node ids that may relay for others. Nobody may by
    /// default.
    pub relay_peers: Vec<String>,
}

#[verifier::ext_equal]
pub struct CrawlView {
    /// The registered ids, oldest first.
    pub ids: Seq<Seq<char>>,
    pub nodes: Map<Seq<char>, NodeEntryView>,
    pub reports: Seq<(KeyView, ReportView)>,
    pub node_ttl_ms: Option<u64>,
    pub relay_peers: Seq<Seq<char>>,
}

impl View for CrawlState {
    type V = CrawlView;

    open spec fn view(&self) -> CrawlView {
        CrawlView {
            ids: self.nodes.keys(),
            nodes: self.nodes@.map_values(|e: NodeEntry| e@),
            reports: self.reachability@,
            node_ttl_ms: self.node_ttl_ms,
            relay_peers: crate::proto::texts(self.relay_peers@),
        }
    }
}

// ---------------------------------------------------------------------------
// Liveness
// ---------------------------------------------------------------------------

/// Whether something last heard of at `seen` has been quiet for too long.
pub open spec fn stale(ttl: Option<u64>, now: u64, seen: u64) -> bool {
    ttl matches Some(t) && now > seen && now - seen > t
}

/// Whether something last heard of at `seen` has been quiet for too long.
fn is_stale(ttl: Option<u64>, now: u64, seen: u64) -> (r: bool)
    ensures
        r == stale(ttl, now, seen),
{
    match ttl {
        None => false,
        Some(t) => now.saturating_sub(seen) > t,
    }
}

// ---------------------------------------------------------------------------
// The report table
// ---------------------------------------------------------------------------

/// The position of `key`.
pub open spec fn held_at(reports: Seq<(KeyView, ReportView)>, key: KeyView, i: int) -> bool {
    0 <= i < reports.len() && reports[i].0 == key
}

/// Whether there is a report under `key`.
pub open spec fn held(reports: Seq<(KeyView, ReportView)>, key: KeyView) -> bool {
    exists|i: int| #[trigger] held_at(reports, key, i)
}

/// No key occurs twice.
pub open spec fn distinct_keys(reports: Seq<(KeyView, ReportView)>) -> bool {
    forall|i: int, j: int|
        0 <= i < j < reports.len() ==> (#[trigger] reports[i]).0 != (#[trigger] reports[j]).0
}

/// The reports that are not stale.
pub open spec fn fresh(reports: Seq<(KeyView, ReportView)>, ttl: Option<u64>, now: u64) -> Seq<
    (KeyView, ReportView),
> {
    reports.filter(|r: (KeyView, ReportView)| !stale(ttl, now, r.1.last_seen_unix_ms))
}

/// The reports that `from` made.
pub open spec fn made_by(reports: Seq<(KeyView, ReportView)>, from: Seq<char>) -> Seq<
    (KeyView, ReportView),
> {
    reports.filter(|r: (KeyView, ReportView)| r.0.from == from)
}

/// The table with room made for a new key: a full table sheds what is stale.
pub open spec fn with_room(
    reports: Seq<(KeyView, ReportView)>,
    ttl: Option<u64>,
    now: u64,
) -> Seq<(KeyView, ReportView)> {
    if reports.len() >= MAX_REACHABILITY_ENTRIES {
        fresh(reports, ttl, now)
    } else {
        reports
    }
}

/// Whether a report under `key` is accepted.
pub open spec fn accepts(
    reports: Seq<(KeyView, ReportView)>,
    ttl: Option<u64>,
    key: KeyView,
    now: u64,
) -> bool {
    held(reports, key) || {
        &&& with_room(reports, ttl, now).len() < MAX_REACHABILITY_ENTRIES
        &&& made_by(with_room(reports, ttl, now), key.from).len()
            < MAX_REACHABILITY_ENTRIES_PER_PEER
    }
}

/// The table after a report was offered.
pub open spec fn recorded(
    reports: Seq<(KeyView, ReportView)>,
    ttl: Option<u64>,
    key: KeyView,
    entry: ReportView,
) -> Seq<(KeyView, ReportView)> {
    if held(reports, key) {
        reports.update(choose|i: int| held_at(reports, key, i), (key, entry))
    } else if accepts(reports, ttl, key, entry.last_seen_unix_ms) {
        with_room(reports, ttl, entry.last_seen_unix_ms).push((key, entry))
    } else {
        with_room(reports, ttl, entry.last_seen_unix_ms)
    }
}

/// Both ceilings hold and no key occurs twice.
pub open spec fn table_ok(reports: Seq<(KeyView, ReportView)>) -> bool {
    &&& distinct_keys(reports)
    &&& reports.len() <= MAX_REACHABILITY_ENTRIES
    &&& forall|from: Seq<char>| (#[trigger] made_by(reports, from)).len()
        <= MAX_REACHABILITY_ENTRIES_PER_PEER
}

proof fn lemma_filter_sub<T>(s: Seq<T>, p: spec_fn(T) -> bool, q: spec_fn(T) -> bool)
    ensures
        s.filter(p).filter(q).len() <= s.filter(q).len(),
        s.filter(p).len() <= s.len(),
    decreases s.len(),
{
    reveal(Seq::filter);
    if s.len() > 0 {
        lemma_filter_sub(s.drop_last(), p, q);
        let init = s.drop_last();
        if p(s.last()) {
            let f = init.filter(p).push(s.last());
            assert(s.filter(p) =~= f);
            assert(f.drop_last() =~= init.filter(p));
        }
    }
}

/// Every item that a filter keeps stands in the list, and no two of them at
/// the same place.
proof fn lemma_filter_places<T>(s: Seq<T>, p: spec_fn(T) -> bool) -> (places: Seq<int>)
    ensures
        places.len() == s.filter(p).len(),
        forall|i: int|
            0 <= i < places.len() ==> 0 <= #[trigger] places[i] < s.len() && s[places[i]]
                == s.filter(p)[i] && p(s.filter(p)[i]),
        forall|i: int, j: int| 0 <= i < j < places.len() ==> places[i] < places[j],
    decreases s.len(),
{
    reveal(Seq::filter);
    if s.len() == 0 {
        Seq::empty()
    } else {
        let before = lemma_filter_places(s.drop_last(), p);
        if p(s.last()) {
            before.push(s.len() - 1)
        } else {
            before
        }
    }
}

proof fn lemma_filter_distinct(
    reports: Seq<(KeyView, ReportView)>,
    p: spec_fn((KeyView, ReportView)) -> bool,
)
    requires
        distinct_keys(reports),
    ensures
        distinct_keys(reports.filter(p)),
        forall|i: int| 0 <= i < reports.filter(p).len() ==> reports.contains(
            #[trigger] reports.filter(p)[i],
        ),
        forall|i: int| 0 <= i < reports.filter(p).len() ==> p(#[trigger] reports.filter(p)[i]),
{
    let places = lemma_filter_places(reports, p);
    let kept = reports.filter(p);
    assert forall|i: int, j: int| 0 <= i < j < kept.len() implies (#[trigger] kept[i]).0 != (
    #[trigger] kept[j]).0 by {
        assert(places[i] < places[j]);
        assert(reports[places[i]].0 != reports[places[j]].0);
    }
    assert forall|i: int| 0 <= i < kept.len() implies reports.contains(#[trigger] kept[i]) && p(
        kept[i],
    ) by {
        assert(reports[places[i]] == kept[i]);
    }
}

proof fn lemma_filter_push<T>(s: Seq<T>, x: T, p: spec_fn(T) -> bool)
    ensures
        s.push(x).filter(p) == if p(x) {
            s.filter(p).push(x)
        } else {
            s.filter(p)
        },
{
    reveal(Seq::filter);
    assert(s.push(x).drop_last() =~= s);
}

proof fn lemma_filter_update<T>(s: Seq<T>, i: int, x: T, p: spec_fn(T) -> bool)
    requires
        0 <= i < s.len(),
        p(x) == p(s[i]),
    ensures
        s.update(i, x).filter(p).len() == s.filter(p).len(),
    decreases s.len(),
{
    reveal(Seq::filter);
    let t = s.update(i, x);
    if i == s.len() - 1 {
        assert(t.drop_last() =~= s.drop_last());
    } else {
        assert(t.drop_last() =~= s.drop_last().update(i, x));
        lemma_filter_update(s.drop_last(), i, x, p);
    }
}

/// Whatever is reported, no key occurs twice, ceilings that hold go on to hold,
/// an update of a known key is accepted at no growth, and the newest
/// observation wins.
pub proof fn law_report_table(
    reports: Seq<(KeyView, ReportView)>,
    ttl: Option<u64>,
    key: KeyView,
    entry: ReportView,
)
    requires
        distinct_keys(reports),
    ensures
        distinct_keys(recorded(reports, ttl, key, entry)),
        table_ok(reports) ==> table_ok(recorded(reports, ttl, key, entry)),
        held(reports, key) ==> accepts(reports, ttl, key, entry.last_seen_unix_ms) && recorded(
            reports,
            ttl,
            key,
            entry,
        ).len() == reports.len(),
        accepts(reports, ttl, key, entry.last_seen_unix_ms) ==> recorded(
            reports,
            ttl,
            key,
            entry,
        ).contains((key, entry)),
        forall|r: (KeyView, ReportView)| #[trigger]
            recorded(reports, ttl, key, entry).contains(r) ==> r == (key, entry) || (r.0 != key
                && reports.contains(r)),
{
    let now = entry.last_seen_unix_ms;
    let after = recorded(reports, ttl, key, entry);
    if held(reports, key) {
        let i = choose|i: int| held_at(reports, key, i);
        assert(held_at(reports, key, i));
        assert forall|from: Seq<char>| table_ok(reports) implies (#[trigger] made_by(
            after,
            from,
        )).len() <= MAX_REACHABILITY_ENTRIES_PER_PEER by {
            lemma_filter_update(
                reports,
                i,
                (key, entry),
                |r: (KeyView, ReportView)| r.0.from == from,
            );
            assert(made_by(reports, from).len() <= MAX_REACHABILITY_ENTRIES_PER_PEER);
        }
        assert(after[i] == (key, entry));
        assert forall|r: (KeyView, ReportView)| #[trigger] after.contains(r) implies r == (
            key,
            entry,
        ) || (r.0 != key && reports.contains(r)) by {
            let j = choose|j: int| 0 <= j < after.len() && after[j] == r;
            if j != i {
                assert(reports[j] == r);
            }
        }
    } else {
        let room = with_room(reports, ttl, now);
        let keep = |r: (KeyView, ReportView)| !stale(ttl, now, r.1.last_seen_unix_ms);
        lemma_filter_distinct(reports, keep);
        assert(distinct_keys(room));
        assert forall|i: int| 0 <= i < room.len() implies (#[trigger] room[i]).0 != key
            && reports.contains(room[i]) by {
            assert(reports.contains(room[i]));
            let j = choose|j: int| 0 <= j < reports.len() && reports[j] == room[i];
            if room[i].0 == key {
                assert(held_at(reports, key, j));
            }
        }
        assert forall|from: Seq<char>| table_ok(reports) implies (#[trigger] made_by(
            room,
            from,
        )).len() <= MAX_REACHABILITY_ENTRIES_PER_PEER by {
            lemma_filter_sub(reports, keep, |r: (KeyView, ReportView)| r.0.from == from);
            assert(made_by(reports, from).len() <= MAX_REACHABILITY_ENTRIES_PER_PEER);
        }
        lemma_filter_sub(reports, keep, keep);
        if accepts(reports, ttl, key, now) {
            assert(after == room.push((key, entry)));
            assert(after[room.len() as int] == (key, entry));
            assert forall|from: Seq<char>| table_ok(reports) implies (#[trigger] made_by(
                after,
                from,
            )).len() <= MAX_REACHABILITY_ENTRIES_PER_PEER by {
                lemma_filter_push(
                    room,
                    (key, entry),
                    |r: (KeyView, ReportView)| r.0.from == from,
                );
                assert(made_by(room, from).len() <= MAX_REACHABILITY_ENTRIES_PER_PEER);
            }
        }
        assert forall|r: (KeyView, ReportView)| #[trigger] after.contains(r) implies r == (
            key,
            entry,
        ) || (r.0 != key && reports.contains(r)) by {
            let j = choose|j: int| 0 <= j < after.len() && after[j] == r;
            if j < room.len() {
                assert(room[j] == r);
            }
        }
    }
}

/// One peer cannot starve another: while the table is not full, a peer that
/// is below its own ceiling is always let in.
pub proof fn law_no_starvation(
    reports: Seq<(KeyView, ReportView)>,
    ttl: Option<u64>,
    key: KeyView,
    now: u64,
)
    requires
        reports.len() < MAX_REACHABILITY_ENTRIES,
        made_by(reports, key.from).len() < MAX_REACHABILITY_ENTRIES_PER_PEER,
    ensures
        accepts(reports, ttl, key, now),
{
}

/// Whether two keys are the same.
fn same_key(a: &ReachabilityKey, b: &ReachabilityKey) -> (r: bool)
    ensures
        r == (key_view(*a) == key_view(*b)),
{
    same(a.0.as_str(), b.0.as_str()) && same(a.1.as_str(), b.1.as_str()) && same(
        a.2.as_str(),
        b.2.as_str(),
    )
}

impl ReachabilityTable {
    pub fn new() -> (r: Self)
        ensures
            r@.len() == 0,
    {
        ReachabilityTable { entries: Vec::new() }
    }

    /// The number of reports.
    pub fn len(&self) -> (r: usize)
        ensures
            r == self@.len(),
    {
        self.entries.len()
    }

    /// The report under `key`.
    pub fn get(&self, key: &ReachabilityKey) -> (r: Option<&ReachabilityEntry>)
        ensures
            match r {
                None => !held(self@, key_view(*key)),
                Some(e) => exists|i: int| #[trigger]
                    held_at(self@, key_view(*key), i) && self@[i].1 == e@,
            },
    {
        match self.find(key) {
            None => None,
            Some(i) => {
                assert(self@[i as int].1 == self.entries@[i as int].1@);
                Some(&self.entries[i].1)
            },
        }
    }

    fn find(&self, key: &ReachabilityKey) -> (r: Option<usize>)
        ensures
            match r {
                None => !held(self@, key_view(*key)),
                Some(i) => held_at(self@, key_view(*key), i as int),
            },
    {
        let mut i: usize = 0;
        while i < self.entries.len()
            invariant
                i <= self.entries@.len(),
                forall|j: int| 0 <= j < i ==> (#[trigger] self@[j]).0 != key_view(*key),
            decreases self.entries@.len() - i,
        {
            assert(self@[i as int].0 == key_view(self.entries@[i as int].0));
            if same_key(&self.entries[i].0, key) {
                return Some(i);
            }
            i += 1;
        }
        None
    }

    fn count_from(&self, from: &str) -> (r: usize)
        ensures
            r == made_by(self@, from@).len(),
    {
        let ghost p = |r: (KeyView, ReportView)| r.0.from == from@;
        let mut n: usize = 0;
        let mut i: usize = 0;
        proof {
            reveal(Seq::filter);
            assert(self@.take(0) =~= Seq::empty());
        }
        while i < self.entries.len()
            invariant
                i <= self.entries@.len(),
                n <= i,
                p == (|r: (KeyView, ReportView)| r.0.from == from@),
                n == self@.take(i as int).filter(p).len(),
            decreases self.entries@.len() - i,
        {
            proof {
                assert(self@.take(i + 1) =~= self@.take(i as int).push(self@[i as int]));
                lemma_filter_push(self@.take(i as int), self@[i as int], p);
            }
            if same((self.entries[i].0).0.as_str(), from) {
                n += 1;
            }
            i += 1;
        }
        assert(self@.take(self@.len() as int) =~= self@);
        n
    }

    /// Drops what is stale.
    fn expire(&mut self, ttl: Option<u64>, now: u64)
        ensures
            final(self)@ == fresh(old(self)@, ttl, now),
    {
        let ghost before = self@;
        let ghost keep = |r: (KeyView, ReportView)| !stale(ttl, now, r.1.last_seen_unix_ms);
        let mut old_entries: Vec<(ReachabilityKey, ReachabilityEntry)> = Vec::new();
        std::mem::swap(&mut old_entries, &mut self.entries);
        let ghost all = old_entries@;
        proof {
            reveal(Seq::filter);
            assert(before.take(0) =~= Seq::empty());
            assert(self@ =~= before.take(0).filter(keep));
        }
        for entry in it: old_entries
            invariant
                it.seq() == all,
                before == all.map_values(
                    |e: (ReachabilityKey, ReachabilityEntry)| (key_view(e.0), e.1@),
                ),
                keep == (|r: (KeyView, ReportView)| !stale(ttl, now, r.1.last_seen_unix_ms)),
                self@ == before.take(it.index() as int).filter(keep),
        {
            let ghost i = it.index() as int;
            let ghost kept = self@;
            proof {
                assert(entry == all[i]);
                assert(before.take(i + 1) =~= before.take(i).push(before[i]));
                lemma_filter_push(before.take(i), before[i], keep);
            }
            if !is_stale(ttl, now, entry.1.last_seen_unix_ms) {
                self.entries.push(entry);
                assert(self@ =~= kept.push(before[i]));
            }
        }
        assert(before.take(before.len() as int) =~= before);
    }
}

// ---------------------------------------------------------------------------
// The state
// ---------------------------------------------------------------------------

impl CrawlView {
    /// The state after a report was offered.
    pub open spec fn report(self, key: KeyView, entry: ReportView) -> Self {
        CrawlView { reports: recorded(self.reports, self.node_ttl_ms, key, entry), ..self }
    }

    /// The state after a node said hello.
    pub open spec fn hello(self, id: Seq<char>, entry: NodeEntryView) -> Self {
        CrawlView {
            ids: if self.nodes.dom().contains(id) {
                self.ids
            } else {
                self.ids.push(id)
            },
            nodes: self.nodes.insert(id, entry),
            ..self
        }
    }

    /// Whether the node is registered and has been quiet for too long. A node
    /// that never said hello does not expire.
    pub open spec fn expired(self, id: Seq<char>, now: u64) -> bool {
        self.nodes.dom().contains(id) && stale(
            self.node_ttl_ms,
            now,
            self.nodes[id].last_seen_unix_ms,
        )
    }

    /// A registered node as a snapshot lists it.
    pub open spec fn node_info(self, id: Seq<char>) -> crate::proto::NodeInfoView {
        crate::proto::NodeInfoView {
            node_id: id,
            listen_addrs: self.nodes[id].listen_addrs,
            roles: self.nodes[id].roles,
        }
    }

    /// Whether a report belongs into a snapshot: neither end has gone quiet,
    /// and the observation itself is not stale.
    pub open spec fn current(self, r: (KeyView, ReportView), now: u64) -> bool {
        &&& !self.expired(r.0.from, now)
        &&& !self.expired(r.0.target, now)
        &&& !stale(self.node_ttl_ms, now, r.1.last_seen_unix_ms)
    }

    /// The nodes that belong into a snapshot.
    pub open spec fn live_nodes(self, now: u64) -> Seq<crate::proto::NodeInfoView> {
        self.ids.filter(|id: Seq<char>| !self.expired(id, now)).map_values(
            |id: Seq<char>| self.node_info(id),
        )
    }

    /// The reports that belong into a snapshot.
    pub open spec fn live_reports(self, now: u64) -> Seq<crate::proto::GraphReportView> {
        self.reports.filter(|r: (KeyView, ReportView)| self.current(r, now)).map_values(
            |r: (KeyView, ReportView)| report_info(r),
        )
    }

    /// The nodes of a snapshot: as many as the budget holds.
    pub open spec fn snapshot_nodes(self, now: u64) -> Seq<crate::proto::NodeInfoView> {
        fitting(
            self.live_nodes(now),
            |n: crate::proto::NodeInfoView| crate::frame::node_bound(n),
            SNAPSHOT_BUDGET as nat,
        )
    }

    /// The reports of a snapshot: as many as the nodes leave room for.
    pub open spec fn snapshot_reports(self, now: u64) -> Seq<crate::proto::GraphReportView> {
        fitting(
            self.live_reports(now),
            |r: crate::proto::GraphReportView| crate::frame::report_bound(r),
            (SNAPSHOT_BUDGET - crate::frame::total(
                self.snapshot_nodes(now),
                |n: crate::proto::NodeInfoView| crate::frame::node_bound(n),
            )) as nat,
        )
    }

    /// The answer to a query.
    pub open spec fn snapshot(self, now: u64) -> crate::proto::MessageView {
        crate::proto::MessageView::GraphSnapshot {
            nodes: self.snapshot_nodes(now),
            reports: self.snapshot_reports(now),
        }
    }
}

/// A report as a snapshot lists it.
pub open spec fn report_info(r: (KeyView, ReportView)) -> crate::proto::GraphReportView {
    crate::proto::GraphReportView {
        from: r.0.from,
        target: r.0.target,
        protocol: r.0.protocol,
        reachable: r.1.reachable,
        rtt_ms: r.1.rtt_ms,
    }
}

/// The longest beginning of the list whose total stays within `budget`.
pub open spec fn fitting<T>(list: Seq<T>, f: spec_fn(T) -> nat, budget: nat) -> Seq<T>
    decreases list.len(),
{
    if list.len() == 0 || f(list[0]) > budget {
        Seq::empty()
    } else {
        seq![list[0]] + fitting(list.drop_first(), f, (budget - f(list[0])) as nat)
    }
}

proof fn lemma_total_front<T>(list: Seq<T>, f: spec_fn(T) -> nat)
    requires
        list.len() > 0,
    ensures
        crate::frame::total(list, f) == f(list[0]) + crate::frame::total(list.drop_first(), f),
    decreases list.len(),
{
    if list.len() == 1 {
        assert(list.drop_last() =~= Seq::empty());
        assert(list.drop_first() =~= Seq::empty());
    } else {
        lemma_total_front(list.drop_last(), f);
        assert(list.drop_first().drop_last() =~= list.drop_last().drop_first());
        assert(list.drop_first().last() == list.last());
    }
}

/// What is fitted stays within the budget, is a beginning of the list, and is
/// the whole list where that fits.
pub proof fn law_fitting<T>(list: Seq<T>, f: spec_fn(T) -> nat, budget: nat)
    ensures
        crate::frame::total(fitting(list, f, budget), f) <= budget,
        fitting(list, f, budget).is_prefix_of(list),
        crate::frame::total(list, f) <= budget ==> fitting(list, f, budget) == list,
    decreases list.len(),
{
    if list.len() == 0 {
        assert(list =~= Seq::empty());
    } else if f(list[0]) > budget {
        lemma_total_front(list, f);
    } else {
        let rest = list.drop_first();
        let left = (budget - f(list[0])) as nat;
        law_fitting(rest, f, left);
        let got = fitting(list, f, budget);
        let more = fitting(rest, f, left);
        assert(got.drop_first() =~= more);
        lemma_total_front(got, f);
        lemma_total_front(list, f);
        assert(seq![list[0]] + rest =~= list);
        assert forall|i: int| 0 <= i < got.len() implies got[i] == list[i] by {
            if i > 0 {
                assert(more[i - 1] == rest[i - 1]);
            }
        }
        assert(got =~= list.take(got.len() as int));
    }
}

/// Extending a fitted beginning by the next item, if that still fits.
proof fn lemma_fitting_step<T>(list: Seq<T>, f: spec_fn(T) -> nat, budget: nat, i: int)
    requires
        0 <= i <= list.len(),
        crate::frame::total(list.take(i), f) <= budget,
    ensures
        i == list.len() ==> fitting(list, f, budget) == list,
        i < list.len() && crate::frame::total(list.take(i), f) + f(list[i]) > budget ==> fitting(
            list,
            f,
            budget,
        ) == list.take(i),
    decreases list.len(),
{
    if list.len() == 0 {
        assert(list =~= Seq::empty());
        assert(list.take(0) =~= list);
    } else if i == 0 {
        assert(list.take(0) =~= Seq::empty());
    } else {
        let rest = list.drop_first();
        lemma_total_front(list.take(i), f);
        assert(list.take(i).drop_first() =~= rest.take(i - 1));
        let left = (budget - f(list[0])) as nat;
        lemma_fitting_step(rest, f, left, i - 1);
        assert(seq![list[0]] + rest =~= list);
        assert(seq![list[0]] + rest.take(i - 1) =~= list.take(i));
    }
}

impl Default for CrawlState {
    fn default() -> (r: Self)
        ensures
            r@.ids.len() == 0,
            r@.nodes == Map::<Seq<char>, NodeEntryView>::empty(),
            r@.reports.len() == 0,
            r@.node_ttl_ms is None,
            r@.relay_peers.len() == 0,
    {
        let r = CrawlState {
            nodes: Table::new(),
            reachability: ReachabilityTable::new(),
            node_ttl_ms: None,
            relay_peers: Vec::new(),
        };
        assert(r@.nodes =~= Map::<Seq<char>, NodeEntryView>::empty());
        r
    }
}

impl CrawlState {
    /// Records one observation, replacing an earlier one of the same peer
    /// about the same target and protocol.
    ///
    /// Only a new key is ever refused: a peer that keeps its reports fresh is
    /// not.
    pub fn record_report(&mut self, key: ReachabilityKey, entry: ReachabilityEntry) -> (accepted:
        bool)
        requires
            distinct_keys(old(self)@.reports),
        ensures
            accepted == accepts(
                old(self)@.reports,
                old(self)@.node_ttl_ms,
                key_view(key),
                entry.last_seen_unix_ms,
            ),
            final(self)@ == old(self)@.report(key_view(key), entry@),
            distinct_keys(final(self)@.reports),
            table_ok(old(self)@.reports) ==> table_ok(final(self)@.reports),
    {
        let ghost before = self@;
        let ghost k = key_view(key);
        let ghost e = entry@;
        let now: u64 = entry.last_seen_unix_ms;
        proof {
            law_report_table(before.reports, before.node_ttl_ms, k, e);
        }
        if let Some(i) = self.reachability.find(&key) {
            proof {
                let w = choose|w: int| held_at(before.reports, k, w);
                assert(held_at(before.reports, k, w));
                assert(w == i);
            }
            self.reachability.entries[i].1 = entry;
            assert(self@.reports =~= before.reports.update(i as int, (k, e)));
            assert(self@ =~= before.report(k, e));
            return true;
        }
        if self.reachability.len() >= MAX_REACHABILITY_ENTRIES {
            let ttl: Option<u64> = self.node_ttl_ms;
            self.reachability.expire(ttl, now);
        }
        assert(self@.reports == with_room(before.reports, before.node_ttl_ms, now));
        if self.reachability.len() >= MAX_REACHABILITY_ENTRIES {
            assert(self@ =~= before.report(k, e));
            return false;
        }
        if self.reachability.count_from(key.0.as_str()) >= MAX_REACHABILITY_ENTRIES_PER_PEER {
            assert(self@ =~= before.report(k, e));
            return false;
        }
        let ghost room = self@.reports;
        self.reachability.entries.push((key, entry));
        assert(self@.reports =~= room.push((k, e)));
        assert(self@ =~= before.report(k, e));
        true
    }

    /// Registers a node, or refreshes it.
    fn register(&mut self, node_id: String, entry: NodeEntry)
        ensures
            final(self)@ == old(self)@.hello(node_id@, entry@),
    {
        let ghost before = self@;
        let ghost nodes0 = self.nodes@;
        self.nodes.insert(node_id, entry);
        assert(self@.nodes =~= before.nodes.insert(node_id@, entry@));
        assert(self@ =~= before.hello(node_id@, entry@));
    }
}

/// The registered ids that have not been heard from within the time to live.
pub fn expired_node_ids(
    nodes: &Table<NodeEntry>,
    node_ttl_ms: Option<u64>,
    now_unix_ms: u64,
) -> (r: StringHashSet)
    ensures
        forall|id: Seq<char>| #[trigger]
            r@.contains(id) <==> nodes@.dom().contains(id) && stale(
                node_ttl_ms,
                now_unix_ms,
                nodes@[id].last_seen_unix_ms,
            ),
{
    let mut r: StringHashSet = StringHashSet::new();
    let n: usize = nodes.len();
    let mut i: usize = 0;
    while i < n
        invariant
            i <= n,
            n == nodes.keys().len(),
            nodes.consistent(),
            forall|id: Seq<char>| #[trigger]
                r@.contains(id) <==> stale(
                    node_ttl_ms,
                    now_unix_ms,
                    nodes@[id].last_seen_unix_ms,
                ) && exists|j: int| 0 <= j < i && #[trigger] nodes.keys()[j] == id,
        decreases n - i,
    {
        let (id, entry) = nodes.entry(i);
        let ghost before = r@;
        if is_stale(node_ttl_ms, now_unix_ms, entry.last_seen_unix_ms) {
            r.insert(id.clone());
        }
        proof {
            assert forall|x: Seq<char>| #[trigger] r@.contains(x) <==> stale(
                node_ttl_ms,
                now_unix_ms,
                nodes@[x].last_seen_unix_ms,
            ) && exists|j: int| 0 <= j < i + 1 && #[trigger] nodes.keys()[j] == x by {
                if x == nodes.keys()[i as int] {
                } else {
                    assert(r@.contains(x) == before.contains(x));
                    if exists|j: int| 0 <= j < i + 1 && #[trigger] nodes.keys()[j] == x {
                        let j = choose|j: int| 0 <= j < i + 1 && #[trigger] nodes.keys()[j] == x;
                        assert(j < i);
                    }
                }
            }
        }
        i += 1;
    }
    proof {
        assert forall|id: Seq<char>| #[trigger] r@.contains(id) <==> nodes@.dom().contains(id)
            && stale(node_ttl_ms, now_unix_ms, nodes@[id].last_seen_unix_ms) by {
            if nodes@.dom().contains(id) {
                assert(nodes.keys().contains(id));
                let j = choose|j: int| 0 <= j < nodes.keys().len() && nodes.keys()[j] == id;
            }
        }
    }
    r
}

// ---------------------------------------------------------------------------
// Snapshots
// ---------------------------------------------------------------------------

/// The views of a list of nodes.
pub open spec fn node_views(nodes: Seq<NodeInfo>) -> Seq<crate::proto::NodeInfoView> {
    nodes.map_values(|n: NodeInfo| n@)
}

/// The views of a list of reports.
pub open spec fn report_views(reports: Seq<GraphReport>) -> Seq<crate::proto::GraphReportView> {
    reports.map_values(|r: GraphReport| r@)
}

/// What the set of expired ids has to do with the state.
spec fn tells_expired(expired: Set<Seq<char>>, state: CrawlView, now: u64) -> bool {
    forall|id: Seq<char>| #[trigger] expired.contains(id) <==> state.expired(id, now)
}

fn live_nodes(state: &CrawlState, expired: &StringHashSet, Ghost(now): Ghost<u64>) -> (r: Vec<
    NodeInfo,
>)
    requires
        tells_expired(expired@, state@, now),
    ensures
        node_views(r@) == state@.live_nodes(now),
{
    let ghost s = state@;
    let ghost keep = |id: Seq<char>| !s.expired(id, now);
    let ghost info = |id: Seq<char>| s.node_info(id);
    let n: usize = state.nodes.len();
    let mut r: Vec<NodeInfo> = Vec::new();
    let mut i: usize = 0;
    proof {
        reveal(Seq::filter);
        assert(s.ids.take(0) =~= Seq::empty());
        assert(node_views(r@) =~= s.ids.take(0).filter(keep).map_values(info));
    }
    while i < n
        invariant
            i <= n,
            n == s.ids.len(),
            s == state@,
            state.nodes.consistent(),
            tells_expired(expired@, s, now),
            keep == (|id: Seq<char>| !s.expired(id, now)),
            info == (|id: Seq<char>| s.node_info(id)),
            node_views(r@) == s.ids.take(i as int).filter(keep).map_values(info),
        decreases n - i,
    {
        let (id, entry) = state.nodes.entry(i);
        let ghost before = node_views(r@);
        let ghost kept = s.ids.take(i as int).filter(keep);
        proof {
            assert(s.ids.take(i + 1) =~= s.ids.take(i as int).push(s.ids[i as int]));
            lemma_filter_push(s.ids.take(i as int), s.ids[i as int], keep);
        }
        if !expired.contains(id.as_str()) {
            let node: NodeInfo = NodeInfo {
                node_id: id.clone(),
                listen_addrs: copy_listeners(&entry.listen_addrs),
                roles: copy_texts(&entry.roles),
            };
            proof {
                assert(s.nodes[id@] == entry@);
                assert(node@ =~= s.node_info(id@));
            }
            r.push(node);
            assert(node_views(r@) =~= before.push(node@));
            assert(kept.push(id@).map_values(info) =~= kept.map_values(info).push(node@));
        }
        i += 1;
    }
    assert(s.ids.take(n as int) =~= s.ids);
    r
}

fn live_reports(state: &CrawlState, expired: &StringHashSet, now: u64) -> (r: Vec<GraphReport>)
    requires
        tells_expired(expired@, state@, now),
    ensures
        report_views(r@) == state@.live_reports(now),
{
    let ghost s = state@;
    let ghost keep = |r: (KeyView, ReportView)| s.current(r, now);
    let ghost info = |r: (KeyView, ReportView)| report_info(r);
    let n: usize = state.reachability.len();
    let mut r: Vec<GraphReport> = Vec::new();
    let mut i: usize = 0;
    proof {
        reveal(Seq::filter);
        assert(s.reports.take(0) =~= Seq::empty());
        assert(report_views(r@) =~= s.reports.take(0).filter(keep).map_values(info));
    }
    while i < n
        invariant
            i <= n,
            n == s.reports.len(),
            s == state@,
            tells_expired(expired@, s, now),
            keep == (|r: (KeyView, ReportView)| s.current(r, now)),
            info == (|r: (KeyView, ReportView)| report_info(r)),
            report_views(r@) == s.reports.take(i as int).filter(keep).map_values(info),
        decreases n - i,
    {
        let key: &ReachabilityKey = &state.reachability.entries[i].0;
        let entry: &ReachabilityEntry = &state.reachability.entries[i].1;
        let ghost before = report_views(r@);
        let ghost kept = s.reports.take(i as int).filter(keep);
        proof {
            assert(s.reports[i as int] == (key_view(*key), entry@));
            assert(s.reports.take(i + 1) =~= s.reports.take(i as int).push(s.reports[i as int]));
            lemma_filter_push(s.reports.take(i as int), s.reports[i as int], keep);
        }
        let ends_expired: bool = expired.contains(key.0.as_str()) || expired.contains(
            key.1.as_str(),
        );
        if !ends_expired && !is_stale(state.node_ttl_ms, now, entry.last_seen_unix_ms) {
            let report: GraphReport = GraphReport {
                from: key.0.clone(),
                target: key.1.clone(),
                protocol: key.2.clone(),
                reachable: entry.reachable,
                rtt_ms: entry.rtt_ms,
            };
            assert(report@ == report_info(s.reports[i as int]));
            r.push(report);
            assert(report_views(r@) =~= before.push(report@));
            assert(kept.push(s.reports[i as int]).map_values(info) =~= kept.map_values(info).push(
                report@,
            ));
        }
        i += 1;
    }
    assert(s.reports.take(n as int) =~= s.reports);
    r
}

/// Cuts the list off where the budget runs out; tells how much it takes.
fn fit_nodes(nodes: &mut Vec<NodeInfo>, budget: usize) -> (used: usize)
    requires
        budget < usize::MAX,
    ensures
        node_views(final(nodes)@) == fitting(
            node_views(old(nodes)@),
            |n: crate::proto::NodeInfoView| crate::frame::node_bound(n),
            budget as nat,
        ),
        used == crate::frame::total(
            node_views(final(nodes)@),
            |n: crate::proto::NodeInfoView| crate::frame::node_bound(n),
        ),
        used <= budget,
{
    let ghost views = node_views(nodes@);
    let ghost f = |n: crate::proto::NodeInfoView| crate::frame::node_bound(n);
    let mut used: usize = 0;
    let mut i: usize = 0;
    assert(views.take(0) =~= Seq::empty());
    while i < nodes.len()
        invariant
            i <= nodes@.len(),
            nodes@ == old(nodes)@,
            views == node_views(nodes@),
            f == (|n: crate::proto::NodeInfoView| crate::frame::node_bound(n)),
            used == crate::frame::total(views.take(i as int), f),
            used <= budget < usize::MAX,
        decreases nodes@.len() - i,
    {
        let cost: usize = node_info_encoded_bound(&nodes[i]);
        proof {
            assert(views[i as int] == nodes@[i as int]@);
            assert(views.take(i + 1).drop_last() =~= views.take(i as int));
            assert(views.take(i + 1).last() == views[i as int]);
        }
        if cost > budget - used {
            proof {
                lemma_fitting_step(views, f, budget as nat, i as int);
            }
            nodes.truncate(i);
            assert(node_views(nodes@) =~= views.take(i as int));
            return used;
        }
        used += cost;
        i += 1;
    }
    proof {
        lemma_fitting_step(views, f, budget as nat, i as int);
        assert(views.take(i as int) =~= views);
    }
    used
}

/// Cuts the list off where the budget runs out.
fn fit_reports(reports: &mut Vec<GraphReport>, budget: usize)
    requires
        budget < usize::MAX,
    ensures
        report_views(final(reports)@) == fitting(
            report_views(old(reports)@),
            |r: crate::proto::GraphReportView| crate::frame::report_bound(r),
            budget as nat,
        ),
{
    let ghost views = report_views(reports@);
    let ghost f = |r: crate::proto::GraphReportView| crate::frame::report_bound(r);
    let mut used: usize = 0;
    let mut i: usize = 0;
    assert(views.take(0) =~= Seq::empty());
    while i < reports.len()
        invariant
            i <= reports@.len(),
            reports@ == old(reports)@,
            views == report_views(reports@),
            f == (|r: crate::proto::GraphReportView| crate::frame::report_bound(r)),
            used == crate::frame::total(views.take(i as int), f),
            used <= budget < usize::MAX,
        decreases reports@.len() - i,
    {
        let cost: usize = graph_report_encoded_bound(&reports[i]);
        proof {
            assert(views[i as int] == reports@[i as int]@);
            assert(views.take(i + 1).drop_last() =~= views.take(i as int));
            assert(views.take(i + 1).last() == views[i as int]);
        }
        if cost > budget - used {
            proof {
                lemma_fitting_step(views, f, budget as nat, i as int);
            }
            reports.truncate(i);
            assert(report_views(reports@) =~= views.take(i as int));
            return;
        }
        used += cost;
        i += 1;
    }
    proof {
        lemma_fitting_step(views, f, budget as nat, i as int);
    }
}

/// The nodes and reports of a snapshot.
///
/// Expired nodes are left out, and so is every report that names one or is
/// itself stale. A report about a node that never said hello stays. Where the
/// contents outgrow one frame they are cut off: a snapshot that is too large
/// to send would answer nobody.
pub fn graph_snapshot(state: &CrawlState, now_unix_ms: u64) -> (r: (Vec<NodeInfo>, Vec<GraphReport>))
    ensures
        node_views(r.0@) == state@.snapshot_nodes(now_unix_ms),
        report_views(r.1@) == state@.snapshot_reports(now_unix_ms),
{
    let expired: StringHashSet = expired_node_ids(&state.nodes, state.node_ttl_ms, now_unix_ms);
    assert(tells_expired(expired@, state@, now_unix_ms)) by {
        assert forall|id: Seq<char>| #[trigger] expired@.contains(id) <==> state@.expired(
            id,
            now_unix_ms,
        ) by {
            assert(state@.nodes.dom().contains(id) == state.nodes@.dom().contains(id));
            if state.nodes@.dom().contains(id) {
                assert(state@.nodes[id] == state.nodes@[id]@);
            }
        }
    }
    let mut nodes: Vec<NodeInfo> = live_nodes(state, &expired, Ghost(now_unix_ms));
    let mut reports: Vec<GraphReport> = live_reports(state, &expired, now_unix_ms);
    let used: usize = fit_nodes(&mut nodes, SNAPSHOT_BUDGET as usize);
    fit_reports(&mut reports, SNAPSHOT_BUDGET as usize - used);
    (nodes, reports)
}

// ---------------------------------------------------------------------------
// Messages
// ---------------------------------------------------------------------------

/// An authenticated peer speaks for itself only; a plaintext peer has no
/// identity to hold it to.
pub open spec fn may_claim(peer: Option<Seq<char>>, claimed: Seq<char>) -> bool {
    peer matches Some(id) ==> id == claimed
}

/// An authenticated peer relays only if the operator named it.
pub open spec fn may_relay(peer: Option<Seq<char>>, relay_peers: Seq<Seq<char>>) -> bool {
    peer matches Some(id) ==> relay_peers.contains(id)
}

/// On an authenticated connection a relayed claim needs the identity that the
/// Head authenticated for its client.
pub open spec fn may_relay_claim(
    peer: Option<Seq<char>>,
    client: Option<Seq<char>>,
    claimed: Seq<char>,
) -> bool {
    peer is Some ==> client == Some(claimed)
}

/// An answer with this status.
pub open spec fn ack(status: Seq<char>) -> Option<crate::proto::MessageView> {
    Some(crate::proto::MessageView::Ack { status })
}

impl CrawlView {
    /// The state after an authorized relayed message.
    pub open spec fn wrapped(self, m: crate::proto::RelayedView, now: u64) -> Self {
        match m {
            crate::proto::RelayedView::NodeHello { node_id, roles, listen_addrs } => self.hello(
                node_id,
                NodeEntryView { listen_addrs, roles, last_seen_unix_ms: now },
            ),
            crate::proto::RelayedView::ReachabilityProbe { .. } => self,
            crate::proto::RelayedView::ReachabilityReport {
                from,
                target,
                protocol,
                reachable,
                rtt_ms,
                observed_addr,
            } => self.report(
                KeyView { from, target, protocol },
                ReportView { reachable, rtt_ms, observed_addr, last_seen_unix_ms: now },
            ),
        }
    }

    /// The state after a message.
    pub open spec fn after(
        self,
        peer: Option<Seq<char>>,
        m: crate::proto::MessageView,
        now: u64,
    ) -> Self {
        match m {
            crate::proto::MessageView::NodeHello { node_id, roles, listen_addrs } => if may_claim(
                peer,
                node_id,
            ) {
                self.hello(
                    node_id,
                    NodeEntryView { listen_addrs, roles, last_seen_unix_ms: now },
                )
            } else {
                self
            },
            crate::proto::MessageView::ReachabilityReport {
                from,
                target,
                protocol,
                reachable,
                rtt_ms,
                observed_addr,
            } => if may_claim(peer, from) {
                self.report(
                    KeyView { from, target, protocol },
                    ReportView { reachable, rtt_ms, observed_addr, last_seen_unix_ms: now },
                )
            } else {
                self
            },
            crate::proto::MessageView::FromHead { client_identity, message, .. } => if may_relay(
                peer,
                self.relay_peers,
            ) && (message.claim() matches Some(id) ==> may_relay_claim(peer, client_identity, id)) {
                self.wrapped(message, now)
            } else {
                self
            },
            _ => self,
        }
    }

    /// The answer to a message, if it gets one.
    pub open spec fn answer(
        self,
        peer: Option<Seq<char>>,
        m: crate::proto::MessageView,
        now: u64,
    ) -> Option<crate::proto::MessageView> {
        match m {
            crate::proto::MessageView::NodeHello { node_id, .. } => if may_claim(peer, node_id) {
                ack("hello_received"@)
            } else {
                ack("unauthorized_node_id"@)
            },
            crate::proto::MessageView::ReachabilityProbe { .. } => ack("probe_received"@),
            crate::proto::MessageView::ReachabilityReport { from, target, protocol, .. } =>
                if !may_claim(peer, from) {
                ack("unauthorized_node_id"@)
            } else if accepts(
                self.reports,
                self.node_ttl_ms,
                KeyView { from, target, protocol },
                now,
            ) {
                ack("report_received"@)
            } else {
                ack("reachability_table_full"@)
            },
            crate::proto::MessageView::FromHead { client_identity, message, .. } => if !may_relay(
                peer,
                self.relay_peers,
            ) {
                ack("unauthorized_relay_peer"@)
            } else if !(message.claim() matches Some(id) ==> may_relay_claim(
                peer,
                client_identity,
                id,
            )) {
                ack("unauthorized_node_id"@)
            } else {
                ack("head_message_received"@)
            },
            crate::proto::MessageView::GraphQuery => Some(self.snapshot(now)),
            crate::proto::MessageView::GraphSnapshot { .. } => None,
            crate::proto::MessageView::Ack { .. } => None,
            crate::proto::MessageView::TunnelOpen { .. } => None,
        }
    }
}

fn authorized(peer_identity: &Option<String>, claimed_node_id: &str) -> (r: bool)
    ensures
        r == may_claim(crate::proto::opt_text(*peer_identity), claimed_node_id@),
{
    match peer_identity {
        Some(identity) => same(identity.as_str(), claimed_node_id),
        None => true,
    }
}

fn authorized_relay_peer(peer_identity: &Option<String>, relay_peers: &Vec<String>) -> (r: bool)
    ensures
        r == may_relay(
            crate::proto::opt_text(*peer_identity),
            crate::proto::texts(relay_peers@),
        ),
{
    match peer_identity {
        Some(identity) => {
            let found: bool = contains(relay_peers, identity.as_str());
            proof {
                let list = crate::proto::texts(relay_peers@);
                if found {
                    let i = choose|i: int|
                        0 <= i < relay_peers@.len() && (#[trigger] relay_peers@[i])@ == identity@;
                    assert(list[i] == identity@);
                }
                if list.contains(identity@) {
                    let i = choose|i: int| 0 <= i < list.len() && list[i] == identity@;
                    assert(relay_peers@[i]@ == identity@);
                }
            }
            found
        },
        None => true,
    }
}

fn authorized_relayed_claim(
    peer_identity: &Option<String>,
    client_identity: &Option<String>,
    claimed_node_id: &str,
) -> (r: bool)
    ensures
        r == may_relay_claim(
            crate::proto::opt_text(*peer_identity),
            crate::proto::opt_text(*client_identity),
            claimed_node_id@,
        ),
{
    match peer_identity {
        Some(_) => match client_identity {
            Some(id) => same(id.as_str(), claimed_node_id),
            None => false,
        },
        None => true,
    }
}

/// An acknowledgement.
fn ack_message(status: &str) -> (r: Option<RadiiMessage>)
    ensures
        r matches Some(m) && Some(m@) == ack(status@),
{
    Some(RadiiMessage::Ack { status: status.to_owned() })
}

impl CrawlState {
    /// Applies a relayed message that has been authorized. Whether a report
    /// found room makes no difference to the answer.
    fn handle_wrapped_message(&mut self, message: RelayedMessage, now_unix_ms: u64)
        requires
            distinct_keys(old(self)@.reports),
        ensures
            final(self)@ == old(self)@.wrapped(message@, now_unix_ms),
            distinct_keys(final(self)@.reports),
            table_ok(old(self)@.reports) ==> table_ok(final(self)@.reports),
    {
        match message {
            RelayedMessage::NodeHello { node_id, roles, listen_addrs } => {
                self.register(
                    node_id,
                    NodeEntry { listen_addrs, roles, last_seen_unix_ms: now_unix_ms },
                );
            },
            RelayedMessage::ReachabilityProbe { .. } => {},
            RelayedMessage::ReachabilityReport {
                from,
                target,
                protocol,
                reachable,
                rtt_ms,
                observed_addr,
            } => {
                let _ = self.record_report(
                    (from, target, protocol),
                    ReachabilityEntry {
                        reachable,
                        rtt_ms,
                        observed_addr,
                        last_seen_unix_ms: now_unix_ms,
                    },
                );
            },
        }
    }

    /// Applies one message of a connection and gives the answer, if there is
    /// one. `peer_identity` is the authenticated id of the peer, or `None` on
    /// a plaintext connection.
    pub fn handle_message(
        &mut self,
        peer_identity: &Option<String>,
        message: RadiiMessage,
        now_unix_ms: u64,
    ) -> (answer: Option<RadiiMessage>)
        requires
            distinct_keys(old(self)@.reports),
        ensures
            final(self)@ == old(self)@.after(
                crate::proto::opt_text(*peer_identity),
                message@,
                now_unix_ms,
            ),
            distinct_keys(final(self)@.reports),
            table_ok(old(self)@.reports) ==> table_ok(final(self)@.reports),
            match answer {
                None => old(self)@.answer(
                    crate::proto::opt_text(*peer_identity),
                    message@,
                    now_unix_ms,
                ) is None,
                Some(m) => old(self)@.answer(
                    crate::proto::opt_text(*peer_identity),
                    message@,
                    now_unix_ms,
                ) == Some(m@),
            },
    {
        match message {
            RadiiMessage::NodeHello { node_id, roles, listen_addrs } => {
                if !authorized(peer_identity, node_id.as_str()) {
                    return ack_message("unauthorized_node_id");
                }
                self.register(
                    node_id,
                    NodeEntry { listen_addrs, roles, last_seen_unix_ms: now_unix_ms },
                );
                ack_message("hello_received")
            },
            RadiiMessage::ReachabilityProbe { .. } => ack_message("probe_received"),
            RadiiMessage::ReachabilityReport {
                from,
                target,
                protocol,
                reachable,
                rtt_ms,
                observed_addr,
            } => {
                if !authorized(peer_identity, from.as_str()) {
                    return ack_message("unauthorized_node_id");
                }
                let accepted: bool = self.record_report(
                    (from, target, protocol),
                    ReachabilityEntry {
                        reachable,
                        rtt_ms,
                        observed_addr,
                        last_seen_unix_ms: now_unix_ms,
                    },
                );
                if accepted {
                    ack_message("report_received")
                } else {
                    ack_message("reachability_table_full")
                }
            },
            RadiiMessage::FromHead { source: _, client_identity, message } => {
                if !authorized_relay_peer(peer_identity, &self.relay_peers) {
                    return ack_message("unauthorized_relay_peer");
                }
                if let Some(claimed) = message.claimed_node_id() {
                    if !authorized_relayed_claim(peer_identity, &client_identity, claimed) {
                        return ack_message("unauthorized_node_id");
                    }
                }
                self.handle_wrapped_message(message, now_unix_ms);
                ack_message("head_message_received")
            },
            RadiiMessage::GraphQuery => {
                let (nodes, reports) = graph_snapshot(self, now_unix_ms);
                Some(RadiiMessage::GraphSnapshot { nodes, reports })
            },
            RadiiMessage::GraphSnapshot { .. } => None,
            RadiiMessage::Ack { .. } => None,
            RadiiMessage::TunnelOpen { .. } => None,
        }
    }
}

// ---------------------------------------------------------------------------
// Laws
// ---------------------------------------------------------------------------

/// Without a time to live nothing expires, and a node that never said hello
/// does not expire either.
pub proof fn law_what_does_not_expire(s: CrawlView, id: Seq<char>, now: u64)
    requires
        s.node_ttl_ms is None || !s.nodes.dom().contains(id),
    ensures
        !s.expired(id, now),
{
}

/// A message that is answered as unauthorized changes nothing.
pub proof fn law_unauthorized_changes_nothing(
    s: CrawlView,
    peer: Option<Seq<char>>,
    m: crate::proto::MessageView,
    now: u64,
)
    requires
        s.answer(peer, m, now) == ack("unauthorized_node_id"@) || s.answer(peer, m, now) == ack(
            "unauthorized_relay_peer"@,
        ),
    ensures
        s.after(peer, m, now) == s,
{
    reveal_strlit("unauthorized_node_id");
    reveal_strlit("unauthorized_relay_peer");
    reveal_strlit("hello_received");
    reveal_strlit("report_received");
    reveal_strlit("reachability_table_full");
    reveal_strlit("head_message_received");
    let denied = "unauthorized_node_id"@;
    let no_relay = "unauthorized_relay_peer"@;
    assert(denied.len() == 20 && no_relay.len() == 23);
    assert("hello_received"@.len() == 14);
    assert("report_received"@.len() == 15);
    assert("head_message_received"@.len() == 21);
    assert("reachability_table_full"@.len() == 23);
    assert("reachability_table_full"@[0] != no_relay[0]);
    assert("probe_received"@.len() == 14) by {
        reveal_strlit("probe_received");
    }
}

/// Whether the message may speak for `id`: sent by `id` itself, or relayed by
/// a peer that may relay, for a client that authenticated as `id`.
pub open spec fn speaks_for(
    s: CrawlView,
    peer: Option<Seq<char>>,
    m: crate::proto::MessageView,
    id: Seq<char>,
) -> bool {
    match m {
        crate::proto::MessageView::FromHead { client_identity, .. } => may_relay(
            peer,
            s.relay_peers,
        ) && client_identity == Some(id),
        _ => peer == Some(id),
    }
}

/// On an authenticated connection, whatever is written about a node or in its
/// name was said by that node, directly or through a relay that the operator
/// named.
pub proof fn law_writes_are_authenticated(
    s: CrawlView,
    peer: Option<Seq<char>>,
    m: crate::proto::MessageView,
    now: u64,
)
    requires
        peer is Some,
        distinct_keys(s.reports),
    ensures
        forall|id: Seq<char>|
            #![trigger s.after(peer, m, now).nodes.dom().contains(id)]
            !speaks_for(s, peer, m, id) ==> {
                &&& s.after(peer, m, now).nodes.dom().contains(id) == s.nodes.dom().contains(id)
                &&& s.nodes.dom().contains(id) ==> s.after(peer, m, now).nodes[id] == s.nodes[id]
            },
        forall|r: (KeyView, ReportView)| #[trigger]
            s.after(peer, m, now).reports.contains(r) ==> s.reports.contains(r) || speaks_for(
                s,
                peer,
                m,
                r.0.from,
            ),
{
    match m {
        crate::proto::MessageView::ReachabilityReport {
            from,
            target,
            protocol,
            reachable,
            rtt_ms,
            observed_addr,
        } => {
            law_report_table(
                s.reports,
                s.node_ttl_ms,
                KeyView { from, target, protocol },
                ReportView { reachable, rtt_ms, observed_addr, last_seen_unix_ms: now },
            );
        },
        crate::proto::MessageView::FromHead { message, .. } => {
            if let crate::proto::RelayedView::ReachabilityReport {
                from,
                target,
                protocol,
                reachable,
                rtt_ms,
                observed_addr,
            } = message {
                law_report_table(
                    s.reports,
                    s.node_ttl_ms,
                    KeyView { from, target, protocol },
                    ReportView { reachable, rtt_ms, observed_addr, last_seen_unix_ms: now },
                );
            }
        },
        _ => {},
    }
}

/// Everything that is held is within the bounds of the wire.
pub open spec fn in_bounds(s: CrawlView) -> bool {
    &&& table_ok(s.reports)
    &&& forall|i: int| 0 <= i < s.ids.len() ==> s.nodes.dom().contains(#[trigger] s.ids[i])
    &&& forall|id: Seq<char>| #[trigger]
        s.nodes.dom().contains(id) ==> crate::validate::node_fault(s.node_info(id)) is None
    &&& forall|r: (KeyView, ReportView)| #[trigger]
        s.reports.contains(r) ==> crate::validate::graph_report_fault(report_info(r)) is None
}

/// A message that passed the bounds of the wire leaves everything that is held
/// within them.
pub proof fn law_bounds_are_kept(
    s: CrawlView,
    peer: Option<Seq<char>>,
    m: crate::proto::MessageView,
    now: u64,
)
    requires
        in_bounds(s),
        crate::validate::fault(m) is None,
    ensures
        in_bounds(s.after(peer, m, now)),
{
    match m {
        crate::proto::MessageView::NodeHello { node_id, roles, listen_addrs } => {
            lemma_hello_bounds(
                s,
                node_id,
                NodeEntryView { listen_addrs, roles, last_seen_unix_ms: now },
            );
        },
        crate::proto::MessageView::ReachabilityReport {
            from,
            target,
            protocol,
            reachable,
            rtt_ms,
            observed_addr,
        } => {
            lemma_report_bounds(
                s,
                KeyView { from, target, protocol },
                ReportView { reachable, rtt_ms, observed_addr, last_seen_unix_ms: now },
            );
        },
        crate::proto::MessageView::FromHead { message, .. } => {
            match message {
                crate::proto::RelayedView::NodeHello { node_id, roles, listen_addrs } => {
                    lemma_hello_bounds(
                        s,
                        node_id,
                        NodeEntryView { listen_addrs, roles, last_seen_unix_ms: now },
                    );
                },
                crate::proto::RelayedView::ReachabilityReport {
                    from,
                    target,
                    protocol,
                    reachable,
                    rtt_ms,
                    observed_addr,
                } => {
                    lemma_report_bounds(
                        s,
                        KeyView { from, target, protocol },
                        ReportView { reachable, rtt_ms, observed_addr, last_seen_unix_ms: now },
                    );
                },
                crate::proto::RelayedView::ReachabilityProbe { .. } => {},
            }
        },
        _ => {},
    }
}

proof fn lemma_hello_bounds(s: CrawlView, id: Seq<char>, entry: NodeEntryView)
    requires
        in_bounds(s),
        crate::validate::hello_fault(id, entry.roles, entry.listen_addrs) is None,
    ensures
        in_bounds(s.hello(id, entry)),
{
    let after = s.hello(id, entry);
    assert forall|i: int| 0 <= i < after.ids.len() implies after.nodes.dom().contains(
        #[trigger] after.ids[i],
    ) by {
        if i < s.ids.len() {
            assert(after.ids[i] == s.ids[i]);
        }
    }
    assert forall|k: Seq<char>| #[trigger] after.nodes.dom().contains(k) implies crate::validate::node_fault(
    after.node_info(k)) is None by {
        if k != id {
            assert(s.nodes.dom().contains(k));
            assert(after.node_info(k) == s.node_info(k));
        }
    }
}

proof fn lemma_report_bounds(s: CrawlView, key: KeyView, entry: ReportView)
    requires
        in_bounds(s),
        crate::validate::report_fault(
            key.from,
            key.target,
            key.protocol,
            entry.observed_addr,
        ) is None,
    ensures
        in_bounds(s.report(key, entry)),
{
    law_report_table(s.reports, s.node_ttl_ms, key, entry);
    let after = s.report(key, entry);
    assert forall|k: Seq<char>| #[trigger] after.nodes.dom().contains(k) implies crate::validate::node_fault(
    after.node_info(k)) is None by {
        assert(after.node_info(k) == s.node_info(k));
    }
}

/// A query is always answered: the snapshot fits a frame however much is held,
/// and what is within bounds is read back as it was sent.
#[verifier::rlimit(40)]
pub proof fn law_query_is_answerable(s: CrawlView, now: u64)
    requires
        in_bounds(s),
    ensures
        s.answer(None, crate::proto::MessageView::GraphQuery, now) == Some(s.snapshot(now)),
        crate::frame::payload_of(s.snapshot(now)).len() <= crate::proto::MAX_FRAME_LEN,
        crate::frame::received(crate::frame::payload_of(s.snapshot(now))) == Ok::<
            crate::proto::MessageView,
            crate::validate::WireError,
        >(s.snapshot(now)),
{
    lemma_snapshot_fits(s, now);
    lemma_snapshot_passes(s, now);
    crate::frame::law_read_of_write(s.snapshot(now));
}

/// A snapshot of what is within bounds passes the bounds of the wire.
proof fn lemma_snapshot_passes(s: CrawlView, now: u64)
    requires
        in_bounds(s),
    ensures
        crate::frame::verdict(s.snapshot(now)) == Ok::<
            crate::proto::MessageView,
            crate::validate::WireError,
        >(s.snapshot(now)),
{
    let nodes = s.snapshot_nodes(now);
    let reports = s.snapshot_reports(now);
    let nrule = |n: crate::proto::NodeInfoView| crate::validate::node_fault(n);
    let rrule = |r: crate::proto::GraphReportView| crate::validate::graph_report_fault(r);
    assert forall|i: int| 0 <= i < nodes.len() implies nrule(#[trigger] nodes[i]) is None by {
        let id = law_snapshot_nodes_are_live(s, now, i);
        let j = choose|j: int| 0 <= j < s.ids.len() && s.ids[j] == id;
        assert(s.nodes.dom().contains(s.ids[j]));
    }
    assert forall|i: int| 0 <= i < reports.len() implies rrule(#[trigger] reports[i]) is None by {
        let r = law_snapshot_reports_are_current(s, now, i);
        assert(s.reports.contains(r));
    }
    crate::validate::lemma_no_fault(nodes, nrule);
    crate::validate::lemma_no_fault(reports, rrule);
}

/// However much is held, the snapshot fits a frame.
proof fn lemma_snapshot_fits(s: CrawlView, now: u64)
    ensures
        crate::frame::payload_of(s.snapshot(now)).len() <= crate::proto::MAX_FRAME_LEN,
{
    let fnode = |n: crate::proto::NodeInfoView| crate::frame::node_bound(n);
    let freport = |r: crate::proto::GraphReportView| crate::frame::report_bound(r);
    law_fitting(s.live_nodes(now), fnode, SNAPSHOT_BUDGET as nat);
    law_fitting(
        s.live_reports(now),
        freport,
        (SNAPSHOT_BUDGET - crate::frame::total(s.snapshot_nodes(now), fnode)) as nat,
    );
    crate::frame::law_budget_fits_frame(s.snapshot_nodes(now), s.snapshot_reports(now));
}

/// Every node of a snapshot is registered and has not expired.
pub proof fn law_snapshot_nodes_are_live(s: CrawlView, now: u64, i: int) -> (id: Seq<char>)
    requires
        0 <= i < s.snapshot_nodes(now).len(),
    ensures
        s.snapshot_nodes(now)[i] == s.node_info(id),
        s.ids.contains(id),
        !s.expired(id, now),
{
    let fnode = |n: crate::proto::NodeInfoView| crate::frame::node_bound(n);
    law_fitting(s.live_nodes(now), fnode, SNAPSHOT_BUDGET as nat);
    let keep = |id: Seq<char>| !s.expired(id, now);
    let places = lemma_filter_places(s.ids, keep);
    let id = s.ids.filter(keep)[i];
    assert(s.snapshot_nodes(now)[i] == s.live_nodes(now)[i]);
    assert(s.ids[places[i]] == id);
    id
}

/// Every report of a snapshot is held, is not stale, and names no expired
/// node.
pub proof fn law_snapshot_reports_are_current(s: CrawlView, now: u64, i: int) -> (r: (
    KeyView,
    ReportView,
))
    requires
        0 <= i < s.snapshot_reports(now).len(),
    ensures
        s.snapshot_reports(now)[i] == report_info(r),
        s.reports.contains(r),
        s.current(r, now),
{
    let fnode = |n: crate::proto::NodeInfoView| crate::frame::node_bound(n);
    let freport = |r: crate::proto::GraphReportView| crate::frame::report_bound(r);
    law_fitting(
        s.live_reports(now),
        freport,
        (SNAPSHOT_BUDGET - crate::frame::total(s.snapshot_nodes(now), fnode)) as nat,
    );
    let keep = |r: (KeyView, ReportView)| s.current(r, now);
    let places = lemma_filter_places(s.reports, keep);
    let r = s.reports.filter(keep)[i];
    assert(s.snapshot_reports(now)[i] == s.live_reports(now)[i]);
    assert(s.reports[places[i]] == r);
    r
}

/// Every registered node has its place in the order of registration.
pub open spec fn all_listed(s: CrawlView) -> bool {
    forall|id: Seq<char>| #[trigger] s.nodes.dom().contains(id) ==> s.ids.contains(id)
}

/// What a node says of itself is read back: until it has been quiet for longer
/// than the time to live it is among the live nodes, and it is in the snapshot
/// wherever these fit.
pub proof fn law_hello_is_read_back(
    s: CrawlView,
    peer: Option<Seq<char>>,
    said: crate::proto::NodeInfoView,
    now: u64,
    later: u64,
)
    requires
        all_listed(s),
        may_claim(peer, said.node_id),
        !stale(s.node_ttl_ms, later, now),
    ensures
        ({
            let after = s.after(
                peer,
                crate::proto::MessageView::NodeHello {
                    node_id: said.node_id,
                    roles: said.roles,
                    listen_addrs: said.listen_addrs,
                },
                now,
            );
            &&& all_listed(after)
            &&& after.live_nodes(later).contains(said)
            &&& crate::frame::total(
                after.live_nodes(later),
                |n: crate::proto::NodeInfoView| crate::frame::node_bound(n),
            ) <= SNAPSHOT_BUDGET ==> after.snapshot_nodes(later).contains(said)
        }),
{
    let id = said.node_id;
    let entry = NodeEntryView {
        listen_addrs: said.listen_addrs,
        roles: said.roles,
        last_seen_unix_ms: now,
    };
    let after = s.hello(id, entry);
    assert forall|k: Seq<char>| #[trigger] after.nodes.dom().contains(k) implies after.ids.contains(
        k,
    ) by {
        if s.nodes.dom().contains(k) {
            let i = s.ids.index_of(k);
            assert(after.ids[i] == k);
        } else {
            assert(after.ids[s.ids.len() as int] == k);
        }
    }
    let keep = |k: Seq<char>| !after.expired(k, later);
    assert(after.nodes.dom().contains(id));
    let i = after.ids.index_of(id);
    broadcast use vstd::seq_lib::group_filter_ensures;

    assert(after.ids.filter(keep).contains(after.ids[i]));
    let j = after.ids.filter(keep).index_of(id);
    assert(after.live_nodes(later)[j] == said);
    law_fitting(
        after.live_nodes(later),
        |n: crate::proto::NodeInfoView| crate::frame::node_bound(n),
        SNAPSHOT_BUDGET as nat,
    );
}

/// What is reported is read back: an accepted report is among the live ones
/// until it is stale or an end of it has expired, and it is in the snapshot
/// wherever everything that is live fits.
pub proof fn law_report_is_read_back(
    s: CrawlView,
    peer: Option<Seq<char>>,
    said: crate::proto::GraphReportView,
    observed_addr: Option<Seq<char>>,
    now: u64,
    later: u64,
)
    requires
        distinct_keys(s.reports),
        may_claim(peer, said.from),
        accepts(
            s.reports,
            s.node_ttl_ms,
            KeyView { from: said.from, target: said.target, protocol: said.protocol },
            now,
        ),
        !stale(s.node_ttl_ms, later, now),
        !s.expired(said.from, later),
        !s.expired(said.target, later),
    ensures
        ({
            let after = s.after(
                peer,
                crate::proto::MessageView::ReachabilityReport {
                    from: said.from,
                    target: said.target,
                    protocol: said.protocol,
                    reachable: said.reachable,
                    rtt_ms: said.rtt_ms,
                    observed_addr,
                },
                now,
            );
            &&& after.live_reports(later).contains(said)
            &&& crate::frame::total(
                after.live_nodes(later),
                |n: crate::proto::NodeInfoView| crate::frame::node_bound(n),
            ) + crate::frame::total(
                after.live_reports(later),
                |r: crate::proto::GraphReportView| crate::frame::report_bound(r),
            ) <= SNAPSHOT_BUDGET ==> after.snapshot_reports(later).contains(said)
        }),
{
    let fnode = |n: crate::proto::NodeInfoView| crate::frame::node_bound(n);
    let freport = |r: crate::proto::GraphReportView| crate::frame::report_bound(r);
    let key = KeyView { from: said.from, target: said.target, protocol: said.protocol };
    let entry = ReportView {
        reachable: said.reachable,
        rtt_ms: said.rtt_ms,
        observed_addr,
        last_seen_unix_ms: now,
    };
    let after = s.report(key, entry);
    law_report_table(s.reports, s.node_ttl_ms, key, entry);
    let keep = |r: (KeyView, ReportView)| after.current(r, later);
    let i = after.reports.index_of((key, entry));
    broadcast use vstd::seq_lib::group_filter_ensures;

    assert(after.reports.filter(keep).contains(after.reports[i]));
    let j = after.reports.filter(keep).index_of((key, entry));
    assert(after.live_reports(later)[j] == said);
    law_fitting(after.live_nodes(later), fnode, SNAPSHOT_BUDGET as nat);
    law_fitting(
        after.live_reports(later),
        freport,
        (SNAPSHOT_BUDGET - crate::frame::total(after.snapshot_nodes(later), fnode)) as nat,
    );
}

/// A relay that the operator named writes in a client's name exactly what the
/// client would have written itself.
pub proof fn law_relayed_writes_are_direct(
    s: CrawlView,
    relay: Seq<char>,
    source: Seq<char>,
    client: Seq<char>,
    m: crate::proto::RelayedView,
    now: u64,
)
    requires
        s.relay_peers.contains(relay),
    ensures
        s.after(
            Some(relay),
            crate::proto::MessageView::FromHead {
                source,
                client_identity: Some(client),
                message: m,
            },
            now,
        ) == s.after(Some(client), m.direct(), now),
{
}

// ---------------------------------------------------------------------------
// What the registry and the table are held to
// ---------------------------------------------------------------------------

/// Something is stale exactly when a time to live is set and it was last heard
/// of longer ago than that: not at the very end of it, and not when the clock
/// went back.
pub proof fn law_when_things_are_stale(ttl: Option<u64>, now: u64, seen: u64)
    ensures
        ttl is None ==> !stale(ttl, now, seen),
        ttl matches Some(t) ==> (stale(ttl, now, seen) <==> seen + t < now),
{
}

proof fn lemma_entry_view(t: ReachabilityTable, i: int)
    requires
        0 <= i < t.entries@.len(),
    ensures
        t@.len() == t.entries@.len(),
        t@[i].0.from == (t.entries@[i].0).0@,
        t@[i].0.target == (t.entries@[i].0).1@,
        t@[i].0.protocol == (t.entries@[i].0).2@,
        t@[i].1.reachable == t.entries@[i].1.reachable,
        t@[i].1.rtt_ms == t.entries@[i].1.rtt_ms,
        t@[i].1.observed_addr == crate::proto::opt_text(t.entries@[i].1.observed_addr),
        t@[i].1.last_seen_unix_ms == t.entries@[i].1.last_seen_unix_ms,
        t@[i] == (key_view(t.entries@[i].0), t.entries@[i].1@),
{
}

proof fn lemma_says_the_same(t: ReachabilityTable, i: int, u: ReachabilityTable, j: int)
    requires
        0 <= i < t.entries@.len(),
        0 <= j < u.entries@.len(),
        t@[i] == u@[j],
    ensures
        (t.entries@[i].0).0@ == (u.entries@[j].0).0@,
        (t.entries@[i].0).1@ == (u.entries@[j].0).1@,
        (t.entries@[i].0).2@ == (u.entries@[j].0).2@,
        t.entries@[i].1.reachable == u.entries@[j].1.reachable,
        t.entries@[i].1.rtt_ms == u.entries@[j].1.rtt_ms,
        crate::proto::opt_text(t.entries@[i].1.observed_addr) == crate::proto::opt_text(
            u.entries@[j].1.observed_addr,
        ),
        t.entries@[i].1.last_seen_unix_ms == u.entries@[j].1.last_seen_unix_ms,
{
    lemma_entry_view(t, i);
    lemma_entry_view(u, j);
}

/// Recording a report keeps what others, and the same peer under other keys,
/// reported: while the table is not full every entry under another key, and
/// when it is full every such entry that is not stale.
pub proof fn law_reports_are_kept(
    before: CrawlState,
    after: CrawlState,
    key: ReachabilityKey,
    entry: ReachabilityEntry,
    i: int,
) -> (j: int)
    requires
        distinct_keys(before@.reports),
        after@ == before@.report(key_view(key), entry@),
        0 <= i < before.reachability.entries@.len(),
        ({
            let old_key = before.reachability.entries@[i].0;
            old_key.0@ != key.0@ || old_key.1@ != key.1@ || old_key.2@ != key.2@
        }),
        before.reachability.entries@.len() < 16_384 || before.node_ttl_ms is None || (
        before.node_ttl_ms matches Some(t)
            && before.reachability.entries@[i].1.last_seen_unix_ms + t >= entry.last_seen_unix_ms),
    ensures
        0 <= j < after.reachability.entries@.len(),
        ({
            let a = before.reachability.entries@[i];
            let b = after.reachability.entries@[j];
            &&& (a.0).0@ == (b.0).0@
            &&& (a.0).1@ == (b.0).1@
            &&& (a.0).2@ == (b.0).2@
            &&& a.1.reachable == b.1.reachable
            &&& a.1.rtt_ms == b.1.rtt_ms
            &&& crate::proto::opt_text(a.1.observed_addr) == crate::proto::opt_text(
                b.1.observed_addr,
            )
            &&& a.1.last_seen_unix_ms == b.1.last_seen_unix_ms
        }),
{
    let reports = before@.reports;
    let k = key_view(key);
    let e = entry@;
    let now = entry.last_seen_unix_ms;
    lemma_entry_view(before.reachability, i);
    let r = reports[i];
    assert(r.0 != k);
    let next = after@.reports;
    let room = with_room(reports, before@.node_ttl_ms, now);
    assert(next.contains(r)) by {
        if held(reports, k) {
            let w = choose|w: int| held_at(reports, k, w);
            assert(held_at(reports, k, w));
            assert(next[i] == r);
        } else {
            let keep = |r: (KeyView, ReportView)|
                !stale(before@.node_ttl_ms, now, r.1.last_seen_unix_ms);
            assert(room.contains(r)) by {
                if reports.len() >= MAX_REACHABILITY_ENTRIES {
                    broadcast use vstd::seq_lib::group_filter_ensures;

                    assert(keep(reports[i]));
                    assert(reports.filter(keep).contains(reports[i]));
                } else {
                    assert(room[i] == r);
                }
            }
            let p = room.index_of(r);
            assert(next[p] == r);
        }
    }
    let j = next.index_of(r);
    assert(after.reachability@.len() == after.reachability.entries@.len());
    lemma_says_the_same(before.reachability, i, after.reachability, j);
    j
}

/// What the table holds after a report is what it held, or the report, where it
/// was let in: nothing else gets in, and no key is there twice.
pub proof fn law_nothing_but_the_report_gets_in(
    before: CrawlState,
    after: CrawlState,
    key: ReachabilityKey,
    entry: ReachabilityEntry,
    accepted: bool,
    j: int,
) -> (i: int)
    requires
        distinct_keys(before@.reports),
        after@ == before@.report(key_view(key), entry@),
        accepted == accepts(
            before@.reports,
            before@.node_ttl_ms,
            key_view(key),
            entry.last_seen_unix_ms,
        ),
        0 <= j < after.reachability.entries@.len(),
    ensures
        ({
            let b = after.reachability.entries@[j];
            ||| {
                &&& accepted
                &&& (b.0).0@ == key.0@
                &&& (b.0).1@ == key.1@
                &&& (b.0).2@ == key.2@
                &&& b.1.reachable == entry.reachable
                &&& b.1.rtt_ms == entry.rtt_ms
                &&& crate::proto::opt_text(b.1.observed_addr) == crate::proto::opt_text(
                    entry.observed_addr,
                )
                &&& b.1.last_seen_unix_ms == entry.last_seen_unix_ms
            }
            ||| {
                let a = before.reachability.entries@[i];
                &&& 0 <= i < before.reachability.entries@.len()
                &&& (a.0).0@ == (b.0).0@
                &&& (a.0).1@ == (b.0).1@
                &&& (a.0).2@ == (b.0).2@
                &&& a.1.reachable == b.1.reachable
                &&& a.1.rtt_ms == b.1.rtt_ms
                &&& crate::proto::opt_text(a.1.observed_addr) == crate::proto::opt_text(
                    b.1.observed_addr,
                )
                &&& a.1.last_seen_unix_ms == b.1.last_seen_unix_ms
            }
        }),
        forall|k: int|
            0 <= k < j ==> {
                let a = #[trigger] after.reachability.entries@[k];
                let b = after.reachability.entries@[j];
                (a.0).0@ != (b.0).0@ || (a.0).1@ != (b.0).1@ || (a.0).2@ != (b.0).2@
            },
{
    let reports = before@.reports;
    let next = after@.reports;
    let k = key_view(key);
    let e = entry@;
    law_report_table(reports, before@.node_ttl_ms, k, e);
    assert(next.len() == after.reachability.entries@.len());
    assert(reports.len() == before.reachability.entries@.len());
    lemma_entry_view(after.reachability, j);
    assert(next.contains(next[j]));
    assert forall|h: int| 0 <= h < j implies {
        let a = #[trigger] after.reachability.entries@[h];
        let b = after.reachability.entries@[j];
        (a.0).0@ != (b.0).0@ || (a.0).1@ != (b.0).1@ || (a.0).2@ != (b.0).2@
    } by {
        lemma_entry_view(after.reachability, h);
        assert(next[h].0 != next[j].0);
    }
    if next[j] == (k, e) {
        if !accepted {
            lemma_refused_is_not_held(reports, before@.node_ttl_ms, k, e, j);
        }
        0
    } else {
        let i = reports.index_of(next[j]);
        lemma_says_the_same(before.reachability, i, after.reachability, j);
        i
    }
}

/// Under the key of an accepted report stands that report, and a report changes
/// nothing but the table: no node, no time to live and no relay.
pub proof fn law_an_accepted_report_is_held(
    before: CrawlState,
    after: CrawlState,
    key: ReachabilityKey,
    entry: ReachabilityEntry,
    accepted: bool,
) -> (j: int)
    requires
        distinct_keys(before@.reports),
        after@ == before@.report(key_view(key), entry@),
        accepted == accepts(
            before@.reports,
            before@.node_ttl_ms,
            key_view(key),
            entry.last_seen_unix_ms,
        ),
    ensures
        accepted ==> {
            let b = after.reachability.entries@[j];
            &&& 0 <= j < after.reachability.entries@.len()
            &&& (b.0).0@ == key.0@
            &&& (b.0).1@ == key.1@
            &&& (b.0).2@ == key.2@
            &&& b.1.reachable == entry.reachable
            &&& b.1.rtt_ms == entry.rtt_ms
            &&& crate::proto::opt_text(b.1.observed_addr) == crate::proto::opt_text(
                entry.observed_addr,
            )
            &&& b.1.last_seen_unix_ms == entry.last_seen_unix_ms
        },
        before.reachability.entries@.len() < 16_384 ==> after.reachability.entries@.len()
            >= before.reachability.entries@.len(),
        after.nodes@.map_values(|n: NodeEntry| n@) == before.nodes@.map_values(
            |n: NodeEntry| n@,
        ),
        after.nodes.keys() == before.nodes.keys(),
        after.node_ttl_ms == before.node_ttl_ms,
        crate::proto::texts(after.relay_peers@) == crate::proto::texts(before.relay_peers@),
{
    let next = after@.reports;
    law_report_table(before@.reports, before@.node_ttl_ms, key_view(key), entry@);
    assert(next.len() == after.reachability.entries@.len());
    assert(before@.reports.len() == before.reachability.entries@.len());
    if accepted {
        let j = next.index_of((key_view(key), entry@));
        lemma_entry_view(after.reachability, j);
        j
    } else {
        0
    }
}

proof fn lemma_refused_is_not_held(
    reports: Seq<(KeyView, ReportView)>,
    ttl: Option<u64>,
    key: KeyView,
    entry: ReportView,
    j: int,
)
    requires
        !accepts(reports, ttl, key, entry.last_seen_unix_ms),
        0 <= j < recorded(reports, ttl, key, entry).len(),
    ensures
        recorded(reports, ttl, key, entry)[j].0 != key,
{
    let now = entry.last_seen_unix_ms;
    let room = with_room(reports, ttl, now);
    let keep = |r: (KeyView, ReportView)| !stale(ttl, now, r.1.last_seen_unix_ms);
    let places = lemma_filter_places(reports, keep);
    if reports.len() >= MAX_REACHABILITY_ENTRIES {
        assert(reports[places[j]] == room[j]);
        assert(!held_at(reports, key, places[j]));
    } else {
        assert(!held_at(reports, key, j));
    }
}

/// A report about a key that is held is always let in. While the table is not
/// full, a new one is let in exactly when its peer holds fewer than 1,024; in
/// a full one whatever is stale does not count.
pub proof fn law_who_is_let_in(before: CrawlState, key: ReachabilityKey, now: u64, accepted: bool)
    requires
        accepted == accepts(before@.reports, before@.node_ttl_ms, key_view(key), now),
    ensures
        ({
            let entries = before.reachability.entries@;
            let known = exists|i: int|
                0 <= i < entries.len() && ((#[trigger] entries[i]).0).0@ == key.0@
                    && (entries[i].0).1@ == key.1@ && (entries[i].0).2@ == key.2@;
            let live = |e: (ReachabilityKey, ReachabilityEntry)|
                entries.len() < 16_384 || !(before.node_ttl_ms matches Some(t)
                    && e.1.last_seen_unix_ms + t < now);
            let own = |e: (ReachabilityKey, ReachabilityEntry)| (e.0).0@ == key.0@;
            accepted <==> known || (entries.filter(live).len() < 16_384 && entries.filter(
                live,
            ).filter(own).len() < 1_024)
        }),
{
    let entries = before.reachability.entries@;
    let reports = before@.reports;
    let k = key_view(key);
    let ttl = before@.node_ttl_ms;
    let known = exists|i: int|
        0 <= i < entries.len() && ((#[trigger] entries[i]).0).0@ == key.0@ && (entries[i].0).1@
            == key.1@ && (entries[i].0).2@ == key.2@;
    if known {
        let i = choose|i: int|
            0 <= i < entries.len() && ((#[trigger] entries[i]).0).0@ == key.0@ && (entries[i].0).1@
                == key.1@ && (entries[i].0).2@ == key.2@;
        lemma_entry_view(before.reachability, i);
        assert(held_at(reports, k, i));
    }
    if held(reports, k) {
        let i = choose|i: int| held_at(reports, k, i);
        lemma_entry_view(before.reachability, i);
        assert((entries[i].0).0@ == key.0@ && (entries[i].0).1@ == key.1@ && (entries[i].0).2@
            == key.2@);
    }
    let live = |e: (ReachabilityKey, ReachabilityEntry)|
        entries.len() < 16_384 || !(before.node_ttl_ms matches Some(t) && e.1.last_seen_unix_ms + t
            < now);
    let own = |e: (ReachabilityKey, ReachabilityEntry)| (e.0).0@ == key.0@;
    let view = |e: (ReachabilityKey, ReachabilityEntry)| (key_view(e.0), e.1@);
    let from = k.from;
    let mine = |r: (KeyView, ReportView)| r.0.from == from;
    assert(reports == entries.map_values(view));
    assert(with_room(reports, ttl, now) == entries.filter(live).map_values(view)) by {
        if entries.len() < 16_384 {
            lemma_filter_all(entries, live);
        } else {
            let keep = |r: (KeyView, ReportView)| !stale(ttl, now, r.1.last_seen_unix_ms);
            lemma_filter_views(entries, view, live, keep);
        }
    }
    let room = entries.filter(live);
    assert(made_by(room.map_values(view), k.from) == room.filter(own).map_values(view)) by {
        lemma_filter_views(room, view, own, mine);
    }
}

proof fn lemma_filter_all<T>(s: Seq<T>, p: spec_fn(T) -> bool)
    requires
        forall|i: int| 0 <= i < s.len() ==> p(#[trigger] s[i]),
    ensures
        s.filter(p) == s,
    decreases s.len(),
{
    reveal(Seq::filter);
    if s.len() > 0 {
        let init = s.drop_last();
        assert forall|i: int| 0 <= i < init.len() implies p(#[trigger] init[i]) by {
            assert(init[i] == s[i]);
        }
        lemma_filter_all(init, p);
        assert(p(s[s.len() - 1]));
        assert(s.filter(p) =~= init.push(s.last()));
        assert(init.push(s.last()) =~= s);
    } else {
        assert(s.filter(p) =~= s);
    }
}

/// Filtering the views is viewing what was filtered.
proof fn lemma_filter_views<A, B>(
    s: Seq<A>,
    view: spec_fn(A) -> B,
    p: spec_fn(A) -> bool,
    q: spec_fn(B) -> bool,
)
    requires
        forall|i: int| 0 <= i < s.len() ==> p(#[trigger] s[i]) == q(view(s[i])),
    ensures
        s.map_values(view).filter(q) == s.filter(p).map_values(view),
    decreases s.len(),
{
    reveal(Seq::filter);
    let views = s.map_values(view);
    if s.len() > 0 {
        let init = s.drop_last();
        assert forall|i: int| 0 <= i < init.len() implies p(#[trigger] init[i]) == q(
            view(init[i]),
        ) by {
            assert(init[i] == s[i]);
        }
        lemma_filter_views(init, view, p, q);
        assert(views.drop_last() =~= init.map_values(view));
        assert(views.last() == view(s.last()));
        assert(p(s[s.len() - 1]) == q(view(s.last())));
        if p(s.last()) {
            assert(s.filter(p) =~= init.filter(p).push(s.last()));
            assert(s.filter(p).map_values(view) =~= init.filter(p).map_values(view).push(
                view(s.last()),
            ));
            assert(views.filter(q) =~= init.map_values(view).filter(q).push(views.last()));
        } else {
            assert(s.filter(p) =~= init.filter(p));
            assert(views.filter(q) =~= init.map_values(view).filter(q));
        }
    } else {
        assert(views.filter(q) =~= s.filter(p).map_values(view));
    }
}

/// A node that says hello for itself, or over a connection that proves no
/// identity, is registered with the roles and the listeners that it named and
/// with the time of the message. Every other node, and every report, stays as
/// it was. A hello in another's name changes nothing.
pub proof fn law_a_hello_registers_its_node(
    before: CrawlState,
    after: CrawlState,
    peer: Option<String>,
    node_id: String,
    roles: Vec<String>,
    listen_addrs: Vec<ListenAddr>,
    now: u64,
)
    requires
        after@ == before@.after(
            crate::proto::opt_text(peer),
            (RadiiMessage::NodeHello { node_id, roles, listen_addrs })@,
            now,
        ),
    ensures
        ({
            let own = peer is None || (peer matches Some(p) && p@ == node_id@);
            &&& own ==> {
                &&& after.nodes@.dom().contains(node_id@)
                &&& after.nodes@[node_id@].last_seen_unix_ms == now
                &&& after.nodes@[node_id@].roles@.len() == roles@.len()
                &&& after.nodes@[node_id@].listen_addrs@.len() == listen_addrs@.len()
                &&& forall|i: int|
                    0 <= i < roles@.len() ==> (#[trigger] after.nodes@[node_id@].roles@[i])@
                        == roles@[i]@
                &&& forall|i: int|
                    0 <= i < listen_addrs@.len() ==> {
                        &&& (#[trigger] after.nodes@[node_id@].listen_addrs@[i]).addr@
                            == listen_addrs@[i].addr@
                        &&& after.nodes@[node_id@].listen_addrs@[i].role@ == listen_addrs@[i].role@
                    }
            }
            &&& forall|id: Seq<char>|
                #![trigger after.nodes@.dom().contains(id)]
                !(own && id == node_id@) ==> {
                    &&& after.nodes@.dom().contains(id) == before.nodes@.dom().contains(id)
                    &&& before.nodes@.dom().contains(id) ==> after.nodes@[id]@
                        == before.nodes@[id]@
                }
            &&& after@.reports == before@.reports
        }),
{
    let own = peer is None || (peer matches Some(p) && p@ == node_id@);
    let old_nodes = before.nodes@.map_values(|e: NodeEntry| e@);
    let new_nodes = after.nodes@.map_values(|e: NodeEntry| e@);
    assert(before@.nodes == old_nodes && after@.nodes == new_nodes);
    assert forall|id: Seq<char>| after.nodes@.dom().contains(id) == new_nodes.dom().contains(
        id,
    ) by {}
    if own {
        assert(new_nodes.dom().contains(node_id@));
        let got = after.nodes@[node_id@];
        assert(new_nodes[node_id@] == got@);
        let want = NodeEntryView {
            listen_addrs: crate::proto::listen_views(listen_addrs@),
            roles: crate::proto::texts(roles@),
            last_seen_unix_ms: now,
        };
        assert(got@ == want);
        assert(crate::proto::texts(got.roles@) == crate::proto::texts(roles@));
        assert(crate::proto::texts(got.roles@).len() == got.roles@.len());
        assert(crate::proto::texts(roles@).len() == roles@.len());
        assert forall|i: int| 0 <= i < roles@.len() implies (#[trigger] got.roles@[i])@
            == roles@[i]@ by {
            assert(crate::proto::texts(got.roles@)[i] == got.roles@[i]@);
            assert(crate::proto::texts(roles@)[i] == roles@[i]@);
        }
        let a = crate::proto::listen_views(got.listen_addrs@);
        let b = crate::proto::listen_views(listen_addrs@);
        assert(a == b);
        assert(a.len() == got.listen_addrs@.len() && b.len() == listen_addrs@.len());
        assert forall|i: int| 0 <= i < listen_addrs@.len() implies {
            &&& (#[trigger] got.listen_addrs@[i]).addr@ == listen_addrs@[i].addr@
            &&& got.listen_addrs@[i].role@ == listen_addrs@[i].role@
        } by {
            assert(a[i] == got.listen_addrs@[i]@ && b[i] == listen_addrs@[i]@);
        }
    }
    assert forall|id: Seq<char>|
        #![trigger after.nodes@.dom().contains(id)]
        !(own && id == node_id@) implies {
        &&& after.nodes@.dom().contains(id) == before.nodes@.dom().contains(id)
        &&& before.nodes@.dom().contains(id) ==> after.nodes@[id]@ == before.nodes@[id]@
    } by {
        assert(new_nodes.dom().contains(id) == old_nodes.dom().contains(id));
        if old_nodes.dom().contains(id) {
            assert(new_nodes[id] == old_nodes[id]);
            assert(new_nodes[id] == after.nodes@[id]@ && old_nodes[id] == before.nodes@[id]@);
        }
    }
}

/// Which message changes the state, and how it is answered: a hello and a
/// report where they are sent in the sender's own name; a relayed one where
/// the peer may relay and its client authenticated as the node that is spoken
/// for; on a connection without an identity, all of them. Nothing else does.
pub proof fn law_who_may_write(
    s: CrawlView,
    peer: Option<Seq<char>>,
    m: crate::proto::MessageView,
    now: u64,
)
    ensures
        m matches crate::proto::MessageView::NodeHello { node_id, .. } ==> {
            let own = peer is None || peer == Some(node_id);
            &&& !own ==> s.after(peer, m, now) == s && s.answer(peer, m, now) == Some(
                crate::proto::MessageView::Ack { status: "unauthorized_node_id"@ },
            )
            &&& own ==> s.answer(peer, m, now) == Some(
                crate::proto::MessageView::Ack { status: "hello_received"@ },
            )
        },
        m matches crate::proto::MessageView::ReachabilityReport {
            from,
            target,
            protocol,
            reachable,
            rtt_ms,
            observed_addr,
        } ==> {
            let own = peer is None || peer == Some(from);
            let key = KeyView { from, target, protocol };
            &&& !own ==> s.after(peer, m, now) == s && s.answer(peer, m, now) == Some(
                crate::proto::MessageView::Ack { status: "unauthorized_node_id"@ },
            )
            &&& own ==> s.after(peer, m, now) == s.report(
                key,
                ReportView { reachable, rtt_ms, observed_addr, last_seen_unix_ms: now },
            )
            &&& own && accepts(s.reports, s.node_ttl_ms, key, now) ==> s.answer(peer, m, now)
                == Some(crate::proto::MessageView::Ack { status: "report_received"@ })
            &&& own && !accepts(s.reports, s.node_ttl_ms, key, now) ==> s.answer(peer, m, now)
                == Some(crate::proto::MessageView::Ack { status: "reachability_table_full"@ })
        },
        m matches crate::proto::MessageView::FromHead { client_identity, message, .. } ==> {
            let relays = peer is None || (peer matches Some(p) && exists|i: int|
                0 <= i < s.relay_peers.len() && #[trigger] s.relay_peers[i] == p);
            let proven = peer is None || match message {
                crate::proto::RelayedView::NodeHello { node_id, .. } => client_identity == Some(
                    node_id,
                ),
                crate::proto::RelayedView::ReachabilityReport { from, .. } => client_identity
                    == Some(from),
                crate::proto::RelayedView::ReachabilityProbe { .. } => true,
            };
            &&& !relays ==> s.after(peer, m, now) == s && s.answer(peer, m, now) == Some(
                crate::proto::MessageView::Ack { status: "unauthorized_relay_peer"@ },
            )
            &&& relays && !proven ==> s.after(peer, m, now) == s && s.answer(peer, m, now) == Some(
                crate::proto::MessageView::Ack { status: "unauthorized_node_id"@ },
            )
            &&& relays && proven ==> s.answer(peer, m, now) == Some(
                crate::proto::MessageView::Ack { status: "head_message_received"@ },
            )
            &&& relays && proven ==> s.after(peer, m, now) == match message {
                crate::proto::RelayedView::NodeHello { node_id, roles, listen_addrs } => s.after(
                    None,
                    crate::proto::MessageView::NodeHello { node_id, roles, listen_addrs },
                    now,
                ),
                crate::proto::RelayedView::ReachabilityReport {
                    from,
                    target,
                    protocol,
                    reachable,
                    rtt_ms,
                    observed_addr,
                } => s.after(
                    None,
                    crate::proto::MessageView::ReachabilityReport {
                        from,
                        target,
                        protocol,
                        reachable,
                        rtt_ms,
                        observed_addr,
                    },
                    now,
                ),
                crate::proto::RelayedView::ReachabilityProbe { .. } => s,
            }
        },
        m is ReachabilityProbe ==> s.answer(peer, m, now) == Some(
            crate::proto::MessageView::Ack { status: "probe_received"@ },
        ),
        m is GraphSnapshot || m is Ack || m is TunnelOpen ==> s.answer(peer, m, now) is None,
        !(m is NodeHello || m is ReachabilityReport || m is FromHead) ==> s.after(peer, m, now)
            == s,
{
    if let crate::proto::MessageView::FromHead { .. } = m {
        if let Some(p) = peer {
            if s.relay_peers.contains(p) {
                let i = s.relay_peers.index_of(p);
                assert(s.relay_peers[i] == p);
            }
        }
    }
}

proof fn lemma_is_live(state: CrawlState, id: Seq<char>, now: u64)
    ensures
        state@.nodes.dom().contains(id) == state.nodes@.dom().contains(id),
        state.nodes@.dom().contains(id) ==> state@.nodes[id] == state.nodes@[id]@,
        state@.expired(id, now) <==> state.nodes@.dom().contains(id) && (state.node_ttl_ms matches Some(
            t,
        ) && state.nodes@[id].last_seen_unix_ms + t < now),
{
    assert(state@.nodes == state.nodes@.map_values(|e: NodeEntry| e@));
}

/// A snapshot that is not cut short shows every node that was heard of in time,
/// with its listeners and roles, and no other; each once.
pub proof fn law_a_snapshot_shows_every_live_node(
    state: CrawlState,
    nodes: Seq<NodeInfo>,
    now: u64,
)
    requires
        node_views(nodes) == state@.snapshot_nodes(now),
        state.nodes.consistent(),
        crate::frame::total(
            state@.live_nodes(now),
            |n: crate::proto::NodeInfoView| crate::frame::node_bound(n),
        ) <= 1_047_552,
    ensures
        forall|id: Seq<char>|
            #![trigger state.nodes@.dom().contains(id)]
            state.nodes@.dom().contains(id) && (state.node_ttl_ms matches Some(t)
                ==> state.nodes@[id].last_seen_unix_ms + t >= now) ==> exists|i: int|
                0 <= i < nodes.len() && (#[trigger] nodes[i]).node_id@ == id,
        forall|i: int|
            0 <= i < nodes.len() ==> {
                let id = (#[trigger] nodes[i]).node_id@;
                &&& state.nodes@.dom().contains(id)
                &&& state.node_ttl_ms matches Some(t) ==> state.nodes@[id].last_seen_unix_ms + t
                    >= now
                &&& crate::proto::listen_views(nodes[i].listen_addrs@)
                    == crate::proto::listen_views(state.nodes@[id].listen_addrs@)
                &&& crate::proto::texts(nodes[i].roles@) == crate::proto::texts(
                    state.nodes@[id].roles@,
                )
            },
        forall|i: int, j: int|
            0 <= i < j < nodes.len() ==> (#[trigger] nodes[i]).node_id@ != (
            #[trigger] nodes[j]).node_id@,
{
    let s = state@;
    let fnode = |n: crate::proto::NodeInfoView| crate::frame::node_bound(n);
    let live = s.live_nodes(now);
    law_fitting(live, fnode, SNAPSHOT_BUDGET as nat);
    let views = node_views(nodes);
    assert(views == live);
    assert(views.len() == nodes.len());
    let keep = |id: Seq<char>| !s.expired(id, now);
    let kept = s.ids.filter(keep);
    let places = lemma_filter_places(s.ids, keep);
    assert(live.len() == kept.len());
    assert forall|i: int| 0 <= i < nodes.len() implies {
        let id = (#[trigger] nodes[i]).node_id@;
        &&& state.nodes@.dom().contains(id)
        &&& state.node_ttl_ms matches Some(t) ==> state.nodes@[id].last_seen_unix_ms + t >= now
        &&& crate::proto::listen_views(nodes[i].listen_addrs@) == crate::proto::listen_views(
            state.nodes@[id].listen_addrs@,
        )
        &&& crate::proto::texts(nodes[i].roles@) == crate::proto::texts(state.nodes@[id].roles@)
    } by {
        assert(views[i] == nodes[i]@);
        assert(live[i] == s.node_info(kept[i]));
        assert(s.ids[places[i]] == kept[i]);
        assert(state.nodes@.dom().contains(state.nodes.keys()[places[i]]));
        lemma_is_live(state, kept[i], now);
    }
    assert forall|id: Seq<char>|
        #![trigger state.nodes@.dom().contains(id)]
        state.nodes@.dom().contains(id) && (state.node_ttl_ms matches Some(t)
            ==> state.nodes@[id].last_seen_unix_ms + t >= now) implies exists|i: int|
        0 <= i < nodes.len() && (#[trigger] nodes[i]).node_id@ == id by {
        lemma_is_live(state, id, now);
        assert(state.nodes.keys().contains(id));
        let p = s.ids.index_of(id);
        broadcast use vstd::seq_lib::group_filter_ensures;

        assert(keep(s.ids[p]));
        assert(kept.contains(s.ids[p]));
        let i = kept.index_of(id);
        assert(live[i] == s.node_info(id));
        assert(views[i] == nodes[i]@);
        assert(nodes[i].node_id@ == id);
    }
    assert forall|i: int, j: int| 0 <= i < j < nodes.len() implies (#[trigger] nodes[i]).node_id@
        != (#[trigger] nodes[j]).node_id@ by {
        assert(views[i] == nodes[i]@ && views[j] == nodes[j]@);
        assert(live[i] == s.node_info(kept[i]) && live[j] == s.node_info(kept[j]));
        assert(places[i] < places[j]);
        assert(s.ids[places[i]] != s.ids[places[j]]);
    }
}

/// A snapshot that is not cut short shows a report exactly when it was made in
/// time and neither end is a registered node that has gone quiet. Entry `k` of
/// the table is line `at.0` of such a snapshot, field by field, and line `i` is
/// entry `at.1`.
pub proof fn law_a_snapshot_shows_every_live_report(
    state: CrawlState,
    reports: Seq<GraphReport>,
    now: u64,
    k: int,
    i: int,
) -> (at: (int, int))
    requires
        report_views(reports) == state@.snapshot_reports(now),
        crate::frame::total(
            state@.live_nodes(now),
            |n: crate::proto::NodeInfoView| crate::frame::node_bound(n),
        ) + crate::frame::total(
            state@.live_reports(now),
            |r: crate::proto::GraphReportView| crate::frame::report_bound(r),
        ) <= 1_047_552,
    ensures
        ({
            let entries = state.reachability.entries@;
            let nodes = state.nodes@;
            let ttl = state.node_ttl_ms;
            let e = entries[k];
            let in_time = ttl matches Some(t) ==> {
                &&& e.1.last_seen_unix_ms + t >= now
                &&& nodes.dom().contains((e.0).0@) ==> nodes[(e.0).0@].last_seen_unix_ms + t >= now
                &&& nodes.dom().contains((e.0).1@) ==> nodes[(e.0).1@].last_seen_unix_ms + t >= now
            };
            0 <= k < entries.len() && in_time ==> {
                &&& 0 <= at.0 < reports.len()
                &&& reports[at.0].from@ == (e.0).0@
                &&& reports[at.0].target@ == (e.0).1@
                &&& reports[at.0].protocol@ == (e.0).2@
                &&& reports[at.0].reachable == e.1.reachable
                &&& reports[at.0].rtt_ms == e.1.rtt_ms
            }
        }),
        0 <= i < reports.len() ==> {
            let entries = state.reachability.entries@;
            let nodes = state.nodes@;
            let e = entries[at.1];
            &&& 0 <= at.1 < entries.len()
            &&& reports[i].from@ == (e.0).0@
            &&& reports[i].target@ == (e.0).1@
            &&& reports[i].protocol@ == (e.0).2@
            &&& reports[i].reachable == e.1.reachable
            &&& reports[i].rtt_ms == e.1.rtt_ms
            &&& state.node_ttl_ms matches Some(t) ==> {
                &&& e.1.last_seen_unix_ms + t >= now
                &&& nodes.dom().contains((e.0).0@) ==> nodes[(e.0).0@].last_seen_unix_ms + t >= now
                &&& nodes.dom().contains((e.0).1@) ==> nodes[(e.0).1@].last_seen_unix_ms + t >= now
            }
        },
        reports.len() <= state.reachability.entries@.len(),
{
    let s = state@;
    let entries = state.reachability.entries@;
    let fnode = |n: crate::proto::NodeInfoView| crate::frame::node_bound(n);
    let freport = |r: crate::proto::GraphReportView| crate::frame::report_bound(r);
    let live = s.live_reports(now);
    law_fitting(s.live_nodes(now), fnode, SNAPSHOT_BUDGET as nat);
    law_fitting(
        live,
        freport,
        (SNAPSHOT_BUDGET - crate::frame::total(s.snapshot_nodes(now), fnode)) as nat,
    );
    let views = report_views(reports);
    assert(views == live);
    assert(views.len() == reports.len());
    let keep = |r: (KeyView, ReportView)| s.current(r, now);
    let kept = s.reports.filter(keep);
    let places = lemma_filter_places(s.reports, keep);
    assert(live.len() == kept.len());
    lemma_filter_sub(s.reports, keep, keep);
    assert(s.reports.len() == entries.len());
    let a = if 0 <= k < entries.len() && s.current(s.reports[k], now) {
        broadcast use vstd::seq_lib::group_filter_ensures;

        assert(keep(s.reports[k]));
        assert(kept.contains(s.reports[k]));
        let a = kept.index_of(s.reports[k]);
        assert(live[a] == report_info(s.reports[k]));
        assert(views[a] == reports[a]@);
        a
    } else {
        0
    };
    if 0 <= k < entries.len() {
        lemma_entry_view(state.reachability, k);
        lemma_is_live(state, s.reports[k].0.from, now);
        lemma_is_live(state, s.reports[k].0.target, now);
    }
    let b = if 0 <= i < reports.len() {
        let b = places[i];
        lemma_entry_view(state.reachability, b);
        lemma_is_live(state, s.reports[b].0.from, now);
        lemma_is_live(state, s.reports[b].0.target, now);
        assert(s.reports[b] == kept[i]);
        assert(live[i] == report_info(kept[i]));
        assert(views[i] == reports[i]@);
        b
    } else {
        0
    };
    (a, b)
}

/// The reports of two peers stand side by side: after one of them was recorded
/// and then another under a different key, while there was room, the table
/// holds both.
pub proof fn law_both_reports_are_held(
    start: CrawlState,
    middle: CrawlState,
    end: CrawlState,
    first: ReachabilityKey,
    first_entry: ReachabilityEntry,
    second: ReachabilityKey,
    second_entry: ReachabilityEntry,
) -> (at: (int, int))
    requires
        distinct_keys(start@.reports),
        middle@ == start@.report(key_view(first), first_entry@),
        end@ == middle@.report(key_view(second), second_entry@),
        accepts(
            start@.reports,
            start@.node_ttl_ms,
            key_view(first),
            first_entry.last_seen_unix_ms,
        ),
        accepts(
            middle@.reports,
            middle@.node_ttl_ms,
            key_view(second),
            second_entry.last_seen_unix_ms,
        ),
        middle.reachability.entries@.len() < 16_384,
        first.0@ != second.0@ || first.1@ != second.1@ || first.2@ != second.2@,
    ensures
        0 <= at.0 < end.reachability.entries@.len(),
        0 <= at.1 < end.reachability.entries@.len(),
        ({
            let a = end.reachability.entries@[at.0];
            let b = end.reachability.entries@[at.1];
            &&& (a.0).0@ == first.0@ && (a.0).1@ == first.1@ && (a.0).2@ == first.2@
            &&& a.1.reachable == first_entry.reachable && a.1.rtt_ms == first_entry.rtt_ms
            &&& a.1.last_seen_unix_ms == first_entry.last_seen_unix_ms
            &&& (b.0).0@ == second.0@ && (b.0).1@ == second.1@ && (b.0).2@ == second.2@
            &&& b.1.reachable == second_entry.reachable && b.1.rtt_ms == second_entry.rtt_ms
            &&& b.1.last_seen_unix_ms == second_entry.last_seen_unix_ms
        }),
{
    let i = law_an_accepted_report_is_held(start, middle, first, first_entry, true);
    law_report_table(
        start@.reports,
        start@.node_ttl_ms,
        key_view(first),
        first_entry@,
    );
    let a = law_reports_are_kept(middle, end, second, second_entry, i);
    let b = law_an_accepted_report_is_held(middle, end, second, second_entry, true);
    (a, b)
}

/// A list is cut no earlier than its budget asks: what is left out begins with
/// an item that does not fit.
pub proof fn law_a_cut_is_needed<T>(list: Seq<T>, f: spec_fn(T) -> nat, budget: nat)
    ensures
        fitting(list, f, budget).len() <= list.len(),
        fitting(list, f, budget).len() < list.len() ==> crate::frame::total(
            fitting(list, f, budget),
            f,
        ) + f(list[fitting(list, f, budget).len() as int]) > budget,
    decreases list.len(),
{
    let got = fitting(list, f, budget);
    if list.len() > 0 {
        if f(list[0]) > budget {
            assert(crate::frame::total(got, f) == 0);
        } else {
            let rest = list.drop_first();
            let left = (budget - f(list[0])) as nat;
            law_a_cut_is_needed(rest, f, left);
            let more = fitting(rest, f, left);
            assert(got.drop_first() =~= more);
            lemma_total_front(got, f);
        }
    }
}

} // verus!
