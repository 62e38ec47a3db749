//! The relay: which chains it carries, and what it tells its neighbours.

use crate::fetch_config::RelayConfig;
use crate::proto::{RadiiMessage, RouteHop};
use crate::table::Table;
use crate::text::{contains, same};
use vstd::prelude::*;

verus! {

// ---------------------------------------------------------------------------
// The vocabulary
// ---------------------------------------------------------------------------

/// The statuses that a relay says or passes on. The vocabulary is closed: a
/// neighbour's own words never travel further.
#[derive(Debug, Clone, Copy, PartialEq, Eq)]
pub enum TunnelStatus {
    Ready,
    Misaddressed,
    TooLong,
    PathLoops,
    HopUnreachable,
    ForwardingUnavailable,
    ExpectedTunnelOpen,
    Forbidden,
    Busy,
    /// Stands for everything outside the vocabulary.
    Unrecognised,
}

impl TunnelStatus {
    /// The status on the wire.
    pub open spec fn text(self) -> Seq<char> {
        match self {
            TunnelStatus::Ready => "tunnel_ready"@,
            TunnelStatus::Misaddressed => "tunnel_misaddressed"@,
            TunnelStatus::TooLong => "tunnel_too_long"@,
            TunnelStatus::PathLoops => "tunnel_path_loops"@,
            TunnelStatus::HopUnreachable => "tunnel_hop_unreachable"@,
            TunnelStatus::ForwardingUnavailable => "relay_forwarding_unavailable"@,
            TunnelStatus::ExpectedTunnelOpen => "expected_tunnel_open"@,
            TunnelStatus::Forbidden => "relay_forbidden"@,
            TunnelStatus::Busy => "relay_busy"@,
            TunnelStatus::Unrecognised => "relay_downstream_status_unrecognised"@,
        }
    }

    /// The status on the wire.
    pub fn as_str(&self) -> (r: &'static str)
        ensures
            r@ == self.text(),
    {
        match *self {
            TunnelStatus::Ready => "tunnel_ready",
            TunnelStatus::Misaddressed => "tunnel_misaddressed",
            TunnelStatus::TooLong => "tunnel_too_long",
            TunnelStatus::PathLoops => "tunnel_path_loops",
            TunnelStatus::HopUnreachable => "tunnel_hop_unreachable",
            TunnelStatus::ForwardingUnavailable => "relay_forwarding_unavailable",
            TunnelStatus::ExpectedTunnelOpen => "expected_tunnel_open",
            TunnelStatus::Forbidden => "relay_forbidden",
            TunnelStatus::Busy => "relay_busy",
            TunnelStatus::Unrecognised => "relay_downstream_status_unrecognised",
        }
    }

    /// The status as an acknowledgement.
    pub fn ack(&self) -> (r: RadiiMessage)
        ensures
            r@ == (crate::proto::MessageView::Ack { status: self.text() }),
    {
        RadiiMessage::Ack { status: self.as_str().to_owned() }
    }
}

/// Whether `s` belongs to the vocabulary.
pub open spec fn known_status(s: Seq<char>) -> bool {
    exists|t: TunnelStatus| #[trigger] t.text() == s
}

proof fn lemma_status_lengths()
    ensures
        "tunnel_ready"@.len() == 12,
        "tunnel_misaddressed"@.len() == 19,
        "tunnel_too_long"@.len() == 15,
        "tunnel_path_loops"@.len() == 17,
        "tunnel_hop_unreachable"@.len() == 22,
        "relay_forwarding_unavailable"@.len() == 28,
        "expected_tunnel_open"@.len() == 20,
        "relay_forbidden"@.len() == 15,
        "relay_busy"@.len() == 10,
        "relay_downstream_status_unrecognised"@.len() == 36,
        "tunnel_too_long"@[0] != "relay_forbidden"@[0],
{
    reveal_strlit("tunnel_ready");
    reveal_strlit("tunnel_misaddressed");
    reveal_strlit("tunnel_too_long");
    reveal_strlit("tunnel_path_loops");
    reveal_strlit("tunnel_hop_unreachable");
    reveal_strlit("relay_forwarding_unavailable");
    reveal_strlit("expected_tunnel_open");
    reveal_strlit("relay_forbidden");
    reveal_strlit("relay_busy");
    reveal_strlit("relay_downstream_status_unrecognised");
}

/// No two statuses look alike on the wire.
pub proof fn law_statuses_are_distinct(a: TunnelStatus, b: TunnelStatus)
    ensures
        a.text() == b.text() ==> a == b,
{
    lemma_status_lengths();
}

/// The status that a neighbour's text stands for.
pub fn recognise(status: &str) -> (r: TunnelStatus)
    ensures
        r.text() == status@ || (r is Unrecognised && !known_status(status@)),
{
    if same(status, "tunnel_ready") {
        TunnelStatus::Ready
    } else if same(status, "tunnel_misaddressed") {
        TunnelStatus::Misaddressed
    } else if same(status, "tunnel_too_long") {
        TunnelStatus::TooLong
    } else if same(status, "tunnel_path_loops") {
        TunnelStatus::PathLoops
    } else if same(status, "tunnel_hop_unreachable") {
        TunnelStatus::HopUnreachable
    } else if same(status, "relay_forwarding_unavailable") {
        TunnelStatus::ForwardingUnavailable
    } else if same(status, "expected_tunnel_open") {
        TunnelStatus::ExpectedTunnelOpen
    } else if same(status, "relay_forbidden") {
        TunnelStatus::Forbidden
    } else if same(status, "relay_busy") {
        TunnelStatus::Busy
    } else {
        TunnelStatus::Unrecognised
    }
}

/// What a relay passes upstream of the frame that the next hop answered with.
/// Anything but a known acknowledgement becomes one fixed status.
pub open spec fn passed_on(m: crate::proto::MessageView) -> Seq<char> {
    match m {
        crate::proto::MessageView::Ack { status } => if known_status(status) {
            status
        } else {
            TunnelStatus::Unrecognised.text()
        },
        _ => TunnelStatus::Unrecognised.text(),
    }
}

/// What a relay passes upstream of the frame that the next hop answered with.
/// The chain comes up exactly when that is [`TunnelStatus::Ready`].
pub fn sanitise(reply: &RadiiMessage) -> (r: TunnelStatus)
    ensures
        r.text() == passed_on(reply@),
{
    match reply {
        RadiiMessage::Ack { status } => {
            let r: TunnelStatus = recognise(status.as_str());
            assert(known_status(r.text()));
            r
        },
        _ => TunnelStatus::Unrecognised,
    }
}

/// What was passed on once is passed on unchanged by every further relay.
pub proof fn law_passing_on_is_stable(m: crate::proto::MessageView)
    ensures
        known_status(passed_on(m)),
        passed_on(crate::proto::MessageView::Ack { status: passed_on(m) }) == passed_on(m),
{
    assert(known_status(TunnelStatus::Unrecognised.text()));
}

// ---------------------------------------------------------------------------
// Slots
// ---------------------------------------------------------------------------

/// The chains that are being carried, in all and per peer.
#[derive(Debug)]
pub struct Live {
    total: usize,
    per_peer: Table<usize>,
}

/// What a [`Live`] counts. A peer without a chain has no entry.
#[verifier::ext_equal]
pub struct LiveView {
    pub total: nat,
    pub per_peer: Map<Seq<char>, nat>,
}

impl LiveView {
    /// The chains of one peer.
    pub open spec fn of(self, peer: Seq<char>) -> nat {
        if self.per_peer.dom().contains(peer) {
            self.per_peer[peer]
        } else {
            0
        }
    }

    /// Whether a peer gets another slot.
    pub open spec fn grants(self, peer: Seq<char>, max_total: nat, max_per_peer: nat) -> bool {
        self.total < max_total && self.of(peer) < max_per_peer
    }

    /// With one more chain of `peer`.
    pub open spec fn taken(self, peer: Seq<char>) -> Self {
        LiveView {
            total: self.total + 1,
            per_peer: self.per_peer.insert(peer, self.of(peer) + 1),
        }
    }

    /// With one chain of `peer` less.
    pub open spec fn released(self, peer: Seq<char>) -> Self {
        LiveView {
            total: (self.total - 1) as nat,
            per_peer: if self.of(peer) <= 1 {
                self.per_peer.remove(peer)
            } else {
                self.per_peer.insert(peer, (self.of(peer) - 1) as nat)
            },
        }
    }

    /// Neither cap is exceeded.
    pub open spec fn within(self, max_total: nat, max_per_peer: nat) -> bool {
        self.total <= max_total && forall|p: Seq<char>| #[trigger] self.of(p) <= max_per_peer
    }

    /// Only peers with chains have entries.
    pub open spec fn only_live(self) -> bool {
        forall|p: Seq<char>| #[trigger]
            self.per_peer.dom().contains(p) ==> self.per_peer[p] > 0
    }
}

/// The sum of the counts of the listed peers.
pub open spec fn sum_over(peers: Seq<Seq<char>>, counts: Map<Seq<char>, usize>) -> nat
    decreases peers.len(),
{
    if peers.len() == 0 {
        0
    } else {
        sum_over(peers.drop_last(), counts) + counts[peers.last()] as nat
    }
}

/// A slot that is given back leaves everything as it was.
pub proof fn law_release_undoes_acquire(live: LiveView, peer: Seq<char>)
    requires
        live.only_live(),
    ensures
        live.taken(peer).released(peer) == live,
        live.taken(peer).only_live(),
{
    let after = live.taken(peer).released(peer);
    if live.per_peer.dom().contains(peer) {
        assert(live.per_peer[peer] > 0);
        assert(after.per_peer =~= live.per_peer);
    } else {
        assert(after.per_peer =~= live.per_peer);
    }
}

/// A slot counts against its own peer and the total, and against nobody else;
/// neither cap is ever exceeded by taking a slot that was granted.
pub proof fn law_slots_are_keyed_by_peer(
    live: LiveView,
    peer: Seq<char>,
    other: Seq<char>,
    max_total: nat,
    max_per_peer: nat,
)
    requires
        live.grants(peer, max_total, max_per_peer),
        peer != other,
    ensures
        live.taken(peer).of(other) == live.of(other),
        live.taken(peer).of(peer) == live.of(peer) + 1,
        live.taken(peer).of(peer) <= max_per_peer,
        live.taken(peer).total <= max_total,
        live.taken(peer).grants(other, max_total, max_per_peer) <==> live.total + 1 < max_total
            && live.of(other) < max_per_peer,
{
}

/// Slots that are taken only where they are granted, and given back at will,
/// never exceed either cap.
pub proof fn law_caps_are_kept(live: LiveView, peer: Seq<char>, max_total: nat, max_per_peer: nat)
    requires
        live.within(max_total, max_per_peer),
    ensures
        live.grants(peer, max_total, max_per_peer) ==> live.taken(peer).within(
            max_total,
            max_per_peer,
        ),
        live.total > 0 ==> live.released(peer).within(max_total, max_per_peer),
{
    assert forall|p: Seq<char>|
        live.grants(peer, max_total, max_per_peer) implies #[trigger] live.taken(peer).of(p)
        <= max_per_peer by {
        assert(live.of(p) <= max_per_peer);
    }
    assert forall|p: Seq<char>| #[trigger] live.released(peer).of(p) <= max_per_peer by {
        assert(live.of(p) <= max_per_peer);
    }
}

proof fn lemma_sum_same(
    peers: Seq<Seq<char>>,
    a: Map<Seq<char>, usize>,
    b: Map<Seq<char>, usize>,
)
    requires
        forall|i: int| 0 <= i < peers.len() ==> a[#[trigger] peers[i]] == b[peers[i]],
    ensures
        sum_over(peers, a) == sum_over(peers, b),
    decreases peers.len(),
{
    if peers.len() > 0 {
        let init = peers.drop_last();
        assert forall|i: int| 0 <= i < init.len() implies a[#[trigger] init[i]] == b[init[i]] by {
            assert(init[i] == peers[i]);
        }
        lemma_sum_same(init, a, b);
        assert(a[peers[peers.len() - 1]] == b[peers[peers.len() - 1]]);
    }
}

/// Taking the peer at `i` out of the sum.
proof fn lemma_sum_remove(peers: Seq<Seq<char>>, counts: Map<Seq<char>, usize>, i: int)
    requires
        0 <= i < peers.len(),
    ensures
        sum_over(peers, counts) == sum_over(peers.remove(i), counts) + counts[peers[i]],
    decreases peers.len(),
{
    if i == peers.len() - 1 {
        assert(peers.remove(i) =~= peers.drop_last());
    } else {
        lemma_sum_remove(peers.drop_last(), counts, i);
        assert(peers.remove(i).drop_last() =~= peers.drop_last().remove(i));
        assert(peers.remove(i).last() == peers.last());
    }
}

impl View for Live {
    type V = LiveView;

    closed spec fn view(&self) -> LiveView {
        LiveView {
            total: self.total as nat,
            per_peer: self.per_peer@.map_values(|n: usize| n as nat),
        }
    }
}

impl Live {
    /// The total is the sum over the peers, and only live peers are listed.
    pub closed spec fn well_formed(&self) -> bool {
        &&& self.per_peer.consistent()
        &&& self.total == sum_over(self.per_peer.keys(), self.per_peer@)
        &&& forall|p: Seq<char>| #[trigger]
            self.per_peer@.dom().contains(p) ==> self.per_peer@[p] > 0
    }

    pub fn new() -> (r: Self)
        ensures
            r.well_formed(),
            r@.total == 0,
            r@.per_peer == Map::<Seq<char>, nat>::empty(),
    {
        let r = Live { total: 0, per_peer: Table::new() };
        let _ = r.per_peer.len();
        assert(r@.per_peer =~= Map::<Seq<char>, nat>::empty());
        r
    }

    /// The number of chains.
    pub fn total(&self) -> (r: usize)
        ensures
            r == self@.total,
    {
        self.total
    }

    /// The number of chains of one peer.
    pub fn of(&self, peer: &str) -> (r: usize)
        ensures
            r == self@.of(peer@),
    {
        match self.per_peer.get(peer) {
            Some(n) => *n,
            None => 0,
        }
    }

    /// Takes a slot for `peer`, unless one of the caps is met.
    pub fn acquire(&mut self, peer: &str, max_total: usize, max_per_peer: usize) -> (granted: bool)
        requires
            old(self).well_formed(),
        ensures
            final(self).well_formed(),
            granted == old(self)@.grants(peer@, max_total as nat, max_per_peer as nat),
            final(self)@ == if granted {
                old(self)@.taken(peer@)
            } else {
                old(self)@
            },
            final(self)@.only_live(),
    {
        let ghost before = self@;
        let ghost keys0 = self.per_peer.keys();
        let ghost map0 = self.per_peer@;
        assert(self@.only_live());
        let count: usize = self.of(peer);
        if self.total >= max_total || count >= max_per_peer {
            return false;
        }
        self.per_peer.insert(peer.to_owned(), count + 1);
        let _ = self.per_peer.len();
        proof {
            let keys1 = self.per_peer.keys();
            let map1 = self.per_peer@;
            if map0.dom().contains(peer@) {
                assert(keys0.contains(peer@));
                let i = keys0.index_of(peer@);
                lemma_sum_remove(keys0, map0, i);
                lemma_sum_remove(keys0, map1, i);
                assert forall|j: int| 0 <= j < keys0.remove(i).len() implies map0[
                    #[trigger] keys0.remove(i)[j]] == map1[keys0.remove(i)[j]] by {
                    let o = if j < i { j } else { j + 1 };
                    assert(keys0.remove(i)[j] == keys0[o]);
                }
                lemma_sum_same(keys0.remove(i), map0, map1);
            } else {
                assert(keys1.drop_last() =~= keys0);
                assert forall|j: int| 0 <= j < keys0.len() implies map0[#[trigger] keys0[j]]
                    == map1[keys0[j]] by {
                    assert(map0.dom().contains(keys0[j]));
                }
                lemma_sum_same(keys0, map0, map1);
            }
        }
        self.total = self.total + 1;
        assert(self@.per_peer =~= before.taken(peer@).per_peer);
        assert(self@ =~= before.taken(peer@));
        true
    }

    /// Gives back a slot of `peer`.
    pub fn release(&mut self, peer: &str)
        requires
            old(self).well_formed(),
            old(self)@.of(peer@) > 0,
        ensures
            final(self).well_formed(),
            final(self)@ == old(self)@.released(peer@),
            final(self)@.only_live(),
    {
        let ghost before = self@;
        let ghost keys0 = self.per_peer.keys();
        let ghost map0 = self.per_peer@;
        let count: usize = self.of(peer);
        proof {
            assert(map0.dom().contains(peer@));
            assert(keys0.contains(peer@));
            lemma_sum_remove(keys0, map0, keys0.index_of(peer@));
        }
        if count == 1 {
            self.per_peer.remove(peer);
        } else {
            self.per_peer.insert(peer.to_owned(), count - 1);
        }
        let _ = self.per_peer.len();
        proof {
            let i = keys0.index_of(peer@);
            let map1 = self.per_peer@;
            assert forall|j: int| 0 <= j < keys0.remove(i).len() implies map0[
                #[trigger] keys0.remove(i)[j]] == map1[keys0.remove(i)[j]] by {
                let o = if j < i { j } else { j + 1 };
                assert(keys0.remove(i)[j] == keys0[o]);
                assert(keys0[o] != keys0[i]);
            }
            lemma_sum_same(keys0.remove(i), map0, map1);
            if count > 1 {
                lemma_sum_remove(keys0, map1, i);
            }
        }
        self.total = self.total - 1;
        assert(self@.per_peer =~= before.released(peer@).per_peer);
        assert(self@ =~= before.released(peer@));
    }
}

// ---------------------------------------------------------------------------
// Opening a chain
// ---------------------------------------------------------------------------

/// Whether a peer may hand this node a chain. No list admits any peer that
/// the CA vouches for.
pub open spec fn admitted(allow_peers: Seq<String>, peer: Seq<char>) -> bool {
    allow_peers.len() == 0 || crate::text::listed(allow_peers, peer)
}

/// Whether a peer may hand this node a chain.
pub fn admits(config: &RelayConfig, peer: &str) -> (r: bool)
    ensures
        r == admitted(config.allow_peers@, peer@),
{
    config.allow_peers.len() == 0 || contains(&config.allow_peers, peer)
}

/// The ids of the hops.
pub open spec fn hop_ids(hops: Seq<RouteHop>) -> Seq<Seq<char>> {
    hops.map_values(|h: RouteHop| h.node_id@)
}

/// Why a path is refused before anything is dialed, if it is.
pub open spec fn path_fault(
    hops: Seq<RouteHop>,
    node_id: Seq<char>,
    max_hops: nat,
) -> Option<TunnelStatus> {
    if hops.len() > max_hops {
        Some(TunnelStatus::TooLong)
    } else if hops.len() == 0 || hops[0].node_id@ != node_id {
        Some(TunnelStatus::Misaddressed)
    } else if !hop_ids(hops).no_duplicates() {
        Some(TunnelStatus::PathLoops)
    } else {
        None
    }
}

/// Whether some hop occurs twice.
fn loops(hops: &Vec<RouteHop>) -> (r: bool)
    ensures
        r == !hop_ids(hops@).no_duplicates(),
{
    let ghost ids = hop_ids(hops@);
    let mut i: usize = 0;
    while i < hops.len()
        invariant
            i <= hops@.len(),
            ids == hop_ids(hops@),
            forall|a: int, b: int| 0 <= a < b < i ==> ids[a] != ids[b],
        decreases hops@.len() - i,
    {
        let mut j: usize = 0;
        while j < i
            invariant
                j <= i < hops@.len(),
                ids == hop_ids(hops@),
                forall|a: int| 0 <= a < j ==> #[trigger] ids[a] != ids[i as int],
            decreases i - j,
        {
            if same(hops[i].node_id.as_str(), hops[j].node_id.as_str()) {
                assert(ids[i as int] == ids[j as int]);
                return true;
            }
            assert(ids[j as int] != ids[i as int]);
            j += 1;
        }
        i += 1;
    }
    assert forall|a: int, b: int| 0 <= a < ids.len() && 0 <= b < ids.len() && a != b implies ids[a]
        != ids[b] by {
        if a < b {
        } else {
            assert(ids[b] != ids[a]);
        }
    }
    false
}

/// The cheap checks on a path, made before anything is dialed.
pub fn validate(hops: &Vec<RouteHop>, config: &RelayConfig) -> (r: Result<(), TunnelStatus>)
    ensures
        match r {
            Ok(()) => path_fault(hops@, config.node_id@, config.max_hops as nat) is None,
            Err(e) => path_fault(hops@, config.node_id@, config.max_hops as nat) == Some(e),
        },
{
    if hops.len() > config.max_hops {
        return Err(TunnelStatus::TooLong);
    }
    if hops.len() == 0 {
        return Err(TunnelStatus::Misaddressed);
    }
    if !same(hops[0].node_id.as_str(), config.node_id.as_str()) {
        return Err(TunnelStatus::Misaddressed);
    }
    if loops(hops) {
        return Err(TunnelStatus::PathLoops);
    }
    Ok(())
}

/// What a relay does with an opening frame.
#[derive(Debug)]
pub enum Opening {
    /// Say so and close. No slot is held.
    Refuse(TunnelStatus),
    /// The chain ends here: dial the own upstream, and acknowledge only then.
    /// A slot is held.
    Terminate,
    /// Dial `next`, which must prove to be that node, and hand it the tail. A
    /// slot is held.
    Forward { next: RouteHop, tail: RadiiMessage },
}

/// The refusal that an opening frame meets, if any, in the order in which the
/// checks are made.
pub open spec fn refusal(
    live: LiveView,
    config: RelayConfig,
    peer: Seq<char>,
    m: RadiiMessage,
) -> Option<TunnelStatus> {
    if !(m is TunnelOpen) {
        Some(TunnelStatus::ExpectedTunnelOpen)
    } else if !admitted(config.allow_peers@, peer) {
        Some(TunnelStatus::Forbidden)
    } else if !live.grants(
        peer,
        config.max_concurrent_total as nat,
        config.max_concurrent_per_peer as nat,
    ) {
        Some(TunnelStatus::Busy)
    } else {
        path_fault(m->hops@, config.node_id@, config.max_hops as nat)
    }
}

/// The hops behind the first one.
fn tail_of(hops: &Vec<RouteHop>) -> (r: Vec<RouteHop>)
    requires
        hops@.len() > 0,
    ensures
        r@.map_values(|h: RouteHop| h@) == hops@.skip(1).map_values(|h: RouteHop| h@),
{
    let mut r: Vec<RouteHop> = Vec::new();
    let mut i: usize = 1;
    while i < hops.len()
        invariant
            1 <= i <= hops@.len(),
            r@.len() == i - 1,
            forall|j: int| 0 <= j < i - 1 ==> (#[trigger] r@[j])@ == hops@[j + 1]@,
        decreases hops@.len() - i,
    {
        r.push(hops[i].clone());
        i += 1;
    }
    assert(r@.map_values(|h: RouteHop| h@) =~= hops@.skip(1).map_values(|h: RouteHop| h@));
    r
}

/// Decides on an opening frame of an authenticated peer. The frame is heard
/// out before admission, so that a refusal reaches the peer as a status.
pub fn open_chain(
    live: &mut Live,
    config: &RelayConfig,
    peer: &str,
    opening: &RadiiMessage,
) -> (r: Opening)
    requires
        old(live).well_formed(),
    ensures
        final(live).well_formed(),
        match r {
            Opening::Refuse(status) => refusal(old(live)@, *config, peer@, *opening) == Some(status)
                && final(live)@ == old(live)@,
            Opening::Terminate => refusal(old(live)@, *config, peer@, *opening) is None
                && opening->hops@.len() == 1 && final(live)@ == old(live)@.taken(peer@),
            Opening::Forward { next, tail } => {
                &&& refusal(old(live)@, *config, peer@, *opening) is None
                &&& opening->hops@.len() > 1
                &&& next@ == opening->hops@[1]@
                &&& tail@ == (crate::proto::MessageView::TunnelOpen {
                    hops: opening->hops@.skip(1).map_values(|h: RouteHop| h@),
                })
                &&& final(live)@ == old(live)@.taken(peer@)
            },
        },
{
    let hops: &Vec<RouteHop> = match opening {
        RadiiMessage::TunnelOpen { hops } => hops,
        _ => {
            return Opening::Refuse(TunnelStatus::ExpectedTunnelOpen);
        },
    };
    if !admits(config, peer) {
        return Opening::Refuse(TunnelStatus::Forbidden);
    }
    let ghost before = live@;
    if !live.acquire(peer, config.max_concurrent_total, config.max_concurrent_per_peer) {
        return Opening::Refuse(TunnelStatus::Busy);
    }
    if let Err(status) = validate(hops, config) {
        live.release(peer);
        proof {
            lemma_release_after(before, peer@);
        }
        return Opening::Refuse(status);
    }
    if hops.len() == 1 {
        return Opening::Terminate;
    }
    Opening::Forward {
        next: hops[1].clone(),
        tail: RadiiMessage::TunnelOpen { hops: tail_of(hops) },
    }
}

/// What the last hop of a chain tells its peer once it has dialed its own
/// upstream: it is ready only if that was reached, so that a dead backend
/// makes the initiator try another route.
pub fn terminal_status(upstream_reached: bool) -> (r: TunnelStatus)
    ensures
        r == if upstream_reached {
            TunnelStatus::Ready
        } else {
            TunnelStatus::HopUnreachable
        },
{
    if upstream_reached {
        TunnelStatus::Ready
    } else {
        TunnelStatus::HopUnreachable
    }
}

/// What a forwarding relay tells its peer: what the next hop answered, put in
/// the vocabulary, or that it was not reached.
pub fn forward_status(reply: Option<&RadiiMessage>) -> (r: TunnelStatus)
    ensures
        match reply {
            None => r == TunnelStatus::HopUnreachable,
            Some(m) => r.text() == passed_on(m@),
        },
{
    match reply {
        None => TunnelStatus::HopUnreachable,
        Some(m) => sanitise(m),
    }
}

/// Releasing undoes acquiring even where nothing is known of other peers.
proof fn lemma_release_after(live: LiveView, peer: Seq<char>)
    ensures
        live.per_peer.dom().contains(peer) && live.per_peer[peer] == 0 || live.taken(
            peer,
        ).released(peer) == live,
{
    let after = live.taken(peer).released(peer);
    if !(live.per_peer.dom().contains(peer) && live.per_peer[peer] == 0) {
        assert(after.per_peer =~= live.per_peer);
    }
}

/// The chain of hops shrinks by one at every relay, and each next node sees
/// itself first: a forwarded path passes the address check of its receiver.
pub proof fn law_forwarding_addresses_the_next_hop(hops: Seq<RouteHop>, node_id: Seq<char>, max_hops: nat)
    requires
        path_fault(hops, node_id, max_hops) is None,
        hops.len() > 1,
    ensures
        path_fault(hops.skip(1), hops[1].node_id@, max_hops) is None,
{
    let ids = hop_ids(hops);
    let tail = hop_ids(hops.skip(1));
    assert forall|a: int, b: int| 0 <= a < tail.len() && 0 <= b < tail.len() && a != b implies tail[a]
        != tail[b] by {
        assert(tail[a] == ids[a + 1]);
        assert(tail[b] == ids[b + 1]);
    }
}

// ---------------------------------------------------------------------------
// Idleness
// ---------------------------------------------------------------------------

/// What one direction of a splice did.
#[derive(Debug, Clone, Copy)]
pub enum Pump {
    Moved,
    Ended,
}

/// The two directions of a splice and when a byte last moved.
#[derive(Debug, Clone, Copy)]
pub struct Splice {
    pub forward_open: bool,
    pub backward_open: bool,
    pub last_activity_ms: u64,
}

impl Splice {
    /// The splice after a direction did something.
    pub open spec fn observed(self, forward: bool, what: Pump, now_ms: u64) -> Self {
        match what {
            Pump::Moved => Splice { last_activity_ms: now_ms, ..self },
            Pump::Ended => if forward {
                Splice { forward_open: false, ..self }
            } else {
                Splice { backward_open: false, ..self }
            },
        }
    }

    /// Whether nothing has moved either way for the idle window.
    pub open spec fn idle(self, now_ms: u64, idle_ms: u64) -> bool {
        now_ms >= self.last_activity_ms && now_ms - self.last_activity_ms >= idle_ms
    }

    /// Whether the splice is over: both directions have ended, or it is idle.
    pub open spec fn finished(self, now_ms: u64, idle_ms: u64) -> bool {
        (!self.forward_open && !self.backward_open) || self.idle(now_ms, idle_ms)
    }

    /// A splice over which nothing has moved yet.
    pub fn start(now_ms: u64) -> (r: Self)
        ensures
            r == (Splice { forward_open: true, backward_open: true, last_activity_ms: now_ms }),
    {
        Splice { forward_open: true, backward_open: true, last_activity_ms: now_ms }
    }

    /// What a direction did. Bytes either way keep the whole chain alive; an
    /// end closes its own direction only, so a half-closed chain still
    /// delivers the answer.
    pub fn observe(&mut self, forward: bool, what: Pump, now_ms: u64)
        ensures
            *final(self) == old(self).observed(forward, what, now_ms),
    {
        match what {
            Pump::Moved => {
                self.last_activity_ms = now_ms;
            },
            Pump::Ended => {
                if forward {
                    self.forward_open = false;
                } else {
                    self.backward_open = false;
                }
            },
        }
    }

    /// Whether the splice is over: both directions have ended, or nothing has
    /// moved either way for the idle window.
    pub fn over(&self, now_ms: u64, idle_ms: u64) -> (r: bool)
        ensures
            r == self.finished(now_ms, idle_ms),
    {
        (!self.forward_open && !self.backward_open) || (now_ms >= self.last_activity_ms && now_ms
            - self.last_activity_ms >= idle_ms)
    }
}

/// A half close ends one direction only: while the other is open, the splice
/// lasts until it is idle.
pub proof fn law_half_close_goes_on(s: Splice, forward: bool, now_ms: u64, later: u64, idle_ms: u64)
    requires
        if forward {
            s.backward_open
        } else {
            s.forward_open
        },
    ensures
        s.observed(forward, Pump::Ended, now_ms).finished(later, idle_ms) <==> s.idle(
            later,
            idle_ms,
        ),
{
}

/// Bytes in either direction keep the whole chain alive for another idle
/// window, and silence in both ends it after one.
pub proof fn law_idleness_is_of_the_chain(
    s: Splice,
    forward: bool,
    now_ms: u64,
    later: u64,
    idle_ms: u64,
)
    requires
        s.forward_open || s.backward_open,
        now_ms <= later,
    ensures
        s.observed(forward, Pump::Moved, now_ms).finished(later, idle_ms) <==> later - now_ms
            >= idle_ms,
{
}

// ---------------------------------------------------------------------------
// What an opening is held to
// ---------------------------------------------------------------------------

/// Every peer on the list is admitted, wherever it stands, and with a list
/// nobody else is; without one everybody is. Only a frame that opens a chain
/// is ever refused on that ground.
pub proof fn law_who_is_admitted(
    live: LiveView,
    config: RelayConfig,
    peer: Seq<char>,
    opening: RadiiMessage,
    i: int,
)
    ensures
        refusal(live, config, peer, opening) == Some(TunnelStatus::Forbidden) <==> opening
            is TunnelOpen && config.allow_peers@.len() > 0 && forall|j: int|
            0 <= j < config.allow_peers@.len() ==> (#[trigger] config.allow_peers@[j])@ != peer,
        0 <= i < config.allow_peers@.len() && config.allow_peers@[i]@ == peer ==> refusal(
            live,
            config,
            peer,
            opening,
        ) != Some(TunnelStatus::Forbidden),
        admitted(config.allow_peers@, peer) <==> config.allow_peers@.len() == 0 || exists|j: int|
            0 <= j < config.allow_peers@.len() && (#[trigger] config.allow_peers@[j])@ == peer,
{
}

/// What is refused, and in which order the grounds count: another frame, a
/// peer that is not admitted, no free slot, a path longer than allowed, one
/// that does not begin with this node, one that visits a node twice. What none
/// of these holds of is let through.
pub proof fn law_what_is_refused(
    live: LiveView,
    config: RelayConfig,
    peer: Seq<char>,
    opening: RadiiMessage,
)
    ensures
        refusal(live, config, peer, opening) == Some(TunnelStatus::ExpectedTunnelOpen) <==> !(opening
            is TunnelOpen),
        opening matches RadiiMessage::TunnelOpen { hops } ==> {
            let stranger = config.allow_peers@.len() > 0 && forall|j: int|
                0 <= j < config.allow_peers@.len() ==> (#[trigger] config.allow_peers@[j])@ != peer;
            let full = live.total >= config.max_concurrent_total || (
            live.per_peer.dom().contains(peer) && live.per_peer[peer]
                >= config.max_concurrent_per_peer) || config.max_concurrent_per_peer == 0;
            let long = hops@.len() > config.max_hops;
            let astray = hops@.len() == 0 || hops@[0].node_id@ != config.node_id@;
            let twice = exists|a: int, b: int|
                0 <= a < b < hops@.len() && (#[trigger] hops@[a]).node_id@ == (
                #[trigger] hops@[b]).node_id@;
            let r = refusal(live, config, peer, opening);
            &&& r == Some(TunnelStatus::Busy) <==> !stranger && full
            &&& r == Some(TunnelStatus::TooLong) <==> !stranger && !full && long
            &&& r == Some(TunnelStatus::Misaddressed) <==> !stranger && !full && !long && astray
            &&& r == Some(TunnelStatus::PathLoops) <==> !stranger && !full && !long && !astray
                && twice
            &&& r is None <==> !stranger && !full && !long && !astray && !twice
        },
{
    if let RadiiMessage::TunnelOpen { hops } = opening {
        lemma_loops(hops@);
    }
}

proof fn lemma_loops(hops: Seq<RouteHop>)
    ensures
        hop_ids(hops).no_duplicates() <==> !(exists|a: int, b: int|
            0 <= a < b < hops.len() && (#[trigger] hops[a]).node_id@ == (
            #[trigger] hops[b]).node_id@),
{
    let ids = hop_ids(hops);
    assert(ids.len() == hops.len());
    assert forall|i: int| 0 <= i < hops.len() implies ids[i] == (#[trigger] hops[i]).node_id@ by {}
    if !(exists|a: int, b: int|
        0 <= a < b < hops.len() && (#[trigger] hops[a]).node_id@ == (#[trigger] hops[b]).node_id@) {
        assert forall|a: int, b: int|
            0 <= a < ids.len() && 0 <= b < ids.len() && a != b implies ids[a] != ids[b] by {
            assert(ids[a] == hops[a].node_id@ && ids[b] == hops[b].node_id@);
            if a < b {
                assert(hops[a].node_id@ != hops[b].node_id@);
            } else {
                assert(hops[b].node_id@ != hops[a].node_id@);
            }
        }
    }
    if ids.no_duplicates() {
        assert forall|a: int, b: int| 0 <= a < b < hops.len() implies (
        #[trigger] hops[a]).node_id@ != (#[trigger] hops[b]).node_id@ by {
            assert(ids[a] != ids[b]);
        }
    }
}

/// What a relay hands on is the path without itself: one hop less, the others
/// in order, id for id and address for address. The next hop is the first of
/// them.
pub proof fn law_the_tail_is_handed_on(hops: Vec<RouteHop>, next: RouteHop, rest: Vec<RouteHop>)
    requires
        hops@.len() > 1,
        next@ == hops@[1]@,
        (RadiiMessage::TunnelOpen { hops: rest })@ == (crate::proto::MessageView::TunnelOpen {
            hops: hops@.skip(1).map_values(|h: RouteHop| h@),
        }),
    ensures
        next.node_id@ == hops@[1].node_id@,
        next.addr@ == hops@[1].addr@,
        rest@.len() == hops@.len() - 1,
        forall|i: int|
            0 <= i < rest@.len() ==> (#[trigger] rest@[i]).node_id@ == hops@[i + 1].node_id@
                && rest@[i].addr@ == hops@[i + 1].addr@,
{
    let a = rest@.map_values(|h: RouteHop| h@);
    let b = hops@.skip(1).map_values(|h: RouteHop| h@);
    assert(a == b);
    assert(a.len() == rest@.len() && b.len() == hops@.len() - 1);
    assert forall|i: int| 0 <= i < rest@.len() implies (#[trigger] rest@[i]).node_id@ == hops@[i
        + 1].node_id@ && rest@[i].addr@ == hops@[i + 1].addr@ by {
        assert(a[i] == rest@[i]@);
        assert(b[i] == hops@[i + 1]@);
    }
}

/// A slot is granted exactly while both counts are below their caps. Taking it
/// adds one to both, giving it back takes one from both, and no other peer's
/// count moves either way.
pub proof fn law_slots_are_counted(
    live: LiveView,
    peer: Seq<char>,
    other: Seq<char>,
    max_total: nat,
    max_per_peer: nat,
)
    requires
        peer != other,
    ensures
        live.per_peer.dom().contains(peer) ==> live.of(peer) == live.per_peer[peer],
        !live.per_peer.dom().contains(peer) ==> live.of(peer) == 0,
        live.grants(peer, max_total, max_per_peer) <==> live.total < max_total && live.of(peer)
            < max_per_peer,
        live.taken(peer).total == live.total + 1,
        live.taken(peer).of(peer) == live.of(peer) + 1,
        live.taken(peer).of(other) == live.of(other),
        live.total > 0 ==> live.released(peer).total == live.total - 1,
        live.of(peer) > 0 ==> live.released(peer).of(peer) == live.of(peer) - 1,
        live.released(peer).of(other) == live.of(other),
{
}

/// The ten words that relays pass on, and what each of them stands for. A word
/// outside them, or another frame, becomes the last of them.
pub proof fn law_the_vocabulary(m: crate::proto::MessageView, s: Seq<char>)
    ensures
        known_status(s) <==> s == "tunnel_ready"@ || s == "tunnel_misaddressed"@ || s
            == "tunnel_too_long"@ || s == "tunnel_path_loops"@ || s == "tunnel_hop_unreachable"@
            || s == "relay_forwarding_unavailable"@ || s == "expected_tunnel_open"@ || s
            == "relay_forbidden"@ || s == "relay_busy"@ || s
            == "relay_downstream_status_unrecognised"@,
        m matches crate::proto::MessageView::Ack { status } ==> (known_status(status) ==> passed_on(
            m,
        ) == status),
        !(m matches crate::proto::MessageView::Ack { status } && known_status(status))
            ==> passed_on(m) == "relay_downstream_status_unrecognised"@,
{
    assert(TunnelStatus::Ready.text() == "tunnel_ready"@);
    assert(TunnelStatus::Misaddressed.text() == "tunnel_misaddressed"@);
    assert(TunnelStatus::TooLong.text() == "tunnel_too_long"@);
    assert(TunnelStatus::PathLoops.text() == "tunnel_path_loops"@);
    assert(TunnelStatus::HopUnreachable.text() == "tunnel_hop_unreachable"@);
    assert(TunnelStatus::ForwardingUnavailable.text() == "relay_forwarding_unavailable"@);
    assert(TunnelStatus::ExpectedTunnelOpen.text() == "expected_tunnel_open"@);
    assert(TunnelStatus::Forbidden.text() == "relay_forbidden"@);
    assert(TunnelStatus::Busy.text() == "relay_busy"@);
    assert(TunnelStatus::Unrecognised.text() == "relay_downstream_status_unrecognised"@);
    if known_status(s) {
        let t = choose|t: TunnelStatus| #[trigger] t.text() == s;
        match t {
            TunnelStatus::Ready => {},
            _ => {},
        }
    }
}

/// A splice is over exactly when both directions have ended or the idle window
/// has passed since a byte last moved. Moving a byte changes that time and
/// nothing else; an end closes its own direction and nothing else.
pub proof fn law_when_a_splice_is_over(s: Splice, forward: bool, now_ms: u64, idle_ms: u64)
    ensures
        s.finished(now_ms, idle_ms) <==> (!s.forward_open && !s.backward_open) || (
        s.last_activity_ms <= now_ms && s.last_activity_ms + idle_ms <= now_ms),
        ({
            let moved = s.observed(forward, Pump::Moved, now_ms);
            &&& moved.last_activity_ms == now_ms
            &&& moved.forward_open == s.forward_open
            &&& moved.backward_open == s.backward_open
        }),
        ({
            let ended = s.observed(forward, Pump::Ended, now_ms);
            &&& ended.last_activity_ms == s.last_activity_ms
            &&& ended.forward_open == (s.forward_open && !forward)
            &&& ended.backward_open == (s.backward_open && forward)
        }),
{
}

/// What is counted is what is held: all slots, and those of each peer.
proof fn law_counts_are_read_as_held(live: Live, peer: Seq<char>)
    ensures
        live@.total == live.total,
        live.per_peer@.dom().contains(peer) ==> live@.of(peer) == live.per_peer@[peer],
        !live.per_peer@.dom().contains(peer) ==> live@.of(peer) == 0,
{
}

} // verus!
