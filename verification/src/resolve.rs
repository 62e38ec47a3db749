//! From planned routes to routes that can be dialed.

use crate::routing::{
    DefaultScorer, GraphSnapshot, NodeId, ProtocolId, RoleId, RouteCandidate, RoutePlanner,
    RouteRequest, RouteScorer,
};
use crate::table::Table;
use crate::text::same;
use vstd::prelude::*;

verus! {

/// The addresses that nodes advertise, each an address and its role, by node
/// id.
pub type AddressBook = Table<Vec<(String, String)>>;

/// One hop of a route and the address at which it is dialed.
#[derive(Debug)]
pub struct ResolvedHop {
    pub node_id: NodeId,
    pub addr: String,
}

/// What a [`ResolvedHop`] says.
pub struct HopView {
    pub node_id: Seq<char>,
    pub addr: Seq<char>,
}

impl View for ResolvedHop {
    type V = HopView;

    open spec fn view(&self) -> HopView {
        HopView { node_id: self.node_id@, addr: self.addr@ }
    }
}

impl Clone for ResolvedHop {
    fn clone(&self) -> (r: Self)
        ensures
            r@ == self@,
    {
        ResolvedHop { node_id: self.node_id.clone(), addr: self.addr.clone() }
    }
}

/// A route whose hops have addresses. The source is not one of the hops; the
/// last hop is the target.
#[derive(Debug)]
pub struct ResolvedRoute {
    pub hops: Vec<ResolvedHop>,
    pub score: u128,
}

/// What a [`ResolvedRoute`] says.
pub struct RouteView {
    pub hops: Seq<HopView>,
    pub score: nat,
}

impl View for ResolvedRoute {
    type V = RouteView;

    open spec fn view(&self) -> RouteView {
        RouteView { hops: self.hops@.map_values(|h: ResolvedHop| h@), score: self.score as nat }
    }
}

impl ResolvedRoute {
    /// The node that the route ends at.
    pub fn target(&self) -> (r: &NodeId)
        requires
            self.hops@.len() > 0,
        ensures
            r@ == self@.hops.last().node_id,
    {
        &self.hops[self.hops.len() - 1].node_id
    }
}

impl Clone for ResolvedRoute {
    fn clone(&self) -> (r: Self)
        ensures
            r@ == self@,
    {
        let mut hops: Vec<ResolvedHop> = Vec::new();
        let mut i: usize = 0;
        while i < self.hops.len()
            invariant
                i <= self.hops@.len(),
                hops@.len() == i,
                forall|j: int| 0 <= j < i ==> (#[trigger] hops@[j])@ == self.hops@[j]@,
            decreases self.hops@.len() - i,
        {
            hops.push(self.hops[i].clone());
            i += 1;
        }
        let r = ResolvedRoute { hops, score: self.score };
        assert(r@.hops =~= self@.hops);
        r
    }
}

// ---------------------------------------------------------------------------
// Addresses
// ---------------------------------------------------------------------------

/// The first address that is advertised under `role`.
pub open spec fn address(entries: Seq<(String, String)>, role: Seq<char>) -> Option<Seq<char>>
    decreases entries.len(),
{
    if entries.len() == 0 {
        None
    } else if entries[0].1@ == role {
        Some(entries[0].0@)
    } else {
        address(entries.drop_first(), role)
    }
}

/// The address of `node` under `role`.
pub open spec fn lookup(
    book: Map<Seq<char>, Vec<(String, String)>>,
    node: Seq<char>,
    role: Seq<char>,
) -> Option<Seq<char>> {
    if book.dom().contains(node) {
        address(book[node]@, role)
    } else {
        None
    }
}

proof fn lemma_address_from(entries: Seq<(String, String)>, role: Seq<char>, i: int)
    requires
        0 <= i <= entries.len(),
        forall|j: int| 0 <= j < i ==> (#[trigger] entries[j]).1@ != role,
    ensures
        address(entries, role) == address(entries.skip(i), role),
    decreases i,
{
    if i == 0 {
        assert(entries.skip(0) =~= entries);
    } else {
        lemma_address_from(entries, role, i - 1);
        let rest = entries.skip(i - 1);
        assert(rest[0] == entries[i - 1]);
        assert(rest.drop_first() =~= entries.skip(i));
    }
}

/// The address of `node` under `role`, if it advertises one.
pub fn address_of(book: &AddressBook, node: &NodeId, role: &RoleId) -> (r: Option<String>)
    ensures
        match r {
            None => lookup(book@, node@, role@) is None,
            Some(addr) => lookup(book@, node@, role@) == Some(addr@),
        },
{
    match book.get(node.0.as_str()) {
        None => None,
        Some(entries) => {
            let mut i: usize = 0;
            while i < entries.len()
                invariant
                    i <= entries@.len(),
                    book@.dom().contains(node@),
                    book@[node@] == *entries,
                    forall|j: int| 0 <= j < i ==> (#[trigger] entries@[j]).1@ != role@,
                decreases entries@.len() - i,
            {
                if same(entries[i].1.as_str(), role.0.as_str()) {
                    proof {
                        lemma_address_from(entries@, role@, i as int);
                        assert(entries@.skip(i as int)[0] == entries@[i as int]);
                    }
                    return Some(entries[i].0.clone());
                }
                i += 1;
            }
            proof {
                lemma_address_from(entries@, role@, entries@.len() as int);
            }
            None
        },
    }
}

/// Whether every hop of `way` that is to be dialed has an address. With no
/// `hop_role` only the target is dialed.
pub open spec fn dialable(
    book: Map<Seq<char>, Vec<(String, String)>>,
    way: Seq<Seq<char>>,
    hop_role: Option<Seq<char>>,
    target_role: Seq<char>,
) -> bool {
    &&& way.len() > 0
    &&& lookup(book, way.last(), target_role) is Some
    &&& (hop_role matches Some(role) ==> forall|i: int|
        0 <= i < way.len() - 1 ==> lookup(book, #[trigger] way[i], role) is Some)
}

/// `node` with its address under `role`.
pub open spec fn hop_at(
    book: Map<Seq<char>, Vec<(String, String)>>,
    node: Seq<char>,
    role: Seq<char>,
) -> HopView {
    HopView { node_id: node, addr: lookup(book, node, role)->0 }
}

/// The hops to dial along `way`.
pub open spec fn dialed(
    book: Map<Seq<char>, Vec<(String, String)>>,
    way: Seq<Seq<char>>,
    hop_role: Option<Seq<char>>,
    target_role: Seq<char>,
) -> Seq<HopView> {
    match hop_role {
        None => seq![hop_at(book, way.last(), target_role)],
        Some(role) => Seq::new(
            way.len(),
            |i: int|
                if i == way.len() - 1 {
                    hop_at(book, way[i], target_role)
                } else {
                    hop_at(book, way[i], role)
                },
        ),
    }
}

/// What is dialed for a planned route, if it can be dialed at all. The source
/// itself is not dialed.
pub open spec fn resolution(
    book: Map<Seq<char>, Vec<(String, String)>>,
    planned: RouteCandidate,
    hop_role: Option<Seq<char>>,
    target_role: Seq<char>,
) -> Option<RouteView> {
    let way = planned.names().drop_first();
    if planned.names().len() > 0 && dialable(book, way, hop_role, target_role) {
        Some(
            RouteView {
                hops: dialed(book, way, hop_role, target_role),
                score: planned.score as nat,
            },
        )
    } else {
        None
    }
}

/// The view of an optional role.
pub open spec fn role_view(role: Option<&RoleId>) -> Option<Seq<char>> {
    match role {
        None => None,
        Some(r) => Some(r@),
    }
}

/// Resolves a planned route to the addresses of its hops.
pub fn resolve_route(
    book: &AddressBook,
    planned: &RouteCandidate,
    hop_role: Option<&RoleId>,
    target_role: &RoleId,
) -> (r: Option<ResolvedRoute>)
    ensures
        match r {
            None => resolution(book@, *planned, role_view(hop_role), target_role@) is None,
            Some(route) => resolution(book@, *planned, role_view(hop_role), target_role@) == Some(
                route@,
            ),
        },
{
    let ghost names = planned.names();
    let ghost way = names.drop_first();
    let n: usize = planned.hops.len();
    if n < 2 {
        return None;
    }
    let mut hops: Vec<ResolvedHop> = Vec::new();
    if let Some(role) = hop_role {
        let mut i: usize = 1;
        while i < n - 1
            invariant
                1 <= i <= n - 1,
                n == planned.hops@.len(),
                n >= 2,
                names == planned.names(),
                way == names.drop_first(),
                hop_role == Some(role),
                hops@.len() == i - 1,
                forall|j: int|
                    0 <= j < i - 1 ==> lookup(book@, #[trigger] way[j], role@) is Some,
                forall|j: int| 0 <= j < i - 1 ==> (#[trigger] hops@[j])@ == hop_at(book@, way[j], role@),
            decreases n - i,
        {
            let node: &NodeId = &planned.hops[i];
            assert(way[i - 1] == node@);
            match address_of(book, node, role) {
                None => {
                    return None;
                },
                Some(addr) => {
                    hops.push(ResolvedHop { node_id: node.clone(), addr });
                },
            }
            i += 1;
        }
    }
    let last: &NodeId = &planned.hops[n - 1];
    assert(way.last() == last@);
    match address_of(book, last, target_role) {
        None => None,
        Some(addr) => {
            hops.push(ResolvedHop { node_id: last.clone(), addr });
            let route = ResolvedRoute { hops, score: planned.score };
            assert(route@.hops =~= dialed(book@, way, role_view(hop_role), target_role@));
            Some(route)
        },
    }
}

// ---------------------------------------------------------------------------
// Ranking across targets
// ---------------------------------------------------------------------------

/// `list` with `x` put behind everything that costs no more.
pub open spec fn placed(list: Seq<RouteView>, x: RouteView) -> Seq<RouteView>
    decreases list.len(),
{
    if list.len() == 0 || list.last().score <= x.score {
        list.push(x)
    } else {
        placed(list.drop_last(), x).push(list.last())
    }
}

/// `list` with everything of `plan` that can be dialed.
pub open spec fn absorbed(
    list: Seq<RouteView>,
    book: Map<Seq<char>, Vec<(String, String)>>,
    plan: Seq<RouteCandidate>,
    hop_role: Option<Seq<char>>,
    target_role: Seq<char>,
) -> Seq<RouteView>
    decreases plan.len(),
{
    if plan.len() == 0 {
        list
    } else {
        let before = absorbed(list, book, plan.drop_last(), hop_role, target_role);
        match resolution(book, plan.last(), hop_role, target_role) {
            None => before,
            Some(route) => placed(before, route),
        }
    }
}

/// Everything that can be dialed of the plans for several targets, cheapest
/// first; among equals the earlier target and the earlier route win.
pub open spec fn merged(
    book: Map<Seq<char>, Vec<(String, String)>>,
    plans: Seq<Seq<RouteCandidate>>,
    hop_role: Option<Seq<char>>,
    target_role: Seq<char>,
) -> Seq<RouteView>
    decreases plans.len(),
{
    if plans.len() == 0 {
        Seq::empty()
    } else {
        absorbed(
            merged(book, plans.drop_last(), hop_role, target_role),
            book,
            plans.last(),
            hop_role,
            target_role,
        )
    }
}

/// In ascending order of score.
pub open spec fn ascending(list: Seq<RouteView>) -> bool {
    forall|i: int, j: int|
        0 <= i < j < list.len() ==> (#[trigger] list[i]).score <= (#[trigger] list[j]).score
}

proof fn lemma_placed(list: Seq<RouteView>, x: RouteView)
    requires
        ascending(list),
    ensures
        ascending(placed(list, x)),
    decreases list.len(),
{
    if list.len() > 0 && list.last().score > x.score {
        let init = list.drop_last();
        assert(ascending(init)) by {
            assert forall|i: int, j: int| 0 <= i < j < init.len() implies (#[trigger] init[i]).score
                <= (#[trigger] init[j]).score by {
                assert(init[i] == list[i] && init[j] == list[j]);
            }
        }
        lemma_placed(init, x);
        lemma_placed_members(init, x);
        let rest = placed(init, x);
        assert forall|i: int| 0 <= i < rest.len() implies (#[trigger] rest[i]).score
            <= list.last().score by {
            assert(rest.contains(rest[i]));
            if rest[i] != x {
                let j = choose|j: int| 0 <= j < init.len() && init[j] == rest[i];
                assert(list[j] == rest[i]);
            }
        }
    }
}

proof fn lemma_absorbed(
    list: Seq<RouteView>,
    book: Map<Seq<char>, Vec<(String, String)>>,
    plan: Seq<RouteCandidate>,
    hop_role: Option<Seq<char>>,
    target_role: Seq<char>,
)
    requires
        ascending(list),
    ensures
        ascending(absorbed(list, book, plan, hop_role, target_role)),
    decreases plan.len(),
{
    if plan.len() > 0 {
        lemma_absorbed(list, book, plan.drop_last(), hop_role, target_role);
        let before = absorbed(list, book, plan.drop_last(), hop_role, target_role);
        if let Some(route) = resolution(book, plan.last(), hop_role, target_role) {
            lemma_placed(before, route);
        }
    }
}

/// Candidates for any number of targets come out in ascending order of score.
pub proof fn law_candidates_ascend(
    book: Map<Seq<char>, Vec<(String, String)>>,
    plans: Seq<Seq<RouteCandidate>>,
    hop_role: Option<Seq<char>>,
    target_role: Seq<char>,
)
    ensures
        ascending(merged(book, plans, hop_role, target_role)),
    decreases plans.len(),
{
    if plans.len() > 0 {
        law_candidates_ascend(book, plans.drop_last(), hop_role, target_role);
        lemma_absorbed(
            merged(book, plans.drop_last(), hop_role, target_role),
            book,
            plans.last(),
            hop_role,
            target_role,
        );
    }
}

proof fn lemma_placed_at(list: Seq<RouteView>, x: RouteView, i: int)
    requires
        0 <= i <= list.len(),
        forall|j: int| i <= j < list.len() ==> (#[trigger] list[j]).score > x.score,
        i > 0 ==> list[i - 1].score <= x.score,
    ensures
        placed(list, x) == list.insert(i, x),
    decreases list.len(),
{
    if i == list.len() {
        assert(list.insert(i, x) =~= list.push(x));
    } else {
        let init = list.drop_last();
        assert forall|j: int| i <= j < init.len() implies (#[trigger] init[j]).score > x.score by {
            assert(list[j].score > x.score);
        }
        lemma_placed_at(init, x, i);
        assert(list[list.len() - 1].score > x.score);
        assert(list.insert(i, x) =~= init.insert(i, x).push(list.last()));
    }
}

/// The views of a list of routes.
pub open spec fn route_views(routes: Seq<ResolvedRoute>) -> Seq<RouteView> {
    routes.map_values(|r: ResolvedRoute| r@)
}

/// Puts `route` in its place in a ranked list.
fn place(list: &mut Vec<ResolvedRoute>, route: ResolvedRoute)
    ensures
        route_views(final(list)@) == placed(route_views(old(list)@), route@),
{
    let ghost before = route_views(list@);
    let mut i: usize = list.len();
    while i > 0 && list[i - 1].score > route.score
        invariant
            i <= list@.len(),
            list@ == old(list)@,
            before == route_views(list@),
            forall|j: int| i <= j < list@.len() ==> (#[trigger] before[j]).score > route.score,
        decreases i,
    {
        assert(before[i - 1].score == list@[i - 1].score);
        i -= 1;
    }
    proof {
        if i > 0 {
            assert(before[i - 1].score == list@[i - 1].score);
        }
        lemma_placed_at(before, route@, i as int);
    }
    list.insert(i, route);
    assert(route_views(list@) =~= before.insert(i as int, route@));
}

/// The request that plans a route to one target.
pub open spec fn request_for(
    source: Seq<char>,
    target: Seq<char>,
    allowed: Seq<ProtocolId>,
    max_hops: nat,
) -> crate::routing::RequestView {
    crate::routing::RequestView {
        source,
        target,
        allowed: allowed.map_values(|p: ProtocolId| p@),
        max_hops,
    }
}

/// `plans` holds, for each target in turn, a ranking of the routes to it.
pub open spec fn plans_for(
    links: Seq<crate::routing::LinkView>,
    source: Seq<char>,
    targets: Seq<NodeId>,
    allowed: Seq<ProtocolId>,
    max_hops: nat,
    limit: nat,
    plans: Seq<Seq<RouteCandidate>>,
) -> bool {
    &&& plans.len() == targets.len()
    &&& forall|i: int|
        0 <= i < plans.len() ==> crate::routing::ranking(
            DefaultScorer,
            links,
            request_for(source, targets[i]@, allowed, max_hops),
            limit,
            #[trigger] plans[i],
        )
}

/// The first `n` entries, or all of them where there are fewer.
pub open spec fn first_of(list: Seq<RouteView>, n: nat) -> Seq<RouteView> {
    if list.len() <= n {
        list
    } else {
        list.take(n as int)
    }
}

/// `r` is what can be dialed of a ranking of the routes to every target, the
/// best `max_candidates` of it.
pub open spec fn offered(
    links: Seq<crate::routing::LinkView>,
    book: Map<Seq<char>, Vec<(String, String)>>,
    source: Seq<char>,
    targets: Seq<NodeId>,
    allowed: Seq<ProtocolId>,
    max_hops: nat,
    max_candidates: nat,
    hop_role: Option<Seq<char>>,
    target_role: Seq<char>,
    r: Seq<RouteView>,
) -> bool {
    exists|plans: Seq<Seq<RouteCandidate>>| #[trigger]
        plans_for(links, source, targets, allowed, max_hops, max_candidates, plans) && r
            == first_of(merged(book, plans, hop_role, target_role), max_candidates)
}

/// Plans routes to every target and keeps the best `max_candidates` of those
/// that can be dialed, cheapest first across all targets.
///
/// A target that advertises no address under `target_role` yields nothing.
/// With a `hop_role` every intermediate hop needs an address under it; with
/// none, the intermediates are skipped and a route comes down to its target.
pub fn resolve_candidates(
    snapshot: &GraphSnapshot,
    listen_addrs: &AddressBook,
    source: &NodeId,
    targets: &[NodeId],
    allowed_protocols: &[ProtocolId],
    max_hops: usize,
    max_candidates: usize,
    hop_role: Option<&RoleId>,
    target_role: &RoleId,
) -> (r: Vec<ResolvedRoute>)
    ensures
        offered(
            snapshot@.links,
            listen_addrs@,
            source@,
            targets@,
            allowed_protocols@,
            max_hops as nat,
            max_candidates as nat,
            role_view(hop_role),
            target_role@,
            route_views(r@),
        ),
        ascending(route_views(r@)),
        r@.len() <= max_candidates,
        forall|i: int| 0 <= i < r@.len() ==> (#[trigger] r@[i]).hops@.len() > 0,
{
    let planner: RoutePlanner<DefaultScorer> = RoutePlanner::new(DefaultScorer);
    let ghost mut plans: Seq<Seq<RouteCandidate>> = Seq::empty();
    let ghost hr = role_view(hop_role);
    let mut list: Vec<ResolvedRoute> = Vec::new();
    assert(route_views(list@) =~= Seq::<RouteView>::empty());
    let mut t: usize = 0;
    while t < targets.len()
        invariant
            t <= targets@.len(),
            hr == role_view(hop_role),
            planner.scorer == DefaultScorer,
            plans.len() == t,
            forall|i: int|
                0 <= i < t ==> crate::routing::ranking(
                    DefaultScorer,
                    snapshot@.links,
                    request_for(
                        source@,
                        targets@[i]@,
                        allowed_protocols@,
                        max_hops as nat,
                    ),
                    max_candidates as nat,
                    #[trigger] plans[i],
                ),
            route_views(list@) == merged(listen_addrs@, plans, hr, target_role@),
            forall|i: int| 0 <= i < list@.len() ==> (#[trigger] list@[i]).hops@.len() > 0,
        decreases targets@.len() - t,
    {
        let request: RouteRequest = RouteRequest {
            source: source.clone(),
            target: targets[t].clone(),
            allowed_protocols: clone_protocols(allowed_protocols),
            max_hops,
        };
        let planned: Vec<RouteCandidate> = planner.plan(snapshot, &request, max_candidates);
        let ghost before = route_views(list@);
        assert(planned@.take(0) =~= Seq::<RouteCandidate>::empty());
        let mut i: usize = 0;
        while i < planned.len()
            invariant
                i <= planned@.len(),
                hr == role_view(hop_role),
                route_views(list@) == absorbed(
                    before,
                    listen_addrs@,
                    planned@.take(i as int),
                    hr,
                    target_role@,
                ),
                forall|i: int| 0 <= i < list@.len() ==> (#[trigger] list@[i]).hops@.len() > 0,
            decreases planned@.len() - i,
        {
            assert(planned@.take(i + 1).drop_last() =~= planned@.take(i as int));
            assert(planned@.take(i + 1).last() == planned@[i as int]);
            match resolve_route(listen_addrs, &planned[i], hop_role, target_role) {
                None => {},
                Some(route) => {
                    let ghost list0 = list@;
                    assert(route@.hops.len() == route.hops@.len());
                    place(&mut list, route);
                    proof {
                        lemma_placed_hops(list0, route, list@);
                    }
                },
            }
            i += 1;
        }
        proof {
            assert(planned@.take(planned@.len() as int) =~= planned@);
            assert(request@ == request_for(
                source@,
                targets@[t as int]@,
                allowed_protocols@,
                max_hops as nat,
            )) by {
                assert(request@.allowed =~= allowed_protocols@.map_values(|p: ProtocolId| p@));
            }
            let next = plans.push(planned@);
            assert(next.drop_last() =~= plans);
            plans = next;
        }
        t += 1;
    }
    proof {
        law_candidates_ascend(listen_addrs@, plans, hr, target_role@);
        assert(plans_for(
            snapshot@.links,
            source@,
            targets@,
            allowed_protocols@,
            max_hops as nat,
            max_candidates as nat,
            plans,
        ));
    }
    let ghost all = route_views(list@);
    if list.len() > max_candidates {
        list.truncate(max_candidates);
    }
    assert(route_views(list@) =~= first_of(all, max_candidates as nat));
    list
}

proof fn lemma_placed_hops(before: Seq<ResolvedRoute>, route: ResolvedRoute, after: Seq<ResolvedRoute>)
    requires
        route.hops@.len() > 0,
        route_views(after) == placed(route_views(before), route@),
        forall|i: int| 0 <= i < before.len() ==> (#[trigger] before[i]).hops@.len() > 0,
    ensures
        forall|i: int| 0 <= i < after.len() ==> (#[trigger] after[i]).hops@.len() > 0,
{
    lemma_placed_members(route_views(before), route@);
    assert forall|i: int| 0 <= i < after.len() implies (#[trigger] after[i]).hops@.len() > 0 by {
        let x = route_views(after)[i];
        assert(x == after[i]@);
        assert(route_views(after).contains(x));
        if x != route@ {
            assert(route_views(before).contains(x));
            let j = choose|j: int| 0 <= j < before.len() && route_views(before)[j] == x;
            assert(before[j]@ == x);
            assert(before[j].hops@.len() > 0);
            assert(x.hops.len() == before[j].hops@.len());
        }
        assert(x.hops.len() == after[i].hops@.len());
        if x == route@ {
            assert(x.hops.len() == route.hops@.len());
        }
    }
}

proof fn lemma_placed_members(list: Seq<RouteView>, x: RouteView)
    ensures
        forall|y: RouteView| #[trigger] placed(list, x).contains(y) ==> y == x || list.contains(y),
    decreases list.len(),
{
    if list.len() == 0 || list.last().score <= x.score {
        assert forall|y: RouteView| #[trigger] placed(list, x).contains(y) implies y == x
            || list.contains(y) by {
            let i = choose|i: int| 0 <= i < list.push(x).len() && list.push(x)[i] == y;
            if i < list.len() {
                assert(list[i] == y);
            }
        }
    } else {
        let init = list.drop_last();
        lemma_placed_members(init, x);
        assert forall|y: RouteView| #[trigger] placed(list, x).contains(y) implies y == x
            || list.contains(y) by {
            let rest = placed(init, x);
            let i = choose|i: int| 0 <= i < placed(list, x).len() && placed(list, x)[i] == y;
            if i < rest.len() {
                assert(rest[i] == y);
                assert(rest.contains(y));
                if y != x {
                    let j = choose|j: int| 0 <= j < init.len() && init[j] == y;
                    assert(list[j] == y);
                }
            } else {
                assert(list[list.len() - 1] == y);
            }
        }
    }
}

/// Placing loses nothing.
proof fn lemma_placed_keeps(list: Seq<RouteView>, x: RouteView)
    ensures
        placed(list, x).contains(x),
        forall|y: RouteView| #[trigger] list.contains(y) ==> placed(list, x).contains(y),
    decreases list.len(),
{
    let after = placed(list, x);
    if list.len() == 0 || list.last().score <= x.score {
        assert(after[list.len() as int] == x);
        assert forall|y: RouteView| #[trigger] list.contains(y) implies after.contains(y) by {
            assert(after[list.index_of(y)] == y);
        }
    } else {
        let init = list.drop_last();
        let rest = placed(init, x);
        lemma_placed_keeps(init, x);
        assert(after[rest.index_of(x)] == x);
        assert forall|y: RouteView| #[trigger] list.contains(y) implies after.contains(y) by {
            let i = list.index_of(y);
            if i < init.len() {
                assert(init[i] == y);
                assert(init.contains(y));
                assert(after[rest.index_of(y)] == y);
            } else {
                assert(after[rest.len() as int] == y);
            }
        }
    }
}

/// What comes of absorbing a plan was there before or is dialed for it.
proof fn lemma_absorbed_members(
    list: Seq<RouteView>,
    book: Map<Seq<char>, Vec<(String, String)>>,
    plan: Seq<RouteCandidate>,
    hop_role: Option<Seq<char>>,
    target_role: Seq<char>,
    x: RouteView,
) -> (at: int)
    requires
        absorbed(list, book, plan, hop_role, target_role).contains(x),
    ensures
        list.contains(x) || (0 <= at < plan.len() && resolution(
            book,
            plan[at],
            hop_role,
            target_role,
        ) == Some(x)),
    decreases plan.len(),
{
    if plan.len() == 0 {
        0
    } else {
        let before = absorbed(list, book, plan.drop_last(), hop_role, target_role);
        match resolution(book, plan.last(), hop_role, target_role) {
            None => lemma_absorbed_members(
                list,
                book,
                plan.drop_last(),
                hop_role,
                target_role,
                x,
            ),
            Some(route) => {
                lemma_placed_members(before, route);
                if x == route {
                    plan.len() - 1
                } else {
                    lemma_absorbed_members(
                        list,
                        book,
                        plan.drop_last(),
                        hop_role,
                        target_role,
                        x,
                    )
                }
            },
        }
    }
}

/// Absorbing a plan loses nothing of the list and nothing that can be dialed.
proof fn lemma_absorbed_keeps(
    list: Seq<RouteView>,
    book: Map<Seq<char>, Vec<(String, String)>>,
    plan: Seq<RouteCandidate>,
    hop_role: Option<Seq<char>>,
    target_role: Seq<char>,
)
    ensures
        forall|y: RouteView| #[trigger]
            list.contains(y) ==> absorbed(list, book, plan, hop_role, target_role).contains(y),
        forall|j: int|
            #![trigger plan[j]]
            0 <= j < plan.len() ==> (resolution(book, plan[j], hop_role, target_role) matches Some(
                x,
            ) ==> absorbed(list, book, plan, hop_role, target_role).contains(x)),
    decreases plan.len(),
{
    if plan.len() > 0 {
        let init = plan.drop_last();
        let before = absorbed(list, book, init, hop_role, target_role);
        lemma_absorbed_keeps(list, book, init, hop_role, target_role);
        if let Some(route) = resolution(book, plan.last(), hop_role, target_role) {
            lemma_placed_keeps(before, route);
        }
        assert forall|j: int| #![trigger plan[j]] 0 <= j < plan.len() implies (resolution(
            book,
            plan[j],
            hop_role,
            target_role,
        ) matches Some(x) ==> absorbed(list, book, plan, hop_role, target_role).contains(x)) by {
            if j < init.len() {
                assert(init[j] == plan[j]);
            }
        }
    }
}

/// No candidate is invented: each is what is dialed for a planned route to one
/// of the targets.
pub proof fn law_candidates_are_planned(
    book: Map<Seq<char>, Vec<(String, String)>>,
    plans: Seq<Seq<RouteCandidate>>,
    hop_role: Option<Seq<char>>,
    target_role: Seq<char>,
    x: RouteView,
) -> (at: (int, int))
    requires
        merged(book, plans, hop_role, target_role).contains(x),
    ensures
        0 <= at.0 < plans.len(),
        0 <= at.1 < plans[at.0].len(),
        resolution(book, plans[at.0][at.1], hop_role, target_role) == Some(x),
    decreases plans.len(),
{
    if plans.len() == 0 {
        (0, 0)
    } else {
        let init = plans.drop_last();
        let before = merged(book, init, hop_role, target_role);
        let j = lemma_absorbed_members(before, book, plans.last(), hop_role, target_role, x);
        if before.contains(x) {
            let at = law_candidates_are_planned(book, init, hop_role, target_role, x);
            assert(init[at.0] == plans[at.0]);
            at
        } else {
            (plans.len() - 1, j)
        }
    }
}

/// No candidate is lost before the list is cut to its length: whatever can be
/// dialed of a planned route is among the candidates.
pub proof fn law_dialable_plans_are_candidates(
    book: Map<Seq<char>, Vec<(String, String)>>,
    plans: Seq<Seq<RouteCandidate>>,
    hop_role: Option<Seq<char>>,
    target_role: Seq<char>,
    t: int,
    j: int,
)
    requires
        0 <= t < plans.len(),
        0 <= j < plans[t].len(),
        resolution(book, plans[t][j], hop_role, target_role) is Some,
    ensures
        merged(book, plans, hop_role, target_role).contains(
            resolution(book, plans[t][j], hop_role, target_role)->0,
        ),
    decreases plans.len(),
{
    let init = plans.drop_last();
    let before = merged(book, init, hop_role, target_role);
    lemma_absorbed_keeps(before, book, plans.last(), hop_role, target_role);
    if t < init.len() {
        assert(init[t] == plans[t]);
        law_dialable_plans_are_candidates(book, init, hop_role, target_role, t, j);
    } else {
        assert(plans.last()[j] == plans[t][j]);
    }
}

/// A target that can be reached is offered: if there is a route to it, it
/// advertises an address, and so does every node that a link leads to where
/// the hops between are dialed too, then there is a candidate.
pub proof fn law_reachable_targets_are_offered(
    links: Seq<crate::routing::LinkView>,
    book: Map<Seq<char>, Vec<(String, String)>>,
    source: Seq<char>,
    targets: Seq<NodeId>,
    allowed: Seq<ProtocolId>,
    max_hops: nat,
    max_candidates: nat,
    hop_role: Option<Seq<char>>,
    target_role: Seq<char>,
    routes: Seq<RouteView>,
    t: int,
    hops: Seq<Seq<char>>,
    used: Seq<int>,
)
    requires
        offered(
            links,
            book,
            source,
            targets,
            allowed,
            max_hops,
            max_candidates,
            hop_role,
            target_role,
            routes,
        ),
        max_candidates > 0,
        0 <= t < targets.len(),
        source != targets[t]@,
        crate::routing::is_route(
            links,
            request_for(source, targets[t]@, allowed, max_hops),
            hops,
            used,
        ),
        lookup(book, targets[t]@, target_role) is Some,
        hop_role matches Some(role) ==> forall|l: int|
            0 <= l < links.len() ==> lookup(book, (#[trigger] links[l]).to, role) is Some,
    ensures
        routes.len() > 0,
{
    let plans = choose|plans: Seq<Seq<RouteCandidate>>| #[trigger]
        plans_for(links, source, targets, allowed, max_hops, max_candidates, plans) && routes
            == first_of(merged(book, plans, hop_role, target_role), max_candidates);
    let request = request_for(source, targets[t]@, allowed, max_hops);
    let plan = plans[t];
    assert(crate::routing::ranking(DefaultScorer, links, request, max_candidates, plan));
    assert(plan.len() > 0);
    let best = plan[0];
    assert(crate::routing::admitted(DefaultScorer, links, request, best));
    let taken = choose|taken: Seq<int>|
        crate::routing::describes(DefaultScorer, links, request, best, taken);
    let names = best.names();
    let way = names.drop_first();
    assert(taken.len() > 0);
    assert(way.last() == targets[t]@);
    if let Some(role) = hop_role {
        assert forall|i: int| 0 <= i < way.len() - 1 implies lookup(
            book,
            #[trigger] way[i],
            role,
        ) is Some by {
            assert(crate::routing::bridges(links, request.allowed, names, taken, i));
            assert(links[taken[i]].to == way[i]);
        }
    }
    assert(dialable(book, way, hop_role, target_role));
    law_dialable_plans_are_candidates(book, plans, hop_role, target_role, t, 0);
}

/// A copy of a list of protocols.
fn clone_protocols(list: &[ProtocolId]) -> (r: Vec<ProtocolId>)
    ensures
        r@.len() == list@.len(),
        forall|i: int| 0 <= i < r@.len() ==> (#[trigger] r@[i])@ == list@[i]@,
{
    let mut r: Vec<ProtocolId> = Vec::new();
    let mut i: usize = 0;
    while i < list.len()
        invariant
            i <= list@.len(),
            r@.len() == i,
            forall|j: int| 0 <= j < i ==> (#[trigger] r@[j])@ == list@[j]@,
        decreases list@.len() - i,
    {
        r.push(list[i].clone());
        i += 1;
    }
    r
}

// ---------------------------------------------------------------------------
// What addresses and candidates are held to
// ---------------------------------------------------------------------------

/// The address of a node is that of its first entry under the role, and it has
/// one exactly when some entry bears the role.
pub proof fn law_the_first_address_counts(
    book: Map<Seq<char>, Vec<(String, String)>>,
    node: Seq<char>,
    role: Seq<char>,
) -> (i: int)
    ensures
        lookup(book, node, role) is Some <==> book.dom().contains(node) && exists|j: int|
            0 <= j < book[node]@.len() && (#[trigger] book[node]@[j]).1@ == role,
        lookup(book, node, role) matches Some(addr) ==> {
            &&& 0 <= i < book[node]@.len()
            &&& book[node]@[i].1@ == role
            &&& book[node]@[i].0@ == addr
            &&& forall|j: int| 0 <= j < i ==> (#[trigger] book[node]@[j]).1@ != role
        },
{
    let entries = book[node]@;
    if book.dom().contains(node) && exists|j: int|
        0 <= j < entries.len() && (#[trigger] entries[j]).1@ == role {
        let any = choose|j: int| 0 <= j < entries.len() && (#[trigger] entries[j]).1@ == role;
        let first = lemma_first_under(entries, role, any);
        lemma_address_from(entries, role, first);
        assert(entries.skip(first)[0] == entries[first]);
        first
    } else {
        if book.dom().contains(node) {
            lemma_address_from(entries, role, entries.len() as int);
        }
        0
    }
}

proof fn lemma_first_under(entries: Seq<(String, String)>, role: Seq<char>, any: int) -> (i: int)
    requires
        0 <= any < entries.len(),
        entries[any].1@ == role,
    ensures
        0 <= i < entries.len(),
        entries[i].1@ == role,
        forall|j: int| 0 <= j < i ==> (#[trigger] entries[j]).1@ != role,
    decreases any,
{
    if exists|j: int| 0 <= j < any && (#[trigger] entries[j]).1@ == role {
        let j = choose|j: int| 0 <= j < any && (#[trigger] entries[j]).1@ == role;
        lemma_first_under(entries, role, j)
    } else {
        any
    }
}

/// What is dialed for a planned route is every node behind the source, in
/// order, each at its address: the last under the target's role, the others
/// under the hops'. Where the hops have no role, only the last is dialed. The
/// route can be dialed exactly when each of these nodes has its address, and it
/// keeps its score.
pub proof fn law_every_hop_is_dialed(
    book: Map<Seq<char>, Vec<(String, String)>>,
    planned: RouteCandidate,
    hop_role: Option<&RoleId>,
    target_role: RoleId,
    route: ResolvedRoute,
)
    requires
        resolution(book, planned, role_view(hop_role), target_role@) == Some(route@),
    ensures
        planned.hops@.len() >= 2,
        route.score == planned.score,
        route.hops@.len() == if hop_role is Some {
            planned.hops@.len() - 1
        } else {
            1
        },
        ({
            let last = route.hops@[route.hops@.len() - 1];
            &&& last.node_id.0@ == planned.hops@[planned.hops@.len() - 1].0@
            &&& lookup(book, last.node_id.0@, target_role.0@) == Some(last.addr@)
        }),
        forall|i: int|
            0 <= i < route.hops@.len() - 1 ==> {
                &&& (#[trigger] route.hops@[i]).node_id.0@ == planned.hops@[i + 1].0@
                &&& hop_role matches Some(role) && lookup(
                    book,
                    route.hops@[i].node_id.0@,
                    role.0@,
                ) == Some(route.hops@[i].addr@)
            },
{
    let names = planned.names();
    let way = names.drop_first();
    let views = route.hops@.map_values(|h: ResolvedHop| h@);
    assert(route@.hops == views);
    assert(names.len() == planned.hops@.len());
    assert forall|i: int| 0 <= i < way.len() implies #[trigger] way[i] == planned.hops@[i
        + 1].0@ by {
        assert(names[i + 1] == planned.hops@[i + 1]@);
    }
    assert(views.len() == route.hops@.len());
    let n = route.hops@.len() as int;
    assert(views[n - 1] == route.hops@[n - 1]@);
    assert(way.last() == way[way.len() - 1]);
    assert forall|i: int| 0 <= i < n - 1 implies {
        &&& (#[trigger] route.hops@[i]).node_id.0@ == planned.hops@[i + 1].0@
        &&& hop_role matches Some(role) && lookup(book, route.hops@[i].node_id.0@, role.0@)
            == Some(route.hops@[i].addr@)
    } by {
        assert(views[i] == route.hops@[i]@);
        assert(way[i] == planned.hops@[i + 1].0@);
    }
}

/// A planned route can be dialed exactly when each node that is to be dialed
/// has an entry under its role.
pub proof fn law_what_can_be_dialed(
    book: Map<Seq<char>, Vec<(String, String)>>,
    planned: RouteCandidate,
    hop_role: Option<&RoleId>,
    target_role: RoleId,
)
    ensures
        resolution(book, planned, role_view(hop_role), target_role@) is Some <==> {
            let n = planned.hops@.len();
            &&& n >= 2
            &&& lookup(book, planned.hops@[n - 1].0@, target_role.0@) is Some
            &&& (hop_role matches Some(role) ==> forall|i: int|
                1 <= i < n - 1 ==> lookup(
                    book,
                    (#[trigger] planned.hops@[i]).0@,
                    role.0@,
                ) is Some)
        },
{
    let names = planned.names();
    let way = names.drop_first();
    let n = planned.hops@.len() as int;
    assert(names.len() == n);
    if n >= 2 {
        assert forall|i: int| 0 <= i < way.len() implies #[trigger] way[i] == planned.hops@[i
            + 1].0@ by {
            assert(names[i + 1] == planned.hops@[i + 1]@);
        }
        assert(way.last() == planned.hops@[n - 1].0@);
        if let Some(role) = hop_role {
            if forall|i: int|
                1 <= i < n - 1 ==> lookup(
                    book,
                    (#[trigger] planned.hops@[i]).0@,
                    role.0@,
                ) is Some {
                assert forall|i: int| 0 <= i < way.len() - 1 implies lookup(
                    book,
                    #[trigger] way[i],
                    role.0@,
                ) is Some by {
                    assert(lookup(book, planned.hops@[i + 1].0@, role.0@) is Some);
                }
            }
            if dialable(book, way, role_view(hop_role), target_role@) {
                assert forall|i: int| 1 <= i < n - 1 implies lookup(
                    book,
                    (#[trigger] planned.hops@[i]).0@,
                    role.0@,
                ) is Some by {
                    assert(way[i - 1] == planned.hops@[i].0@);
                }
            }
        }
    }
}

/// Where `x` goes in a ranked list.
proof fn lemma_place_of(list: Seq<RouteView>, x: RouteView) -> (i: int)
    requires
        forall|a: int, b: int|
            0 <= a < b < list.len() ==> (#[trigger] list[a]).score <= (#[trigger] list[b]).score,
    ensures
        0 <= i <= list.len(),
        placed(list, x) == list.insert(i, x),
        forall|j: int| 0 <= j < i ==> (#[trigger] list[j]).score <= x.score,
        forall|j: int| i <= j < list.len() ==> (#[trigger] list[j]).score > x.score,
    decreases list.len(),
{
    if list.len() == 0 || list.last().score <= x.score {
        assert(list.insert(list.len() as int, x) =~= list.push(x));
        list.len() as int
    } else {
        let init = list.drop_last();
        let i = lemma_place_of(init, x);
        assert(list.insert(i, x) =~= init.insert(i, x).push(list.last()));
        assert forall|j: int| i <= j < list.len() implies (#[trigger] list[j]).score > x.score by {
            if j < init.len() {
                assert(init[j] == list[j]);
            }
        }
        assert forall|j: int| 0 <= j < i implies (#[trigger] list[j]).score <= x.score by {
            assert(init[j] == list[j]);
        }
        i
    }
}

/// `list` is what can be dialed of the plans up to, and not with, route `n` of
/// plan `m`: `from` says for each entry which plan and which of its routes it
/// is. Cheaper comes first, and among equals the earlier plan and the earlier
/// route.
spec fn sorted_by_origin(
    list: Seq<RouteView>,
    from: Seq<(int, int)>,
    book: Map<Seq<char>, Vec<(String, String)>>,
    plans: Seq<Seq<RouteCandidate>>,
    hop_role: Option<Seq<char>>,
    target_role: Seq<char>,
    m: int,
    n: int,
) -> bool {
    &&& from.len() == list.len()
    &&& forall|i: int|
        0 <= i < list.len() ==> {
            let at = #[trigger] from[i];
            &&& 0 <= at.0 < plans.len()
            &&& 0 <= at.1 < plans[at.0].len()
            &&& at.0 < m || (at.0 == m && at.1 < n)
            &&& resolution(book, plans[at.0][at.1], hop_role, target_role) == Some(list[i])
        }
    &&& forall|i: int, j: int|
        0 <= i < j < list.len() ==> (#[trigger] list[i]).score < (#[trigger] list[j]).score || (
        list[i].score == list[j].score && (from[i].0 < from[j].0 || (from[i].0 == from[j].0
            && from[i].1 < from[j].1)))
    &&& forall|t: int, k: int|
        0 <= t < plans.len() && 0 <= k < plans[t].len() && (t < m || (t == m && k < n))
            && resolution(book, #[trigger] plans[t][k], hop_role, target_role) is Some
            ==> from.contains((t, k))
}

#[verifier::rlimit(60)]
#[verifier::spinoff_prover]
proof fn lemma_absorb_origin(
    list: Seq<RouteView>,
    from: Seq<(int, int)>,
    book: Map<Seq<char>, Vec<(String, String)>>,
    plans: Seq<Seq<RouteCandidate>>,
    hop_role: Option<Seq<char>>,
    target_role: Seq<char>,
    m: int,
    n: int,
) -> (after: Seq<(int, int)>)
    requires
        0 <= m < plans.len(),
        0 <= n <= plans[m].len(),
        sorted_by_origin(list, from, book, plans, hop_role, target_role, m, 0),
    ensures
        sorted_by_origin(
            absorbed(list, book, plans[m].take(n), hop_role, target_role),
            after,
            book,
            plans,
            hop_role,
            target_role,
            m,
            n,
        ),
    decreases n,
{
    let plan = plans[m].take(n);
    if n == 0 {
        from
    } else {
        let init = plans[m].take(n - 1);
        assert(plan.drop_last() =~= init);
        assert(plan.last() == plans[m][n - 1]);
        let before = absorbed(list, book, init, hop_role, target_role);
        let so_far = lemma_absorb_origin(
            list,
            from,
            book,
            plans,
            hop_role,
            target_role,
            m,
            n - 1,
        );
        match resolution(book, plans[m][n - 1], hop_role, target_role) {
            None => {
                assert forall|t: int, k: int|
                    0 <= t < plans.len() && 0 <= k < plans[t].len() && (t < m || (t == m && k < n))
                        && resolution(
                        book,
                        #[trigger] plans[t][k],
                        hop_role,
                        target_role,
                    ) is Some implies so_far.contains((t, k)) by {
                    assert(t < m || k < n - 1);
                }
                so_far
            },
            Some(x) => {
                let i = lemma_place_of(before, x);
                let after = so_far.insert(i, (m, n - 1));
                let now = before.insert(i, x);
                assert forall|a: int, b: int| 0 <= a < b < now.len() implies (
                #[trigger] now[a]).score < (#[trigger] now[b]).score || (now[a].score
                    == now[b].score && (after[a].0 < after[b].0 || (after[a].0 == after[b].0
                    && after[a].1 < after[b].1))) by {
                    let oa = if a < i { a } else { a - 1 };
                    let ob = if b < i { b } else { b - 1 };
                    if a == i {
                        assert(now[b] == before[ob]);
                    } else if b == i {
                        assert(now[a] == before[oa]);
                        assert(after[a] == so_far[oa]);
                    } else {
                        assert(now[a] == before[oa] && now[b] == before[ob]);
                        assert(after[a] == so_far[oa] && after[b] == so_far[ob]);
                    }
                }
                assert forall|j: int| 0 <= j < now.len() implies {
                    let at = #[trigger] after[j];
                    &&& 0 <= at.0 < plans.len()
                    &&& 0 <= at.1 < plans[at.0].len()
                    &&& at.0 < m || (at.0 == m && at.1 < n)
                    &&& resolution(book, plans[at.0][at.1], hop_role, target_role) == Some(now[j])
                } by {
                    if j < i {
                        assert(after[j] == so_far[j]);
                    } else if j > i {
                        assert(after[j] == so_far[j - 1]);
                    }
                }
                assert forall|t: int, k: int|
                    0 <= t < plans.len() && 0 <= k < plans[t].len() && (t < m || (t == m && k < n))
                        && resolution(
                        book,
                        #[trigger] plans[t][k],
                        hop_role,
                        target_role,
                    ) is Some implies after.contains((t, k)) by {
                    if t == m && k == n - 1 {
                        assert(after[i] == (t, k));
                    } else {
                        let p = so_far.index_of((t, k));
                        if p < i {
                            assert(after[p] == (t, k));
                        } else {
                            assert(after[p + 1] == (t, k));
                        }
                    }
                }
                after
            },
        }
    }
}

/// The candidates before the list is cut are exactly what can be dialed of the
/// plans: each is one route of one plan, and each route that can be dialed is
/// there. Cheaper comes first; among equals the plan of the earlier target, and
/// of one plan the earlier route.
pub proof fn law_candidates_are_in_order(
    book: Map<Seq<char>, Vec<(String, String)>>,
    plans: Seq<Seq<RouteCandidate>>,
    hop_role: Option<Seq<char>>,
    target_role: Seq<char>,
) -> (from: Seq<(int, int)>)
    ensures
        ({
            let list = merged(book, plans, hop_role, target_role);
            &&& from.len() == list.len()
            &&& forall|i: int|
                0 <= i < list.len() ==> {
                    let at = #[trigger] from[i];
                    &&& 0 <= at.0 < plans.len()
                    &&& 0 <= at.1 < plans[at.0].len()
                    &&& resolution(book, plans[at.0][at.1], hop_role, target_role) == Some(list[i])
                }
            &&& forall|i: int, j: int|
                0 <= i < j < list.len() ==> (#[trigger] list[i]).score < (#[trigger] list[j]).score
                    || (list[i].score == list[j].score && (from[i].0 < from[j].0 || (from[i].0
                    == from[j].0 && from[i].1 < from[j].1)))
            &&& forall|t: int, k: int|
                0 <= t < plans.len() && 0 <= k < plans[t].len() && resolution(
                    book,
                    #[trigger] plans[t][k],
                    hop_role,
                    target_role,
                ) is Some ==> from.contains((t, k))
        }),
{
    lemma_merge_origin(book, plans, hop_role, target_role, plans.len() as int)
}

proof fn lemma_merge_origin(
    book: Map<Seq<char>, Vec<(String, String)>>,
    plans: Seq<Seq<RouteCandidate>>,
    hop_role: Option<Seq<char>>,
    target_role: Seq<char>,
    m: int,
) -> (from: Seq<(int, int)>)
    requires
        0 <= m <= plans.len(),
    ensures
        sorted_by_origin(
            merged(book, plans.take(m), hop_role, target_role),
            from,
            book,
            plans,
            hop_role,
            target_role,
            m,
            0,
        ),
        m == plans.len() ==> plans.take(m) == plans,
    decreases m,
{
    if m == plans.len() {
        assert(plans.take(m) =~= plans);
    }
    if m == 0 {
        Seq::empty()
    } else {
        let init = plans.take(m).drop_last();
        assert(init =~= plans.take(m - 1));
        assert(plans.take(m).last() == plans[m - 1]);
        let list = merged(book, init, hop_role, target_role);
        let before = lemma_merge_origin(book, plans, hop_role, target_role, m - 1);
        let n = plans[m - 1].len() as int;
        assert(plans[m - 1].take(n) =~= plans[m - 1]);
        let from = lemma_absorb_origin(
            list,
            before,
            book,
            plans,
            hop_role,
            target_role,
            m - 1,
            n,
        );
        from
    }
}

/// The routes that are offered are no more than asked for, cheapest first, and
/// each ends at one of the targets, at the address that it advertises.
pub proof fn law_offers_lead_to_targets(
    snapshot: GraphSnapshot,
    book: AddressBook,
    source: NodeId,
    targets: Seq<NodeId>,
    allowed: Seq<ProtocolId>,
    max_hops: usize,
    max_candidates: usize,
    hop_role: Option<&RoleId>,
    target_role: RoleId,
    r: Seq<ResolvedRoute>,
)
    requires
        offered(
            snapshot@.links,
            book@,
            source@,
            targets,
            allowed,
            max_hops as nat,
            max_candidates as nat,
            role_view(hop_role),
            target_role@,
            route_views(r),
        ),
    ensures
        r.len() <= max_candidates,
        forall|i: int, j: int|
            0 <= i < j < r.len() ==> (#[trigger] r[i]).score <= (#[trigger] r[j]).score,
        forall|i: int|
            0 <= i < r.len() ==> {
                let n = (#[trigger] r[i]).hops@.len();
                &&& 1 <= n <= max_hops
                &&& hop_role is None ==> n == 1
                &&& exists|t: int|
                    0 <= t < targets.len() && (#[trigger] targets[t]).0@ == r[i].hops@[n
                        - 1].node_id.0@
                &&& lookup(book@, r[i].hops@[n - 1].node_id.0@, target_role.0@) == Some(
                    r[i].hops@[n - 1].addr@,
                )
                &&& forall|h: int|
                    0 <= h < n - 1 ==> (hop_role matches Some(role) && lookup(
                        book@,
                        (#[trigger] r[i].hops@[h]).node_id.0@,
                        role.0@,
                    ) == Some(r[i].hops@[h].addr@))
            },
{
    let hr = role_view(hop_role);
    let links = snapshot@.links;
    let views = route_views(r);
    let plans = choose|plans: Seq<Seq<RouteCandidate>>| #[trigger]
        plans_for(
            links,
            source@,
            targets,
            allowed,
            max_hops as nat,
            max_candidates as nat,
            plans,
        ) && views == first_of(
            merged(book@, plans, hr, target_role@),
            max_candidates as nat,
        );
    let all = merged(book@, plans, hr, target_role@);
    let from = law_candidates_are_in_order(book@, plans, hr, target_role@);
    assert(views.len() == r.len());
    assert forall|i: int, j: int| 0 <= i < j < r.len() implies (#[trigger] r[i]).score <= (
    #[trigger] r[j]).score by {
        assert(views[i] == r[i]@ && views[j] == r[j]@);
        assert(all[i].score <= all[j].score);
    }
    assert forall|i: int| 0 <= i < r.len() implies {
        let n = (#[trigger] r[i]).hops@.len();
        &&& 1 <= n <= max_hops
        &&& hop_role is None ==> n == 1
        &&& exists|t: int|
            0 <= t < targets.len() && (#[trigger] targets[t]).0@ == r[i].hops@[n - 1].node_id.0@
        &&& lookup(book@, r[i].hops@[n - 1].node_id.0@, target_role.0@) == Some(
            r[i].hops@[n - 1].addr@,
        )
        &&& forall|h: int|
            0 <= h < n - 1 ==> (hop_role matches Some(role) && lookup(
                book@,
                (#[trigger] r[i].hops@[h]).node_id.0@,
                role.0@,
            ) == Some(r[i].hops@[h].addr@))
    } by {
        assert(views[i] == r[i]@);
        assert(all[i] == views[i]);
        let at = from[i];
        let planned = plans[at.0][at.1];
        law_every_hop_is_dialed(book@, planned, hop_role, target_role, r[i]);
        let request = request_for(source@, targets[at.0]@, allowed, max_hops as nat);
        assert(crate::routing::ranking(
            DefaultScorer,
            links,
            request,
            max_candidates as nat,
            plans[at.0],
        ));
        assert(crate::routing::admitted(DefaultScorer, links, request, planned));
        let used = choose|used: Seq<int>|
            crate::routing::describes(DefaultScorer, links, request, planned, used);
        let names = planned.names();
        assert(names.len() == planned.hops@.len());
        assert(names[names.len() - 1] == planned.hops@[planned.hops@.len() - 1]@);
        assert(targets[at.0].0@ == r[i].hops@[r[i].hops@.len() - 1].node_id.0@);
    }
}

/// A route that is admitted can be dialed where the target and, if they are
/// dialed too, the nodes that links lead to have addresses.
proof fn lemma_admitted_is_dialable(
    snapshot: GraphSnapshot,
    book: Map<Seq<char>, Vec<(String, String)>>,
    request: crate::routing::RequestView,
    hop_role: Option<Seq<char>>,
    target_role: Seq<char>,
    best: RouteCandidate,
)
    requires
        crate::routing::admitted(DefaultScorer, snapshot@.links, request, best),
        request.source != request.target,
        lookup(book, request.target, target_role) is Some,
        hop_role matches Some(role) ==> forall|l: int|
            0 <= l < snapshot.links@.len() ==> lookup(
                book,
                (#[trigger] snapshot.links@[l]).to.0@,
                role,
            ) is Some,
    ensures
        resolution(book, best, hop_role, target_role) is Some,
        resolution(book, best, hop_role, target_role)->0.score == best.score,
{
    let links = snapshot@.links;
    let taken = choose|taken: Seq<int>|
        crate::routing::describes(DefaultScorer, links, request, best, taken);
    let names = best.names();
    assert(taken.len() > 0);
    let way = names.drop_first();
    assert(way.last() == request.target);
    if let Some(role) = hop_role {
        assert forall|i: int| 0 <= i < way.len() - 1 implies lookup(
            book,
            #[trigger] way[i],
            role,
        ) is Some by {
            assert(crate::routing::bridges(links, request.allowed, names, taken, i));
            assert(links == snapshot.links@.map_values(|l: crate::routing::Link| l@));
            assert(links[taken[i]] == snapshot.links@[taken[i]]@);
            assert(snapshot.links@[taken[i]].to.0@ == way[i]);
        }
    }
    assert(dialable(book, way, hop_role, target_role));
}

/// The best way to a target is offered.
pub proof fn lemma_best_way(
    snapshot: GraphSnapshot,
    book: Map<Seq<char>, Vec<(String, String)>>,
    source: NodeId,
    targets: Seq<NodeId>,
    allowed: Seq<ProtocolId>,
    max_hops: usize,
    max_candidates: usize,
    hop_role: Option<Seq<char>>,
    target_role: Seq<char>,
    r: Seq<ResolvedRoute>,
    t: int,
    hops: Seq<Seq<char>>,
    used: Seq<int>,
)
    requires
        offered(
            snapshot@.links,
            book,
            source@,
            targets,
            allowed,
            max_hops as nat,
            max_candidates as nat,
            hop_role,
            target_role,
            route_views(r),
        ),
        max_candidates > 0,
        0 <= t < targets.len(),
        source.0@ != targets[t].0@,
        lookup(book, targets[t].0@, target_role) is Some,
        hop_role matches Some(role) ==> forall|l: int|
            0 <= l < snapshot.links@.len() ==> lookup(
                book,
                (#[trigger] snapshot.links@[l]).to.0@,
                role,
            ) is Some,
        used.len() <= max_hops,
        used.len() <= 32,
        hops.len() == used.len() + 1,
        hops[0] == source.0@,
        hops[used.len() as int] == targets[t].0@,
        forall|i: int, j: int| 0 <= i < j < hops.len() ==> hops[i] != hops[j],
        forall|i: int|
            0 <= i < used.len() ==> {
                let k = #[trigger] used[i];
                &&& 0 <= k < snapshot.links@.len()
                &&& snapshot.links@[k].from.0@ == hops[i]
                &&& snapshot.links@[k].to.0@ == hops[i + 1]
                &&& snapshot.links@[k].reachable
                &&& allowed.len() == 0 || exists|p: int|
                    0 <= p < allowed.len() && (#[trigger] allowed[p]).0@
                        == snapshot.links@[k].protocol.0@
            },
    ensures
        r.len() > 0,
        r[0].score <= used.fold_left(
            0nat,
            |sum: nat, k: int| (sum + DefaultScorer.cost(snapshot.links@[k]@)) as nat,
        ),
{
    let links = snapshot@.links;
    let views = route_views(r);
    let plans = choose|plans: Seq<Seq<RouteCandidate>>| #[trigger]
        plans_for(
            links,
            source@,
            targets,
            allowed,
            max_hops as nat,
            max_candidates as nat,
            plans,
        ) && views == first_of(
            merged(book, plans, hop_role, target_role),
            max_candidates as nat,
        );
    let request = request_for(source@, targets[t]@, allowed, max_hops as nat);
    let plan = plans[t];
    assert(crate::routing::ranking(DefaultScorer, links, request, max_candidates as nat, plan));
    crate::routing::lemma_short_way(
        DefaultScorer,
        snapshot,
        request,
        allowed,
        max_candidates as nat,
        plan,
        hops,
        used,
    );
    let best = plan[0];
    assert(crate::routing::admitted(DefaultScorer, links, request, best));
    lemma_admitted_is_dialable(snapshot, book, request, hop_role, target_role, best);
    let all = merged(book, plans, hop_role, target_role);
    let from = law_candidates_are_in_order(book, plans, hop_role, target_role);
    assert(plans[t][0] == best);
    assert(from.contains((t, 0)));
    let at = from.index_of((t, 0));
    assert(all[at].score == best.score);
    if at > 0 {
        assert(all[0].score <= all[at].score);
    }
    assert(views[0] == all[0]);
    assert(views.len() == r.len());
    assert(views[0] == r[0]@);
}

/// What can be reached is offered, at the best price: for any loop-free way
/// over usable links from the source to a target that advertises an address,
/// no longer than asked for, there is a candidate, and the first one costs no
/// more than the way. Where the hops are dialed too, this asks for an address
/// of every node that a link leads to.
pub proof fn law_the_best_way_is_offered(
    snapshot: GraphSnapshot,
    book: AddressBook,
    source: NodeId,
    targets: Seq<NodeId>,
    allowed: Seq<ProtocolId>,
    max_hops: usize,
    max_candidates: usize,
    hop_role: Option<&RoleId>,
    target_role: RoleId,
    r: Seq<ResolvedRoute>,
    t: int,
    hops: Seq<Seq<char>>,
    used: Seq<int>,
)
    requires
        offered(
            snapshot@.links,
            book@,
            source@,
            targets,
            allowed,
            max_hops as nat,
            max_candidates as nat,
            role_view(hop_role),
            target_role@,
            route_views(r),
        ),
        max_candidates > 0,
        0 <= t < targets.len(),
        source.0@ != targets[t].0@,
        lookup(book@, targets[t].0@, target_role.0@) is Some,
        hop_role matches Some(role) ==> forall|l: int|
            0 <= l < snapshot.links@.len() ==> lookup(
                book@,
                (#[trigger] snapshot.links@[l]).to.0@,
                role.0@,
            ) is Some,
        used.len() <= max_hops,
        used.len() <= 32,
        hops.len() == used.len() + 1,
        hops[0] == source.0@,
        hops[used.len() as int] == targets[t].0@,
        forall|i: int, j: int| 0 <= i < j < hops.len() ==> hops[i] != hops[j],
        forall|i: int|
            0 <= i < used.len() ==> {
                let k = #[trigger] used[i];
                &&& 0 <= k < snapshot.links@.len()
                &&& snapshot.links@[k].from.0@ == hops[i]
                &&& snapshot.links@[k].to.0@ == hops[i + 1]
                &&& snapshot.links@[k].reachable
                &&& allowed.len() == 0 || exists|p: int|
                    0 <= p < allowed.len() && (#[trigger] allowed[p]).0@
                        == snapshot.links@[k].protocol.0@
            },
    ensures
        r.len() > 0,
        r[0].score <= used.fold_left(
            0nat,
            |sum: nat, k: int| (sum + DefaultScorer.cost(snapshot.links@[k]@)) as nat,
        ),
{
    lemma_best_way(
        snapshot,
        book@,
        source,
        targets,
        allowed,
        max_hops,
        max_candidates,
        role_view(hop_role),
        target_role@,
        r,
        t,
        hops,
        used,
    );
}

proof fn lemma_many(from: Seq<(int, int)>, pairs: Seq<(int, int)>)
    requires
        pairs.no_duplicates(),
        forall|i: int| 0 <= i < pairs.len() ==> from.contains(#[trigger] pairs[i]),
    ensures
        pairs.len() <= from.len(),
{
    pairs.unique_seq_to_set();
    from.lemma_cardinality_of_set();
    assert(pairs.to_set().subset_of(from.to_set())) by {
        assert forall|p: (int, int)| pairs.to_set().contains(p) implies from.to_set().contains(
            p,
        ) by {
            let i = pairs.index_of(p);
            assert(from.contains(pairs[i]));
        }
    }
    vstd::set_lib::lemma_len_subset(pairs.to_set(), from.to_set());
}

/// Where a way stands in the plan of its target: at `k`, or nowhere, and then
/// the plan is full of routes that cost no more.
proof fn lemma_way_stands(
    snapshot: GraphSnapshot,
    book: Map<Seq<char>, Vec<(String, String)>>,
    request: crate::routing::RequestView,
    allowed: Seq<ProtocolId>,
    max_candidates: usize,
    hop_role: Option<Seq<char>>,
    target_role: Seq<char>,
    plan: Seq<RouteCandidate>,
    hops: Seq<Seq<char>>,
    used: Seq<int>,
) -> (k: int)
    requires
        crate::routing::ranking(
            DefaultScorer,
            snapshot@.links,
            request,
            max_candidates as nat,
            plan,
        ),
        request.allowed == allowed.map_values(|p: ProtocolId| p@),
        request.source != request.target,
        max_candidates > 0,
        lookup(book, request.target, target_role) is Some,
        hop_role matches Some(role) ==> forall|l: int|
            0 <= l < snapshot.links@.len() ==> lookup(
                book,
                (#[trigger] snapshot.links@[l]).to.0@,
                role,
            ) is Some,
        used.len() <= request.max_hops,
        used.len() <= 32,
        hops.len() == used.len() + 1,
        hops[0] == request.source,
        hops[used.len() as int] == request.target,
        forall|i: int, j: int| 0 <= i < j < hops.len() ==> hops[i] != hops[j],
        forall|i: int|
            0 <= i < used.len() ==> {
                let k = #[trigger] used[i];
                &&& 0 <= k < snapshot.links@.len()
                &&& snapshot.links@[k].from.0@ == hops[i]
                &&& snapshot.links@[k].to.0@ == hops[i + 1]
                &&& snapshot.links@[k].reachable
                &&& allowed.len() == 0 || exists|p: int|
                    0 <= p < allowed.len() && (#[trigger] allowed[p]).0@
                        == snapshot.links@[k].protocol.0@
            },
    ensures
        forall|j: int|
            0 <= j < plan.len() ==> resolution(
                book,
                #[trigger] plan[j],
                hop_role,
                target_role,
            ) is Some,
        ({
            let cost = used.fold_left(
                0nat,
                |sum: nat, k: int| (sum + DefaultScorer.cost(snapshot.links@[k]@)) as nat,
            );
            if 0 <= k < plan.len() {
                plan[k].names() == hops && plan[k].score <= cost
            } else {
                plan.len() == (if max_candidates < 32 {
                    max_candidates as int
                } else {
                    32
                }) && forall|j: int| 0 <= j < plan.len() ==> (#[trigger] plan[j]).score <= cost
            }
        }),
{
    crate::routing::lemma_short_way(
        DefaultScorer,
        snapshot,
        request,
        allowed,
        max_candidates as nat,
        plan,
        hops,
        used,
    );
    let cost = used.fold_left(
        0nat,
        |sum: nat, k: int| (sum + DefaultScorer.cost(snapshot.links@[k]@)) as nat,
    );
    assert forall|j: int| 0 <= j < plan.len() implies resolution(
        book,
        #[trigger] plan[j],
        hop_role,
        target_role,
    ) is Some by {
        assert(crate::routing::admitted(DefaultScorer, snapshot@.links, request, plan[j]));
        lemma_admitted_is_dialable(snapshot, book, request, hop_role, target_role, plan[j]);
    }
    if exists|j: int|
        0 <= j < plan.len() && plan[j].score <= cost && (#[trigger] plan[j]).hops@.len()
            == hops.len() && forall|i: int|
            0 <= i < hops.len() ==> (#[trigger] plan[j].hops@[i]).0@ == hops[i] {
        let j = choose|j: int|
            0 <= j < plan.len() && plan[j].score <= cost && (#[trigger] plan[j]).hops@.len()
                == hops.len() && forall|i: int|
                0 <= i < hops.len() ==> (#[trigger] plan[j].hops@[i]).0@ == hops[i];
        let names = plan[j].names();
        assert forall|i: int| 0 <= i < hops.len() implies names[i] == hops[i] by {
            assert(names[i] == plan[j].hops@[i]@);
            assert(plan[j].hops@[i].0@ == hops[i]);
        }
        assert(names =~= hops);
        j
    } else {
        -1
    }
}

/// No way is left out for a dearer one: a way to a target stands among the
/// candidates, at its price or less, unless there are as many as were asked
/// for, or 32, that cost no more.
#[verifier::rlimit(60)]
#[verifier::spinoff_prover]
pub proof fn law_no_way_is_left_out_for_a_dearer_one(
    snapshot: GraphSnapshot,
    book: AddressBook,
    source: NodeId,
    targets: Seq<NodeId>,
    allowed: Seq<ProtocolId>,
    max_hops: usize,
    max_candidates: usize,
    hop_role: Option<&RoleId>,
    target_role: RoleId,
    r: Seq<ResolvedRoute>,
    t: int,
    hops: Seq<Seq<char>>,
    used: Seq<int>,
) -> (at: int)
    requires
        offered(
            snapshot@.links,
            book@,
            source@,
            targets,
            allowed,
            max_hops as nat,
            max_candidates as nat,
            role_view(hop_role),
            target_role@,
            route_views(r),
        ),
        max_candidates > 0,
        0 <= t < targets.len(),
        source.0@ != targets[t].0@,
        lookup(book@, targets[t].0@, target_role.0@) is Some,
        hop_role matches Some(role) ==> forall|l: int|
            0 <= l < snapshot.links@.len() ==> lookup(
                book@,
                (#[trigger] snapshot.links@[l]).to.0@,
                role.0@,
            ) is Some,
        used.len() <= max_hops,
        used.len() <= 32,
        hops.len() == used.len() + 1,
        hops[0] == source.0@,
        hops[used.len() as int] == targets[t].0@,
        forall|i: int, j: int| 0 <= i < j < hops.len() ==> hops[i] != hops[j],
        forall|i: int|
            0 <= i < used.len() ==> {
                let k = #[trigger] used[i];
                &&& 0 <= k < snapshot.links@.len()
                &&& snapshot.links@[k].from.0@ == hops[i]
                &&& snapshot.links@[k].to.0@ == hops[i + 1]
                &&& snapshot.links@[k].reachable
                &&& allowed.len() == 0 || exists|p: int|
                    0 <= p < allowed.len() && (#[trigger] allowed[p]).0@
                        == snapshot.links@[k].protocol.0@
            },
    ensures
        ({
            let cost = used.fold_left(
                0nat,
                |sum: nat, k: int| (sum + DefaultScorer.cost(snapshot.links@[k]@)) as nat,
            );
            let full: int = if max_candidates < 32 {
                max_candidates as int
            } else {
                32
            };
            if 0 <= at < r.len() {
                &&& r[at].score <= cost
                &&& r[at].hops@.len() == if hop_role is Some {
                    used.len()
                } else {
                    1
                }
                &&& r[at].hops@[r[at].hops@.len() - 1].node_id.0@ == targets[t].0@
                &&& hop_role is Some ==> forall|i: int|
                    0 <= i < used.len() ==> (#[trigger] r[at].hops@[i]).node_id.0@ == hops[i + 1]
            } else {
                &&& r.len() >= full
                &&& forall|j: int| 0 <= j < full ==> (#[trigger] r[j]).score <= cost
            }
        }),
{
    let hr = role_view(hop_role);
    let links = snapshot@.links;
    let views = route_views(r);
    let plans = choose|plans: Seq<Seq<RouteCandidate>>| #[trigger]
        plans_for(
            links,
            source@,
            targets,
            allowed,
            max_hops as nat,
            max_candidates as nat,
            plans,
        ) && views == first_of(merged(book@, plans, hr, target_role@), max_candidates as nat);
    let request = request_for(source@, targets[t]@, allowed, max_hops as nat);
    let plan = plans[t];
    assert(crate::routing::ranking(DefaultScorer, links, request, max_candidates as nat, plan));
    let k = lemma_way_stands(
        snapshot,
        book@,
        request,
        allowed,
        max_candidates,
        hr,
        target_role@,
        plan,
        hops,
        used,
    );
    let cost = used.fold_left(
        0nat,
        |sum: nat, k: int| (sum + DefaultScorer.cost(snapshot.links@[k]@)) as nat,
    );
    let full: int = if max_candidates < 32 {
        max_candidates as int
    } else {
        32
    };
    let all = merged(book@, plans, hr, target_role@);
    let from = law_candidates_are_in_order(book@, plans, hr, target_role@);
    assert(views.len() == r.len());
    assert forall|j: int| 0 <= j < r.len() implies views[j] == (#[trigger] r[j])@ && views[j]
        == all[j] by {}
    if 0 <= k < plan.len() {
        assert(resolution(book@, plans[t][k], hr, target_role@) is Some);
        assert(from.contains((t, k)));
        let place = from.index_of((t, k));
        assert(from[place] == (t, k));
        assert(resolution(book@, plan[k], hr, target_role@) == Some(all[place]));
        assert(all[place].score == plan[k].score);
        if place < max_candidates {
            assert(views[place] == all[place]);
            assert(views[place] == r[place]@);
            let way = hops.drop_first();
            assert(r[place]@.hops == dialed(book@, way, hr, target_role@));
            let shown = r[place].hops@.map_values(|h: ResolvedHop| h@);
            assert(r[place]@.hops == shown);
            assert(shown.len() == r[place].hops@.len());
            let n = shown.len() as int;
            assert(shown[n - 1] == r[place].hops@[n - 1]@);
            assert(way.last() == targets[t].0@);
            assert forall|i: int| hop_role is Some && 0 <= i < used.len() implies (
            #[trigger] r[place].hops@[i]).node_id.0@ == hops[i + 1] by {
                assert(shown[i] == r[place].hops@[i]@);
                assert(way[i] == hops[i + 1]);
            }
            place
        } else {
            assert forall|j: int| 0 <= j < full implies (#[trigger] r[j]).score <= cost by {
                assert(views[j] == all[j]);
                assert(all[j].score <= all[place].score);
            }
            -1
        }
    } else {
        let pairs = Seq::new(plan.len(), |j: int| (t, j));
        assert(pairs.no_duplicates());
        assert forall|i: int| 0 <= i < pairs.len() implies from.contains(#[trigger] pairs[i]) by {
            assert(resolution(book@, plans[t][i], hr, target_role@) is Some);
        }
        lemma_many(from, pairs);
        assert forall|j: int| 0 <= j < full implies (#[trigger] r[j]).score <= cost by {
            assert(views[j] == all[j]);
            if all[j].score > cost {
                let front = from.take(j);
                assert forall|i: int| 0 <= i < pairs.len() implies front.contains(
                    #[trigger] pairs[i],
                ) by {
                    assert(from.contains(pairs[i]));
                    let place = from.index_of(pairs[i]);
                    assert(from[place] == (t, i));
                    assert(resolution(book@, plans[t][i], hr, target_role@) == Some(all[place]));
                    assert(all[place].score == plan[i].score);
                    assert(plan[i].score <= cost);
                    if place >= j {
                        assert(place == j || all[j].score <= all[place].score);
                    }
                    assert(front[place] == pairs[i]);
                }
                lemma_many(front, pairs);
            }
        }
        -1
    }
}

spec fn stands_in(plan: Seq<RouteCandidate>, hops: Seq<Seq<char>>, k: int) -> bool {
    0 <= k < plan.len() && plan[k].names() == hops
}

/// Every way counts: where there are so many different ways to the targets,
/// there are as many candidates, unless there are as many as were asked for, or
/// 32. Each way is the place of its target, its nodes and its links.
#[verifier::rlimit(60)]
#[verifier::spinoff_prover]
pub proof fn law_every_way_counts(
    snapshot: GraphSnapshot,
    book: AddressBook,
    source: NodeId,
    targets: Seq<NodeId>,
    allowed: Seq<ProtocolId>,
    max_hops: usize,
    max_candidates: usize,
    hop_role: Option<&RoleId>,
    target_role: RoleId,
    r: Seq<ResolvedRoute>,
    ways: Seq<(int, Seq<Seq<char>>, Seq<int>)>,
)
    requires
        offered(
            snapshot@.links,
            book@,
            source@,
            targets,
            allowed,
            max_hops as nat,
            max_candidates as nat,
            role_view(hop_role),
            target_role@,
            route_views(r),
        ),
        max_candidates > 0,
        hop_role matches Some(role) ==> forall|l: int|
            0 <= l < snapshot.links@.len() ==> lookup(
                book@,
                (#[trigger] snapshot.links@[l]).to.0@,
                role.0@,
            ) is Some,
        forall|a: int, b: int|
            0 <= a < b < ways.len() ==> (#[trigger] ways[a]).0 != (#[trigger] ways[b]).0
                || ways[a].1 != ways[b].1,
        forall|m: int|
            0 <= m < ways.len() ==> {
                let (t, hops, used) = #[trigger] ways[m];
                &&& 0 <= t < targets.len()
                &&& source.0@ != targets[t].0@
                &&& lookup(book@, targets[t].0@, target_role.0@) is Some
                &&& used.len() <= max_hops
                &&& used.len() <= 32
                &&& hops.len() == used.len() + 1
                &&& hops[0] == source.0@
                &&& hops[used.len() as int] == targets[t].0@
                &&& forall|i: int, j: int| 0 <= i < j < hops.len() ==> hops[i] != hops[j]
                &&& forall|i: int|
                    0 <= i < used.len() ==> {
                        let k = #[trigger] used[i];
                        &&& 0 <= k < snapshot.links@.len()
                        &&& snapshot.links@[k].from.0@ == hops[i]
                        &&& snapshot.links@[k].to.0@ == hops[i + 1]
                        &&& snapshot.links@[k].reachable
                        &&& allowed.len() == 0 || exists|p: int|
                            0 <= p < allowed.len() && (#[trigger] allowed[p]).0@
                                == snapshot.links@[k].protocol.0@
                    }
            },
    ensures
        r.len() >= ways.len() || r.len() >= max_candidates || r.len() >= 32,
{
    let hr = role_view(hop_role);
    let links = snapshot@.links;
    let views = route_views(r);
    let plans = choose|plans: Seq<Seq<RouteCandidate>>| #[trigger]
        plans_for(
            links,
            source@,
            targets,
            allowed,
            max_hops as nat,
            max_candidates as nat,
            plans,
        ) && views == first_of(merged(book@, plans, hr, target_role@), max_candidates as nat);
    let all = merged(book@, plans, hr, target_role@);
    let from = law_candidates_are_in_order(book@, plans, hr, target_role@);
    assert(views.len() == r.len());
    let pairs = Seq::new(
        ways.len(),
        |m: int| (ways[m].0, choose|k: int| stands_in(plans[ways[m].0], ways[m].1, k)),
    );
    if r.len() < max_candidates && r.len() < 32 {
        assert(r.len() == all.len());
        assert forall|m: int| 0 <= m < ways.len() implies stands_in(
            plans[ways[m].0],
            ways[m].1,
            (#[trigger] pairs[m]).1,
        ) && from.contains(pairs[m]) by {
            let (t, hops, used) = ways[m];
            let plan = plans[t];
            let request = request_for(source@, targets[t]@, allowed, max_hops as nat);
            assert(crate::routing::ranking(
                DefaultScorer,
                links,
                request,
                max_candidates as nat,
                plan,
            ));
            let k = lemma_way_stands(
                snapshot,
                book@,
                request,
                allowed,
                max_candidates,
                hr,
                target_role@,
                plan,
                hops,
                used,
            );
            if 0 <= k < plan.len() {
                assert(stands_in(plan, hops, k));
                assert(stands_in(plan, hops, pairs[m].1));
                assert(resolution(book@, plans[t][pairs[m].1], hr, target_role@) is Some);
            } else {
                let whole = Seq::new(plan.len(), |j: int| (t, j));
                assert(whole.no_duplicates());
                assert forall|i: int| 0 <= i < whole.len() implies from.contains(
                    #[trigger] whole[i],
                ) by {
                    assert(resolution(book@, plans[t][i], hr, target_role@) is Some);
                }
                lemma_many(from, whole);
            }
        }
        assert(pairs.no_duplicates()) by {
            assert forall|a: int, b: int|
                0 <= a < b < pairs.len() implies pairs[a] != pairs[b] by {
                assert(ways[a].0 != ways[b].0 || ways[a].1 != ways[b].1);
                assert(stands_in(plans[ways[a].0], ways[a].1, pairs[a].1));
                assert(stands_in(plans[ways[b].0], ways[b].1, pairs[b].1));
            }
        }
        lemma_many(from, pairs);
    }
}

} // verus!
