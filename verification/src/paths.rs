//! Cheapest loop-free paths in a small directed multigraph with a hop budget.
//!
//! Nodes are the numbers `0..n`; an edge list carries the arcs and their
//! costs. [`shortest_path`] is a hop-layered relaxation, [`best_paths`] is
//! Yen's ranking on top of it.

use vstd::prelude::*;

verus! {

/// One directed edge. A closed edge keeps its place in the list but is never
/// traversed.
#[derive(Debug, Clone, Copy)]
pub struct Edge {
    pub from: usize,
    pub to: usize,
    pub cost: u64,
    pub open: bool,
}

/// The largest hop budget the search accepts. It keeps every path cost well
/// inside `u128`.
pub const MAX_HOPS: usize = 1024;

/// A path: the nodes it visits, the edges it takes, and what it costs.
#[derive(Debug)]
pub struct Path {
    pub hops: Vec<usize>,
    pub links: Vec<usize>,
    pub cost: u128,
}

// ---------------------------------------------------------------------------
// The model
// ---------------------------------------------------------------------------

/// Edge `links[i]` leads from `hops[i]` to `hops[i + 1]`.
pub open spec fn joins(g: Seq<Edge>, hops: Seq<usize>, links: Seq<usize>, i: int) -> bool {
    &&& links[i] < g.len()
    &&& g[links[i] as int].open
    &&& g[links[i] as int].from == hops[i]
    &&& g[links[i] as int].to == hops[i + 1]
}

/// `hops` and `links` describe a walk along open edges.
pub open spec fn walk(g: Seq<Edge>, hops: Seq<usize>, links: Seq<usize>) -> bool {
    &&& hops.len() == links.len() + 1
    &&& forall|i: int| 0 <= i < links.len() ==> #[trigger] joins(g, hops, links, i)
}

/// The sum of the costs of the edges in `links`.
pub open spec fn cost_of(g: Seq<Edge>, links: Seq<usize>) -> nat
    decreases links.len(),
{
    if links.len() == 0 {
        0
    } else {
        cost_of(g, links.drop_last()) + g[links.last() as int].cost as nat
    }
}

/// A loop-free walk from `s` to `t` over at most `k` edges.
pub open spec fn route(
    g: Seq<Edge>,
    s: usize,
    t: usize,
    k: nat,
    hops: Seq<usize>,
    links: Seq<usize>,
) -> bool {
    &&& walk(g, hops, links)
    &&& hops.no_duplicates()
    &&& hops[0] == s
    &&& hops.last() == t
    &&& links.len() <= k
}

/// What may not be visited: nodes, and successors of the start node.
pub open spec fn avoids(
    hops: Seq<usize>,
    s: usize,
    banned_nodes: Seq<bool>,
    banned_next: Seq<bool>,
) -> bool {
    &&& forall|i: int| 0 <= i < hops.len() ==> !banned_nodes[#[trigger] hops[i] as int]
    &&& forall|i: int|
        0 <= i < hops.len() - 1 && hops[i] == s ==> !banned_next[#[trigger] hops[i + 1] as int]
}

/// Every edge joins two of the `n` nodes.
pub open spec fn bounded(g: Seq<Edge>, n: nat) -> bool {
    forall|e: int| 0 <= e < g.len() ==> (#[trigger] g[e]).from < n && g[e].to < n
}

/// Each edge of the path is a cheapest one between its two ends.
pub open spec fn tight(g: Seq<Edge>, hops: Seq<usize>, links: Seq<usize>) -> bool {
    forall|i: int, e: int|
        0 <= i < links.len() && 0 <= e < g.len() && (#[trigger] g[e]).open && g[e].from == hops[i]
            && g[e].to == hops[i + 1] ==> g[(#[trigger] links[i]) as int].cost <= g[e].cost
}

// ---------------------------------------------------------------------------
// Costs
// ---------------------------------------------------------------------------

proof fn lemma_cost_append(g: Seq<Edge>, a: Seq<usize>, b: Seq<usize>)
    ensures
        cost_of(g, a + b) == cost_of(g, a) + cost_of(g, b),
    decreases b.len(),
{
    if b.len() == 0 {
        assert(a + b =~= a);
    } else {
        assert((a + b).drop_last() =~= a + b.drop_last());
        assert((a + b).last() == b.last());
        lemma_cost_append(g, a, b.drop_last());
    }
}

proof fn lemma_cost_bound(g: Seq<Edge>, links: Seq<usize>)
    ensures
        cost_of(g, links) <= links.len() * u64::MAX,
    decreases links.len(),
{
    if links.len() > 0 {
        lemma_cost_bound(g, links.drop_last());
        assert(links.len() * u64::MAX == (links.len() - 1) * u64::MAX + u64::MAX)
            by (nonlinear_arith);
    }
}

/// Along the same nodes, the first `m` edges of a tight path cost no more than
/// the first `m` edges of any other walk.
proof fn lemma_tight_prefix(
    g: Seq<Edge>,
    hops: Seq<usize>,
    links: Seq<usize>,
    other_hops: Seq<usize>,
    other: Seq<usize>,
    m: int,
)
    requires
        walk(g, hops, links),
        tight(g, hops, links),
        walk(g, other_hops, other),
        0 <= m <= links.len(),
        m <= other.len(),
        forall|i: int| 0 <= i <= m ==> hops[i] == other_hops[i],
    ensures
        cost_of(g, links.take(m)) <= cost_of(g, other.take(m)),
    decreases m,
{
    if m > 0 {
        lemma_tight_prefix(g, hops, links, other_hops, other, m - 1);
        assert(links.take(m).drop_last() =~= links.take(m - 1));
        assert(other.take(m).drop_last() =~= other.take(m - 1));
        assert(joins(g, other_hops, other, m - 1));
        assert(joins(g, hops, links, m - 1));
        assert(g[links[m - 1] as int].cost <= g[other[m - 1] as int].cost);
    } else {
        assert(links.take(0) =~= Seq::<usize>::empty());
        assert(other.take(0) =~= Seq::<usize>::empty());
    }
}

// ---------------------------------------------------------------------------
// Hop-limited shortest path
// ---------------------------------------------------------------------------

/// How a node was reached: from which node, over which edge, and in which
/// layer that node's own cell stands.
#[derive(Debug, Clone, Copy)]
struct Step {
    node: usize,
    link: usize,
    layer: usize,
}

/// The best known way to reach a node within some hop budget. `parent` is
/// `None` for the start node.
#[derive(Debug, Clone, Copy)]
struct Cell {
    cost: u128,
    parent: Option<Step>,
}

/// Whether the search may take `edge`.
spec fn passable(
    edge: Edge,
    s: usize,
    banned_nodes: Seq<bool>,
    banned_next: Seq<bool>,
) -> bool {
    &&& edge.open
    &&& !banned_nodes[edge.to as int]
    &&& !(edge.from == s && banned_next[edge.to as int])
}

/// Cell `c` of node `v` in layer `h` is justified by an earlier layer: it was
/// written because it beat what stood there.
spec fn cell_ok(
    g: Seq<Edge>,
    s: usize,
    banned_nodes: Seq<bool>,
    banned_next: Seq<bool>,
    layers: Seq<Vec<Option<Cell>>>,
    h: int,
    v: int,
    c: Cell,
) -> bool {
    &&& c.cost <= h * u64::MAX
    &&& match c.parent {
        None => v == s && c.cost == 0,
        Some(step) => {
            let below = layers[step.layer as int]@;
            &&& step.layer < h
            &&& step.link < g.len()
            &&& passable(g[step.link as int], s, banned_nodes, banned_next)
            &&& g[step.link as int].from == step.node
            &&& g[step.link as int].to == v
            &&& below[step.node as int] matches Some(p)
            &&& c.cost == p.cost + g[step.link as int].cost
            &&& (below[v] matches Some(o) ==> c.cost < o.cost)
        },
    }
}

/// `c` is at least as good as `other`, which may be missing.
spec fn no_worse(c: Option<Cell>, other: Option<Cell>) -> bool {
    other matches Some(o) ==> (c matches Some(x) && x.cost <= o.cost)
}

/// `c` stands for a cost of at most `cost`.
spec fn within(c: Option<Cell>, cost: int) -> bool {
    c matches Some(x) && x.cost <= cost
}

/// Edge `e` has been relaxed from `below` into `layer`.
spec fn relaxed(
    g: Seq<Edge>,
    s: usize,
    banned_nodes: Seq<bool>,
    banned_next: Seq<bool>,
    below: Seq<Option<Cell>>,
    layer: Seq<Option<Cell>>,
    e: int,
) -> bool {
    passable(g[e], s, banned_nodes, banned_next) ==> (below[g[e].from as int] matches Some(p) ==> (
    layer[g[e].to as int] matches Some(c) && c.cost <= p.cost + g[e].cost))
}

/// The table of layers built so far.
spec fn table_ok(
    g: Seq<Edge>,
    n: nat,
    s: usize,
    banned_nodes: Seq<bool>,
    banned_next: Seq<bool>,
    layers: Seq<Vec<Option<Cell>>>,
) -> bool {
    &&& forall|h: int| 0 <= h < layers.len() ==> (#[trigger] layers[h])@.len() == n
    &&& forall|h: int, v: int|
        0 <= h < layers.len() && 0 <= v < n ==> ((#[trigger] layers[h]@[v]) matches Some(c)
            ==> cell_ok(g, s, banned_nodes, banned_next, layers, h, v, c))
    &&& forall|h: int, v: int|
        1 <= h < layers.len() && 0 <= v < n ==> no_worse(
            #[trigger] layers[h]@[v],
            layers[h - 1]@[v],
        )
    &&& forall|h: int, e: int|
        1 <= h < layers.len() && 0 <= e < g.len() ==> #[trigger] relaxed(
            g,
            s,
            banned_nodes,
            banned_next,
            layers[h - 1]@,
            layers[h]@,
            e,
        )
    &&& layers.len() > 0
    &&& layers[0]@[s as int] == Some(Cell { cost: 0, parent: None })
}

proof fn lemma_layers_improve(
    g: Seq<Edge>,
    n: nat,
    s: usize,
    banned_nodes: Seq<bool>,
    banned_next: Seq<bool>,
    layers: Seq<Vec<Option<Cell>>>,
    low: int,
    high: int,
    v: int,
)
    requires
        table_ok(g, n, s, banned_nodes, banned_next, layers),
        0 <= low <= high < layers.len(),
        0 <= v < n,
    ensures
        no_worse(layers[high]@[v], layers[low]@[v]),
    decreases high - low,
{
    if low < high {
        lemma_layers_improve(g, n, s, banned_nodes, banned_next, layers, low, high - 1, v);
        assert(no_worse(layers[high]@[v], layers[high - 1]@[v]));
    }
}

/// No admissible walk of at most `h` edges undercuts the cell of its end node
/// in layer `h`.
proof fn lemma_table_optimal(
    g: Seq<Edge>,
    n: nat,
    s: usize,
    banned_nodes: Seq<bool>,
    banned_next: Seq<bool>,
    layers: Seq<Vec<Option<Cell>>>,
    h: int,
    hops: Seq<usize>,
    links: Seq<usize>,
)
    requires
        table_ok(g, n, s, banned_nodes, banned_next, layers),
        bounded(g, n),
        s < n,
        0 <= h < layers.len(),
        walk(g, hops, links),
        links.len() <= h,
        hops[0] == s,
        avoids(hops, s, banned_nodes, banned_next),
    ensures
        layers[h]@[hops.last() as int] matches Some(c) && c.cost <= cost_of(g, links),
    decreases links.len(),
{
    if links.len() == 0 {
        lemma_layers_improve(g, n, s, banned_nodes, banned_next, layers, 0, h, s as int);
    } else {
        let last = links.len() - 1;
        let e = links[last] as int;
        assert(joins(g, hops, links, last));
        let short_hops = hops.drop_last();
        let short_links = links.drop_last();
        assert forall|i: int| 0 <= i < short_links.len() implies #[trigger] joins(
            g,
            short_hops,
            short_links,
            i,
        ) by {
            assert(joins(g, hops, links, i));
        }
        assert(avoids(short_hops, s, banned_nodes, banned_next)) by {
            assert forall|i: int| 0 <= i < short_hops.len() implies !banned_nodes[
                #[trigger] short_hops[i] as int] by {
                assert(short_hops[i] == hops[i]);
            }
            assert forall|i: int|
                0 <= i < short_hops.len() - 1 && short_hops[i] == s implies !banned_next[
                #[trigger] short_hops[i + 1] as int] by {
                assert(short_hops[i + 1] == hops[i + 1]);
            }
        }
        lemma_table_optimal(
            g,
            n,
            s,
            banned_nodes,
            banned_next,
            layers,
            h - 1,
            short_hops,
            short_links,
        );
        assert(short_hops.last() == hops[last]);
        assert(hops.last() == hops[last + 1]);
        assert(relaxed(g, s, banned_nodes, banned_next, layers[h - 1]@, layers[h]@, e));
        assert(passable(g[e], s, banned_nodes, banned_next));
    }
}

/// Follows the parents of the cell of `v` in layer `h` back to the start.
fn trace(
    g: &Vec<Edge>,
    s: usize,
    banned_nodes: &Vec<bool>,
    banned_next: &Vec<bool>,
    layers: &Vec<Vec<Option<Cell>>>,
    h: usize,
    v: usize,
) -> (r: Path)
    requires
        table_ok(g@, banned_nodes@.len(), s, banned_nodes@, banned_next@, layers@),
        bounded(g@, banned_nodes@.len()),
        banned_nodes@.len() == banned_next@.len(),
        s < banned_nodes@.len(),
        !banned_nodes@[s as int],
        h < layers@.len(),
        v < banned_nodes@.len(),
        layers@[h as int]@[v as int] is Some,
    ensures
        walk(g@, r.hops@, r.links@),
        r.hops@.no_duplicates(),
        r.hops@[0] == s,
        r.hops@.last() == v,
        r.links@.len() <= h,
        r.cost == cost_of(g@, r.links@),
        r.cost == layers@[h as int]@[v as int]->0.cost,
        avoids(r.hops@, s, banned_nodes@, banned_next@),
        forall|i: int|
            0 <= i < r.hops@.len() ==> (#[trigger] r.hops@[i]) < banned_nodes@.len() && within(
                layers@[h as int]@[r.hops@[i] as int],
                r.cost as int,
            ),
    decreases h,
{
    let cell: Cell = layers[h][v].unwrap();
    let ghost n = banned_nodes@.len();
    assert(cell_ok(g@, s, banned_nodes@, banned_next@, layers@, h as int, v as int, cell));
    match cell.parent {
        None => {
            let mut hops: Vec<usize> = Vec::new();
            hops.push(v);
            let links: Vec<usize> = Vec::new();
            Path { hops, links, cost: cell.cost }
        },
        Some(step) => {
            let mut below: Path = trace(
                g,
                s,
                banned_nodes,
                banned_next,
                layers,
                step.layer,
                step.node,
            );
            let ghost hops0 = below.hops@;
            let ghost links0 = below.links@;
            below.hops.push(v);
            below.links.push(step.link);
            below.cost = cell.cost;
            proof {
                let hops = below.hops@;
                let links = below.links@;
                assert forall|i: int| 0 <= i < links.len() implies #[trigger] joins(
                    g@,
                    hops,
                    links,
                    i,
                ) by {
                    if i < links0.len() {
                        assert(joins(g@, hops0, links0, i));
                    }
                }
                assert(links.drop_last() =~= links0);
                assert forall|i: int| 0 <= i < hops.len() implies (#[trigger] hops[i]) < n
                    && within(layers@[h as int]@[hops[i] as int], cell.cost as int) by {
                    if i < hops0.len() {
                        assert(hops[i] == hops0[i]);
                        lemma_layers_improve(
                            g@,
                            n,
                            s,
                            banned_nodes@,
                            banned_next@,
                            layers@,
                            step.layer as int,
                            h as int,
                            hops0[i] as int,
                        );
                    }
                }
                assert(hops.no_duplicates()) by {
                    assert forall|i: int, j: int|
                        0 <= i < hops.len() && 0 <= j < hops.len() && i != j implies hops[i]
                        != hops[j] by {
                        if i < hops0.len() && j < hops0.len() {
                            assert(hops0[i] != hops0[j]);
                        } else if i < hops0.len() {
                            assert(hops[i] == hops0[i]);
                        } else {
                            assert(hops[j] == hops0[j]);
                        }
                    }
                }
                assert(avoids(hops, s, banned_nodes@, banned_next@)) by {
                    assert forall|i: int| 0 <= i < hops.len() implies !banned_nodes@[
                        #[trigger] hops[i] as int] by {
                        if i < hops0.len() {
                            assert(hops[i] == hops0[i]);
                        }
                    }
                    assert forall|i: int| 0 <= i < hops.len() - 1 && hops[i] == s implies !banned_next@[
                        #[trigger] hops[i + 1] as int] by {
                        if i + 1 < hops0.len() {
                            assert(hops[i + 1] == hops0[i + 1]);
                        } else {
                            assert(hops[i] == hops0.last());
                        }
                    }
                }
            }
            below
        },
    }
}

/// Relaxes every edge of `g` once, from the layer `below` into a new one.
fn next_layer(
    g: &Vec<Edge>,
    s: usize,
    banned_nodes: &Vec<bool>,
    banned_next: &Vec<bool>,
    layers: &Vec<Vec<Option<Cell>>>,
) -> (layer: Vec<Option<Cell>>)
    requires
        table_ok(g@, banned_nodes@.len(), s, banned_nodes@, banned_next@, layers@),
        bounded(g@, banned_nodes@.len()),
        banned_nodes@.len() == banned_next@.len(),
        layers@.len() <= MAX_HOPS,
    ensures
        table_ok(g@, banned_nodes@.len(), s, banned_nodes@, banned_next@, layers@.push(layer)),
{
    let n: usize = banned_nodes.len();
    let h: usize = layers.len();
    let below: &Vec<Option<Cell>> = &layers[h - 1];
    let mut layer: Vec<Option<Cell>> = Vec::new();
    let mut v: usize = 0;
    while v < n
        invariant
            v <= n,
            n == below@.len(),
            layer@ =~= below@.take(v as int),
        decreases n - v,
    {
        layer.push(below[v]);
        v += 1;
    }
    proof {
        assert forall|v: int| 0 <= v < n && layer@[v] is Some implies cell_ok(
            g@,
            s,
            banned_nodes@,
            banned_next@,
            layers@,
            h as int,
            v,
            (#[trigger] layer@[v])->0,
        ) by {
            assert(layers@[h - 1]@[v] is Some);
            assert(cell_ok(g@, s, banned_nodes@, banned_next@, layers@, h - 1, v, layer@[v]->0));
            assert((h - 1) * u64::MAX <= h * u64::MAX) by (nonlinear_arith)
                requires
                    h >= 1,
            ;
        }
    }
    let mut e: usize = 0;
    while e < g.len()
        invariant
            e <= g@.len(),
            n == banned_nodes@.len(),
            n == banned_next@.len(),
            n == below@.len(),
            n == layer@.len(),
            h == layers@.len(),
            1 <= h <= MAX_HOPS,
            *below == layers@[h - 1],
            forall|v: int|
                0 <= v < n && below@[v] is Some ==> (#[trigger] below@[v])->0.cost <= (h - 1)
                    * u64::MAX,
            bounded(g@, n as nat),
            forall|v: int|
                0 <= v < n && layer@[v] is Some ==> cell_ok(
                    g@,
                    s,
                    banned_nodes@,
                    banned_next@,
                    layers@,
                    h as int,
                    v,
                    (#[trigger] layer@[v])->0,
                ),
            forall|v: int| 0 <= v < n ==> no_worse(#[trigger] layer@[v], below@[v]),
            forall|k: int|
                0 <= k < e ==> #[trigger] relaxed(
                    g@,
                    s,
                    banned_nodes@,
                    banned_next@,
                    below@,
                    layer@,
                    k,
                ),
        decreases g@.len() - e,
    {
        let edge: Edge = g[e];
        let barred: bool = !edge.open || banned_nodes[edge.to] || (edge.from == s
            && banned_next[edge.to]);
        let ghost before = layer@;
        if !barred {
            if let Some(cell) = below[edge.from] {
                proof {
                    assert(below@[edge.from as int] is Some);
                    assert(cell.cost + edge.cost <= h * u64::MAX <= 1024 * u64::MAX)
                        by (nonlinear_arith)
                        requires
                            cell.cost <= (h - 1) * u64::MAX,
                            edge.cost <= u64::MAX,
                            1 <= h <= 1024,
                    ;
                }
                let cost: u128 = cell.cost + edge.cost as u128;
                let improves: bool = match layer[edge.to] {
                    Some(existing) => cost < existing.cost,
                    None => true,
                };
                if improves {
                    let step: Step = Step { node: edge.from, link: e, layer: h - 1 };
                    layer[edge.to] = Some(Cell { cost, parent: Some(step) });
                    proof {
                        assert(no_worse(before[edge.to as int], below@[edge.to as int]));
                    }
                }
            }
        }
        proof {
            assert forall|k: int| 0 <= k < e + 1 implies #[trigger] relaxed(
                g@,
                s,
                banned_nodes@,
                banned_next@,
                below@,
                layer@,
                k,
            ) by {
                if k < e {
                    assert(relaxed(g@, s, banned_nodes@, banned_next@, below@, before, k));
                }
            }
        }
        e += 1;
    }
    proof {
        let next = layers@.push(layer);
        assert forall|a: int, v: int| 0 <= a < next.len() && 0 <= v < n implies ((
        #[trigger] next[a]@[v]) matches Some(c) ==> cell_ok(
            g@,
            s,
            banned_nodes@,
            banned_next@,
            next,
            a,
            v,
            c,
        )) by {
            if a < h {
                assert(next[a]@[v] == layers@[a]@[v]);
            }
        }
        assert forall|a: int, v: int| 1 <= a < next.len() && 0 <= v < n implies no_worse(
            #[trigger] next[a]@[v],
            next[a - 1]@[v],
        ) by {
            if a < h {
                assert(no_worse(layers@[a]@[v], layers@[a - 1]@[v]));
            } else {
                assert(no_worse(layer@[v], below@[v]));
            }
        }
        assert forall|a: int, e: int| 1 <= a < next.len() && 0 <= e < g@.len() implies #[trigger] relaxed(
            g@,
            s,
            banned_nodes@,
            banned_next@,
            next[a - 1]@,
            next[a]@,
            e,
        ) by {
            if a < h {
                assert(relaxed(
                    g@,
                    s,
                    banned_nodes@,
                    banned_next@,
                    layers@[a - 1]@,
                    layers@[a]@,
                    e,
                ));
            }
        }
    }
    layer
}

/// The cheapest path from `s` to `t` over at most `max_hops` edges that visits
/// no banned node and does not go from `s` to a banned successor.
///
/// The hop budget is a hard constraint, not a tiebreak, so the search keeps
/// one layer of best known costs per number of edges instead of settling
/// nodes in cost order.
pub fn shortest_path(
    g: &Vec<Edge>,
    s: usize,
    t: usize,
    max_hops: usize,
    banned_nodes: &Vec<bool>,
    banned_next: &Vec<bool>,
) -> (r: Option<Path>)
    requires
        bounded(g@, banned_nodes@.len()),
        banned_nodes@.len() == banned_next@.len(),
        s < banned_nodes@.len(),
        t < banned_nodes@.len(),
        max_hops <= MAX_HOPS,
    ensures
        r matches Some(p) ==> {
            &&& route(g@, s, t, max_hops as nat, p.hops@, p.links@)
            &&& avoids(p.hops@, s, banned_nodes@, banned_next@)
            &&& p.cost == cost_of(g@, p.links@)
            &&& forall|i: int| 0 <= i < p.hops@.len() ==> #[trigger] p.hops@[i] < banned_nodes@.len()
        },
        forall|hops: Seq<usize>, links: Seq<usize>|
            #![trigger walk(g@, hops, links)]
            walk(g@, hops, links) && hops[0] == s && hops.last() == t && links.len() <= max_hops
                && avoids(hops, s, banned_nodes@, banned_next@) ==> (r matches Some(p) && p.cost
                <= cost_of(g@, links)),
{
    if banned_nodes[s] || banned_nodes[t] {
        proof {
            assert forall|hops: Seq<usize>, links: Seq<usize>|
                #![trigger walk(g@, hops, links)]
                walk(g@, hops, links) && hops[0] == s && hops.last() == t implies !avoids(
                hops,
                s,
                banned_nodes@,
                banned_next@,
            ) by {
                assert(hops[0] == s && hops[hops.len() - 1] == t);
            }
        }
        return None;
    }
    let n: usize = banned_nodes.len();
    let mut first: Vec<Option<Cell>> = Vec::new();
    let mut v: usize = 0;
    while v < n
        invariant
            v <= n,
            first@.len() == v,
            forall|w: int| 0 <= w < v ==> #[trigger] first@[w] is None,
        decreases n - v,
    {
        first.push(None);
        v += 1;
    }
    first[s] = Some(Cell { cost: 0, parent: None });
    let mut layers: Vec<Vec<Option<Cell>>> = Vec::new();
    layers.push(first);
    let mut hop: usize = 0;
    while hop < max_hops
        invariant
            hop <= max_hops <= MAX_HOPS,
            layers@.len() == hop + 1,
            bounded(g@, banned_nodes@.len()),
            banned_nodes@.len() == banned_next@.len(),
            table_ok(g@, banned_nodes@.len(), s, banned_nodes@, banned_next@, layers@),
        decreases max_hops - hop,
    {
        let layer: Vec<Option<Cell>> = next_layer(g, s, banned_nodes, banned_next, &layers);
        layers.push(layer);
        hop += 1;
    }
    proof {
        assert forall|hops: Seq<usize>, links: Seq<usize>|
            #![trigger walk(g@, hops, links)]
            walk(g@, hops, links) && hops[0] == s && hops.last() == t && links.len() <= max_hops
                && avoids(hops, s, banned_nodes@, banned_next@) implies (
        layers@[max_hops as int]@[t as int] matches Some(c) && c.cost <= cost_of(g@, links)) by {
            lemma_table_optimal(
                g@,
                banned_nodes@.len(),
                s,
                banned_nodes@,
                banned_next@,
                layers@,
                max_hops as int,
                hops,
                links,
            );
        }
    }
    match layers[max_hops][t] {
        None => None,
        Some(_) => Some(trace(g, s, banned_nodes, banned_next, &layers, max_hops, t)),
    }
}

// ---------------------------------------------------------------------------
// Ranking: Yen's algorithm
// ---------------------------------------------------------------------------

/// `p` and `q` agree on their first `i + 1` nodes.
pub open spec fn shares(p: Seq<usize>, q: Seq<usize>, i: int) -> bool {
    &&& i < p.len()
    &&& i < q.len()
    &&& forall|j: int| 0 <= j <= i ==> p[j] == q[j]
}

/// Some path of the list visits exactly `hops`.
pub open spec fn known(paths: Seq<Path>, hops: Seq<usize>) -> bool {
    exists|j: int| 0 <= j < paths.len() && (#[trigger] paths[j]).hops@ == hops
}

/// `p` is a route, it knows its own cost, and no parallel edge undercuts one
/// of its own.
pub open spec fn ranked(g: Seq<Edge>, s: usize, t: usize, k: nat, p: Path) -> bool {
    &&& route(g, s, t, k, p.hops@, p.links@)
    &&& p.cost == cost_of(g, p.links@)
    &&& tight(g, p.hops@, p.links@)
}

/// `r` is the ranking of the routes from `s` to `t`: distinct loop-free
/// routes in ascending cost order, at most `limit` of them, and no route that
/// was left out is cheaper than one that was kept. A route is left out only
/// when the list is full.
pub open spec fn best_routes(
    g: Seq<Edge>,
    s: usize,
    t: usize,
    k: nat,
    limit: nat,
    r: Seq<Path>,
) -> bool {
    &&& r.len() <= limit
    &&& forall|j: int| 0 <= j < r.len() ==> ranked(g, s, t, k, #[trigger] r[j])
    &&& forall|i: int, j: int|
        0 <= i < j < r.len() ==> (#[trigger] r[i]).hops@ != (#[trigger] r[j]).hops@
    &&& forall|i: int, j: int|
        0 <= i < j < r.len() ==> (#[trigger] r[i]).cost <= (#[trigger] r[j]).cost
    &&& forall|hops: Seq<usize>, links: Seq<usize>| #[trigger]
        route(g, s, t, k, hops, links) ==> kept(r, hops, cost_of(g, links)) || (r.len() == limit
            && undercut(r, cost_of(g, links)))
}

/// `hops` is one of the paths, at no more than `cost`.
pub open spec fn kept(r: Seq<Path>, hops: Seq<usize>, cost: nat) -> bool {
    exists|j: int| 0 <= j < r.len() && (#[trigger] r[j]).hops@ == hops && r[j].cost <= cost
}

/// No path of the list costs more than `cost`.
pub open spec fn undercut(r: Seq<Path>, cost: nat) -> bool {
    forall|j: int| 0 <= j < r.len() ==> (#[trigger] r[j]).cost <= cost
}

proof fn lemma_cost_update(g: Seq<Edge>, links: Seq<usize>, i: int, e: usize)
    requires
        0 <= i < links.len(),
    ensures
        cost_of(g, links.update(i, e)) == cost_of(g, links) - g[links[i] as int].cost
            + g[e as int].cost,
    decreases links.len(),
{
    let changed = links.update(i, e);
    if i == links.len() - 1 {
        assert(changed.drop_last() =~= links.drop_last());
    } else {
        assert(changed.drop_last() =~= links.drop_last().update(i, e));
        lemma_cost_update(g, links.drop_last(), i, e);
    }
}

/// A walk that is cheapest among all walks along its own nodes is tight.
proof fn lemma_cheapest_is_tight(g: Seq<Edge>, hops: Seq<usize>, links: Seq<usize>)
    requires
        walk(g, hops, links),
        g.len() <= usize::MAX,
        forall|other: Seq<usize>| #[trigger]
            walk(g, hops, other) ==> cost_of(g, links) <= cost_of(g, other),
    ensures
        tight(g, hops, links),
{
    assert forall|i: int, e: int|
        0 <= i < links.len() && 0 <= e < g.len() && (#[trigger] g[e]).open && g[e].from == hops[i]
            && g[e].to == hops[i + 1] implies g[(#[trigger] links[i]) as int].cost <= g[e].cost by {
        let other = links.update(i, e as usize);
        assert forall|j: int| 0 <= j < other.len() implies #[trigger] joins(g, hops, other, j) by {
            assert(joins(g, hops, links, j));
        }
        assert(walk(g, hops, other));
        lemma_cost_update(g, links, i, e as usize);
    }
}

/// The node that follows the shared root on some path of the list.
spec fn taken(paths: Seq<Path>, root: Seq<usize>, i: int, next: int) -> bool {
    exists|j: int|
        0 <= j < paths.len() && shares((#[trigger] paths[j]).hops@, root, i) && i + 1
            < paths[j].hops@.len() && paths[j].hops@[i + 1] == next
}

/// Whether `a` and `b` agree up to position `i`, which lies inside both.
fn same_root(a: &Vec<usize>, b: &Vec<usize>, i: usize) -> (r: bool)
    requires
        i < a@.len(),
        i < b@.len(),
    ensures
        r == shares(a@, b@, i as int),
{
    let n: usize = a.len();
    let mut j: usize = 0;
    while j <= i
        invariant
            j <= i + 1,
            n == a@.len(),
            i < n,
            i < b@.len(),
            forall|k: int| 0 <= k < j ==> a@[k] == b@[k],
        decreases i + 1 - j,
    {
        if a[j] != b[j] {
            return false;
        }
        j += 1;
    }
    true
}

/// Marks the successors of the root `previous[..=i]` on the paths of the list.
fn ban_successors(banned: &mut Vec<bool>, paths: &Vec<Path>, previous: &Path, i: usize)
    requires
        i < previous.hops@.len(),
        forall|j: int, v: int|
            0 <= j < paths@.len() && 0 <= v < paths@[j].hops@.len() ==> (
            #[trigger] paths@[j].hops@[v]) < old(banned)@.len(),
    ensures
        final(banned)@.len() == old(banned)@.len(),
        forall|v: int|
            0 <= v < final(banned)@.len() ==> (#[trigger] final(banned)@[v] <==> old(banned)@[v]
                || taken(paths@, previous.hops@, i as int, v)),
{
    let mut j: usize = 0;
    while j < paths.len()
        invariant
            j <= paths@.len(),
            i < previous.hops@.len(),
            banned@.len() == old(banned)@.len(),
            forall|j: int, v: int|
                0 <= j < paths@.len() && 0 <= v < paths@[j].hops@.len() ==> (
                #[trigger] paths@[j].hops@[v]) < banned@.len(),
            forall|v: int|
                0 <= v < banned@.len() ==> (#[trigger] banned@[v] <==> old(banned)@[v] || taken(
                    paths@.take(j as int),
                    previous.hops@,
                    i as int,
                    v,
                )),
        decreases paths@.len() - j,
    {
        let path: &Path = &paths[j];
        let ghost before = banned@;
        let ghost seen = paths@.take(j as int);
        let ghost seen1 = paths@.take(j + 1);
        let hit: bool = path.hops.len() > i && path.hops.len() - 1 > i && same_root(
            &path.hops,
            &previous.hops,
            i,
        );
        if hit {
            let next: usize = path.hops[i + 1];
            banned[next] = true;
        }
        proof {
            assert forall|v: int| 0 <= v < banned@.len() implies (#[trigger] banned@[v] <==> old(
                banned,
            )@[v] || taken(seen1, previous.hops@, i as int, v)) by {
                if taken(seen, previous.hops@, i as int, v) {
                    let w = choose|w: int|
                        0 <= w < seen.len() && shares(
                            (#[trigger] seen[w]).hops@,
                            previous.hops@,
                            i as int,
                        ) && i + 1 < seen[w].hops@.len() && seen[w].hops@[i + 1] == v;
                    assert(seen1[w] == seen[w]);
                }
                if taken(seen1, previous.hops@, i as int, v) {
                    let w = choose|w: int|
                        0 <= w < seen1.len() && shares(
                            (#[trigger] seen1[w]).hops@,
                            previous.hops@,
                            i as int,
                        ) && i + 1 < seen1[w].hops@.len() && seen1[w].hops@[i + 1] == v;
                    if w < j {
                        assert(seen[w] == seen1[w]);
                    } else {
                        assert(seen1[w] == *path);
                        assert(hit);
                    }
                }
                if hit && v == path.hops@[i + 1] {
                    assert(seen1[j as int] == *path);
                }
                assert(before[v] <==> old(banned)@[v] || taken(
                    seen,
                    previous.hops@,
                    i as int,
                    v,
                ));
            }
        }
        j += 1;
    }
    assert(paths@.take(paths@.len() as int) =~= paths@);
}

/// A fresh table of `n` unset marks.
fn no_bans(n: usize) -> (r: Vec<bool>)
    ensures
        r@.len() == n,
        forall|v: int| 0 <= v < n ==> !#[trigger] r@[v],
{
    let mut r: Vec<bool> = Vec::new();
    let mut v: usize = 0;
    while v < n
        invariant
            v <= n,
            r@.len() == v,
            forall|w: int| 0 <= w < v ==> !#[trigger] r@[w],
        decreases n - v,
    {
        r.push(false);
        v += 1;
    }
    r
}

/// Every node of every path of the list is one of the `n` nodes.
pub open spec fn inside(paths: Seq<Path>, n: nat) -> bool {
    forall|j: int, v: int|
        0 <= j < paths.len() && 0 <= v < paths[j].hops@.len() ==> (#[trigger] paths[j].hops@[v])
            < n
}

/// Adds up the costs of `links`.
fn total_cost(g: &Vec<Edge>, links: &Vec<usize>) -> (r: u128)
    requires
        forall|i: int| 0 <= i < links@.len() ==> (#[trigger] links@[i]) < g@.len(),
        links@.len() <= MAX_HOPS,
    ensures
        r == cost_of(g@, links@),
{
    let mut sum: u128 = 0;
    let mut i: usize = 0;
    while i < links.len()
        invariant
            i <= links@.len() <= MAX_HOPS,
            forall|i: int| 0 <= i < links@.len() ==> (#[trigger] links@[i]) < g@.len(),
            sum == cost_of(g@, links@.take(i as int)),
        decreases links@.len() - i,
    {
        proof {
            lemma_cost_bound(g@, links@.take(i as int));
            assert(links@.take(i + 1).drop_last() =~= links@.take(i as int));
            assert(i * u64::MAX <= 1024 * u64::MAX) by (nonlinear_arith)
                requires
                    i <= 1024,
            ;
        }
        sum = sum + g[links[i]].cost as u128;
        i += 1;
    }
    assert(links@.take(links@.len() as int) =~= links@);
    sum
}

/// The part of a route from its `i`-th node on is an admissible walk for the
/// search that starts there.
proof fn lemma_tail(
    g: Seq<Edge>,
    s: usize,
    t: usize,
    k: nat,
    hops: Seq<usize>,
    links: Seq<usize>,
    i: int,
    banned_nodes: Seq<bool>,
    banned_next: Seq<bool>,
)
    requires
        route(g, s, t, k, hops, links),
        0 <= i,
        i + 1 < hops.len(),
        forall|v: int| 0 <= v < banned_nodes.len() && #[trigger] banned_nodes[v] ==> hops.take(
            i,
        ).contains(v as usize),
        forall|v: int| 0 <= v < hops.len() ==> #[trigger] hops[v] < banned_nodes.len(),
        !banned_next[hops[i + 1] as int],
    ensures
        walk(g, hops.skip(i), links.skip(i)),
        hops.skip(i)[0] == hops[i],
        hops.skip(i).last() == t,
        links.skip(i).len() + i == links.len(),
        avoids(hops.skip(i), hops[i], banned_nodes, banned_next),
        cost_of(g, links) == cost_of(g, links.take(i)) + cost_of(g, links.skip(i)),
{
    let th = hops.skip(i);
    let tl = links.skip(i);
    assert forall|j: int| 0 <= j < tl.len() implies #[trigger] joins(g, th, tl, j) by {
        assert(joins(g, hops, links, i + j));
    }
    assert(links =~= links.take(i) + tl);
    lemma_cost_append(g, links.take(i), tl);
    assert forall|j: int| 0 <= j < th.len() implies !banned_nodes[#[trigger] th[j] as int] by {
        assert(th[j] == hops[i + j]);
        if banned_nodes[th[j] as int] {
            let w = choose|w: int| 0 <= w < i && hops.take(i)[w] == th[j];
            assert(hops[w] == hops[i + j]);
        }
    }
    assert forall|j: int| 0 <= j < th.len() - 1 && th[j] == hops[i] implies !banned_next[
        #[trigger] th[j + 1] as int] by {
        assert(th[j] == hops[i + j]);
        assert(th[j + 1] == hops[i + j + 1]);
        assert(j == 0);
    }
}

/// Glues the first `i` edges of a route to an admissible walk from its `i`-th
/// node on.
proof fn lemma_join(
    g: Seq<Edge>,
    s: usize,
    t: usize,
    k: nat,
    base: Path,
    i: int,
    tail: Path,
    banned_nodes: Seq<bool>,
    hops: Seq<usize>,
    links: Seq<usize>,
)
    requires
        ranked(g, s, t, k, base),
        0 <= i,
        i + 1 < base.hops@.len(),
        route(g, base.hops@[i], t, (k - i) as nat, tail.hops@, tail.links@),
        tight(g, tail.hops@, tail.links@),
        forall|v: int|
            0 <= v < tail.hops@.len() ==> !banned_nodes[(#[trigger] tail.hops@[v]) as int],
        forall|v: int| 0 <= v < i ==> banned_nodes[(#[trigger] base.hops@[v]) as int],
        hops == base.hops@.take(i) + tail.hops@,
        links == base.links@.take(i) + tail.links@,
    ensures
        route(g, s, t, k, hops, links),
        tight(g, hops, links),
        shares(hops, base.hops@, i),
        cost_of(g, links) == cost_of(g, base.links@.take(i)) + cost_of(g, tail.links@),
{
    lemma_cost_append(g, base.links@.take(i), tail.links@);
    assert forall|j: int| 0 <= j < links.len() implies #[trigger] joins(g, hops, links, j) by {
        if j < i {
            assert(joins(g, base.hops@, base.links@, j));
        } else {
            assert(joins(g, tail.hops@, tail.links@, j - i));
        }
    }
    assert forall|a: int, b: int|
        0 <= a < hops.len() && 0 <= b < hops.len() && a != b implies hops[a] != hops[b] by {
        if a < i && b < i {
            assert(base.hops@[a] != base.hops@[b]);
        } else if a >= i && b >= i {
            assert(tail.hops@[a - i] != tail.hops@[b - i]);
        } else if a < i {
            assert(banned_nodes[base.hops@[a] as int]);
            assert(!banned_nodes[tail.hops@[b - i] as int]);
        } else {
            assert(banned_nodes[base.hops@[b] as int]);
            assert(!banned_nodes[tail.hops@[a - i] as int]);
        }
    }
    assert forall|j: int, e: int|
        0 <= j < links.len() && 0 <= e < g.len() && (#[trigger] g[e]).open && g[e].from == hops[j]
            && g[e].to == hops[j + 1] implies g[(#[trigger] links[j]) as int].cost <= g[e].cost by {
        if j < i {
            assert(links[j] == base.links@[j]);
            assert(hops[j] == base.hops@[j]);
            assert(hops[j + 1] == base.hops@[j + 1]);
        } else {
            assert(links[j] == tail.links@[j - i]);
            assert(hops[j] == tail.hops@[j - i]);
            assert(hops[j + 1] == tail.hops@[j - i + 1]);
        }
    }
}

/// The cheapest route that follows `previous` up to its `i`-th node and then
/// takes a successor that no accepted or pending path takes there.
fn spur(
    g: &Vec<Edge>,
    n: usize,
    Ghost(s): Ghost<usize>,
    t: usize,
    max_hops: usize,
    accepted: &Vec<Path>,
    pending: &Vec<Path>,
    previous: &Path,
    i: usize,
) -> (r: Option<Path>)
    requires
        bounded(g@, n as nat),
        t < n,
        max_hops <= MAX_HOPS,
        inside(accepted@, n as nat),
        inside(pending@, n as nat),
        ranked(g@, s, t, max_hops as nat, *previous),
        forall|v: int| 0 <= v < previous.hops@.len() ==> (#[trigger] previous.hops@[v]) < n,
        i + 1 < previous.hops@.len(),
    ensures
        r matches Some(c) ==> {
            &&& ranked(g@, s, t, max_hops as nat, c)
            &&& shares(c.hops@, previous.hops@, i as int)
            &&& i + 1 < c.hops@.len()
            &&& !taken(accepted@, previous.hops@, i as int, c.hops@[i + 1] as int)
            &&& !taken(pending@, previous.hops@, i as int, c.hops@[i + 1] as int)
            &&& forall|v: int| 0 <= v < c.hops@.len() ==> (#[trigger] c.hops@[v]) < n
        },
        forall|hops: Seq<usize>, links: Seq<usize>| #[trigger]
            route(g@, s, t, max_hops as nat, hops, links) && shares(
                hops,
                previous.hops@,
                i as int,
            ) && i + 1 < hops.len() && !taken(
                accepted@,
                previous.hops@,
                i as int,
                hops[i + 1] as int,
            ) && !taken(pending@, previous.hops@, i as int, hops[i + 1] as int) ==> (
            r matches Some(c) && c.cost <= cost_of(g@, links)),
{
    let ghost k = max_hops as nat;
    let ghost root = previous.hops@;
    let mut banned_next: Vec<bool> = no_bans(n);
    ban_successors(&mut banned_next, accepted, previous, i);
    ban_successors(&mut banned_next, pending, previous, i);
    let mut banned_nodes: Vec<bool> = no_bans(n);
    let mut j: usize = 0;
    while j < i
        invariant
            j <= i,
            i < previous.hops@.len(),
            banned_nodes@.len() == n,
            root == previous.hops@,
            forall|v: int| 0 <= v < root.len() ==> (#[trigger] root[v]) < n,
            forall|v: int| 0 <= v < j ==> banned_nodes@[(#[trigger] root[v]) as int],
            forall|v: int|
                0 <= v < n && #[trigger] banned_nodes@[v] ==> root.take(i as int).contains(
                    v as usize,
                ),
        decreases i - j,
    {
        let ghost before = banned_nodes@;
        let node: usize = previous.hops[j];
        banned_nodes[node] = true;
        proof {
            assert(root.take(i as int)[j as int] == node);
            assert forall|v: int| 0 <= v < n && #[trigger] banned_nodes@[v] implies root.take(
                i as int,
            ).contains(v as usize) by {
                if v != node {
                    assert(before[v]);
                }
            }
        }
        j += 1;
    }
    let start: usize = previous.hops[i];
    let edge_count: usize = g.len();
    let found: Option<Path> = shortest_path(
        g,
        start,
        t,
        max_hops - i,
        &banned_nodes,
        &banned_next,
    );
    proof {
        assert forall|hops: Seq<usize>, links: Seq<usize>| #[trigger]
            route(g@, s, t, k, hops, links) && shares(hops, root, i as int) && i + 1 < hops.len()
                && !taken(accepted@, root, i as int, hops[i + 1] as int) && !taken(
                pending@,
                root,
                i as int,
                hops[i + 1] as int,
            ) implies (found matches Some(c) && cost_of(g@, previous.links@.take(i as int)) + c.cost
            <= cost_of(g@, links)) by {
            lemma_route_nodes(g@, n as nat, s, t, k, hops, links);
            assert(hops.take(i as int) =~= root.take(i as int));
            lemma_tail(
                g@,
                s,
                t,
                k,
                hops,
                links,
                i as int,
                banned_nodes@,
                banned_next@,
            );
            assert(walk(g@, hops.skip(i as int), links.skip(i as int)));
            lemma_tight_prefix(g@, root, previous.links@, hops, links, i as int);
        }
    }
    match found {
        None => None,
        Some(mut tail) => {
            proof {
                assert forall|other: Seq<usize>| #[trigger]
                    walk(g@, tail.hops@, other) implies cost_of(g@, tail.links@) <= cost_of(
                    g@,
                    other,
                ) by {}
                lemma_cheapest_is_tight(g@, tail.hops@, tail.links@);
            }
            let mut hops: Vec<usize> = Vec::new();
            let mut links: Vec<usize> = Vec::new();
            let mut j: usize = 0;
            while j < i
                invariant
                    j <= i,
                    i + 1 < previous.hops@.len(),
                    previous.hops@.len() == previous.links@.len() + 1,
                    hops@ =~= previous.hops@.take(j as int),
                    links@ =~= previous.links@.take(j as int),
                decreases i - j,
            {
                hops.push(previous.hops[j]);
                links.push(previous.links[j]);
                j += 1;
            }
            let ghost tail0 = tail;
            hops.append(&mut tail.hops);
            links.append(&mut tail.links);
            proof {
                lemma_join(
                    g@,
                    s,
                    t,
                    k,
                    *previous,
                    i as int,
                    tail0,
                    banned_nodes@,
                    hops@,
                    links@,
                );
                assert forall|v: int| 0 <= v < links@.len() implies (#[trigger] links@[v])
                    < g@.len() by {
                    assert(joins(g@, hops@, links@, v));
                }
                lemma_route_nodes(g@, n as nat, s, t, k, hops@, links@);
                assert(start != t) by {
                    assert(root[i as int] != root[root.len() - 1]);
                }
                assert(tail0.hops@.len() > 1);
                assert(hops@[i + 1] == tail0.hops@[0int + 1]);
                assert(!banned_next@[tail0.hops@[0int + 1] as int]);
            }
            let cost: u128 = total_cost(g, &links);
            Some(Path { hops, links, cost })
        },
    }
}

proof fn lemma_route_nodes(
    g: Seq<Edge>,
    n: nat,
    s: usize,
    t: usize,
    k: nat,
    hops: Seq<usize>,
    links: Seq<usize>,
)
    requires
        bounded(g, n),
        walk(g, hops, links),
        hops[0] < n,
    ensures
        forall|v: int| 0 <= v < hops.len() ==> (#[trigger] hops[v]) < n,
{
    assert forall|v: int| 0 <= v < hops.len() implies (#[trigger] hops[v]) < n by {
        if v > 0 {
            assert(joins(g, hops, links, v - 1));
        }
    }
}

/// Some path of the list starts with `hops[..=i]`.
spec fn touched(paths: Seq<Path>, hops: Seq<usize>, i: int) -> bool {
    exists|j: int| 0 <= j < paths.len() && shares((#[trigger] paths[j]).hops@, hops, i)
}

/// A pending path shares `hops[..=i]` and costs no more than `links`.
spec fn covered(
    g: Seq<Edge>,
    pending: Seq<Path>,
    hops: Seq<usize>,
    links: Seq<usize>,
    i: int,
) -> bool {
    exists|c: int|
        0 <= c < pending.len() && shares((#[trigger] pending[c]).hops@, hops, i) && pending[c].cost
            <= cost_of(g, links)
}

/// Every route that leaves the accepted paths at its `i`-th node is covered by
/// a pending path; for routes that leave `last` this holds only where
/// `i < upto`.
spec fn cover(
    g: Seq<Edge>,
    s: usize,
    t: usize,
    k: nat,
    accepted: Seq<Path>,
    pending: Seq<Path>,
    last: Seq<usize>,
    upto: int,
) -> bool {
    forall|hops: Seq<usize>, links: Seq<usize>, i: int|
        #![trigger route(g, s, t, k, hops, links), touched(accepted, hops, i)]
        route(g, s, t, k, hops, links) && 0 <= i && touched(accepted, hops, i) && !touched(
            accepted,
            hops,
            i + 1,
        ) && !known(accepted, hops) && (shares(last, hops, i) ==> i < upto) ==> covered(
            g,
            pending,
            hops,
            links,
            i,
        )
}

/// `c` is the cheapest route along each of its beginnings that no accepted
/// path has.
spec fn minimal(g: Seq<Edge>, s: usize, t: usize, k: nat, accepted: Seq<Path>, c: Path) -> bool {
    forall|hops: Seq<usize>, links: Seq<usize>, i: int|
        #![trigger route(g, s, t, k, hops, links), shares(c.hops@, hops, i)]
        route(g, s, t, k, hops, links) && 0 <= i && shares(c.hops@, hops, i) && !touched(
            accepted,
            hops,
            i,
        ) ==> c.cost <= cost_of(g, links)
}

/// No route outside the accepted paths is cheaper than an accepted one.
spec fn settled(g: Seq<Edge>, s: usize, t: usize, k: nat, accepted: Seq<Path>) -> bool {
    forall|hops: Seq<usize>, links: Seq<usize>| #[trigger]
        route(g, s, t, k, hops, links) && !known(accepted, hops) ==> undercut(
            accepted,
            cost_of(g, links),
        )
}

/// No two paths of the list visit the same nodes.
spec fn distinct(paths: Seq<Path>) -> bool {
    forall|i: int, j: int|
        0 <= i < j < paths.len() ==> (#[trigger] paths[i]).hops@ != (#[trigger] paths[j]).hops@
}

/// What holds of the accepted and the pending paths throughout.
spec fn pool_ok(
    g: Seq<Edge>,
    n: nat,
    s: usize,
    t: usize,
    k: nat,
    accepted: Seq<Path>,
    pending: Seq<Path>,
) -> bool {
    &&& accepted.len() > 0
    &&& inside(accepted, n)
    &&& inside(pending, n)
    &&& forall|j: int| 0 <= j < accepted.len() ==> ranked(g, s, t, k, #[trigger] accepted[j])
    &&& forall|j: int| 0 <= j < pending.len() ==> ranked(g, s, t, k, #[trigger] pending[j])
    &&& forall|j: int| 0 <= j < pending.len() ==> minimal(g, s, t, k, accepted, #[trigger] pending[j])
    &&& distinct(accepted)
    &&& distinct(pending)
    &&& forall|j: int| 0 <= j < pending.len() ==> !known(accepted, (#[trigger] pending[j]).hops@)
}

/// A route that starts with all nodes of another one is that route.
proof fn lemma_no_extension(
    g: Seq<Edge>,
    s: usize,
    t: usize,
    k: nat,
    p: Path,
    hops: Seq<usize>,
    links: Seq<usize>,
    i: int,
)
    requires
        ranked(g, s, t, k, p),
        route(g, s, t, k, hops, links),
        0 <= i,
        shares(p.hops@, hops, i),
        i == p.hops@.len() - 1 || i == hops.len() - 1,
    ensures
        p.hops@ == hops,
{
    let other = p.hops@;
    if i == other.len() - 1 {
        assert(hops[i] == t && hops[hops.len() - 1] == t);
        assert(i == hops.len() - 1);
    } else {
        assert(other[i] == t && other[other.len() - 1] == t);
        assert(i == other.len() - 1);
    }
    assert(other =~= hops);
}

/// A route that is not among the accepted paths leaves them somewhere.
proof fn lemma_leaves(
    g: Seq<Edge>,
    s: usize,
    t: usize,
    k: nat,
    accepted: Seq<Path>,
    hops: Seq<usize>,
    links: Seq<usize>,
    from: int,
) -> (i: int)
    requires
        forall|j: int| 0 <= j < accepted.len() ==> ranked(g, s, t, k, #[trigger] accepted[j]),
        route(g, s, t, k, hops, links),
        !known(accepted, hops),
        0 <= from < hops.len(),
        touched(accepted, hops, from),
    ensures
        from <= i,
        touched(accepted, hops, i),
        !touched(accepted, hops, i + 1),
    decreases hops.len() - from,
{
    if !touched(accepted, hops, from + 1) {
        from
    } else {
        if from + 1 >= hops.len() {
            let j = choose|j: int|
                0 <= j < accepted.len() && shares(
                    (#[trigger] accepted[j]).hops@,
                    hops,
                    from + 1,
                );
            assert(false);
        }
        lemma_leaves(g, s, t, k, accepted, hops, links, from + 1)
    }
}

/// With everything covered, the cheapest pending path is the cheapest route
/// that is not yet accepted.
proof fn lemma_cheapest_pending(
    g: Seq<Edge>,
    n: nat,
    s: usize,
    t: usize,
    k: nat,
    accepted: Seq<Path>,
    pending: Seq<Path>,
    hops: Seq<usize>,
    links: Seq<usize>,
) -> (c: int)
    requires
        pool_ok(g, n, s, t, k, accepted, pending),
        cover(
            g,
            s,
            t,
            k,
            accepted,
            pending,
            accepted.last().hops@,
            accepted.last().hops@.len() - 1,
        ),
        route(g, s, t, k, hops, links),
        !known(accepted, hops),
    ensures
        0 <= c < pending.len(),
        pending[c].cost <= cost_of(g, links),
{
    let last = accepted[accepted.len() - 1];
    assert(ranked(g, s, t, k, last));
    assert(shares(last.hops@, hops, 0));
    assert(touched(accepted, hops, 0));
    let i = lemma_leaves(g, s, t, k, accepted, hops, links, 0);
    if shares(last.hops@, hops, i) && i >= last.hops@.len() - 1 {
        lemma_no_extension(g, s, t, k, last, hops, links, i);
        assert(known(accepted, hops));
    }
    assert(covered(g, pending, hops, links, i));
    choose|c: int|
        0 <= c < pending.len() && shares((#[trigger] pending[c]).hops@, hops, i) && pending[c].cost
            <= cost_of(g, links)
}

/// What the search at position `i` of `previous` found.
spec fn spur_found(
    g: Seq<Edge>,
    n: nat,
    s: usize,
    t: usize,
    k: nat,
    accepted: Seq<Path>,
    pending: Seq<Path>,
    previous: Path,
    i: int,
    found: Option<Path>,
) -> bool {
    &&& found matches Some(c) ==> {
        &&& ranked(g, s, t, k, c)
        &&& shares(c.hops@, previous.hops@, i)
        &&& i + 1 < c.hops@.len()
        &&& !taken(accepted, previous.hops@, i, c.hops@[i + 1] as int)
        &&& !taken(pending, previous.hops@, i, c.hops@[i + 1] as int)
        &&& forall|v: int| 0 <= v < c.hops@.len() ==> (#[trigger] c.hops@[v]) < n
    }
    &&& forall|hops: Seq<usize>, links: Seq<usize>| #[trigger]
        route(g, s, t, k, hops, links) && shares(hops, previous.hops@, i) && i + 1 < hops.len()
            && !taken(accepted, previous.hops@, i, hops[i + 1] as int) && !taken(
            pending,
            previous.hops@,
            i,
            hops[i + 1] as int,
        ) ==> (found matches Some(c) && c.cost <= cost_of(g, links))
}

/// The pending paths after a search.
spec fn extended(pending: Seq<Path>, found: Option<Path>) -> Seq<Path> {
    match found {
        None => pending,
        Some(c) => pending.push(c),
    }
}

/// A path found at a spur node joins the pool: it is new, and it is the
/// cheapest route along each of its new beginnings.
proof fn lemma_spur_pool(
    g: Seq<Edge>,
    n: nat,
    s: usize,
    t: usize,
    k: nat,
    accepted: Seq<Path>,
    pending: Seq<Path>,
    i: int,
    found: Option<Path>,
)
    requires
        pool_ok(g, n, s, t, k, accepted, pending),
        0 <= i,
        i + 1 < accepted.last().hops@.len(),
        spur_found(g, n, s, t, k, accepted, pending, accepted.last(), i, found),
    ensures
        pool_ok(g, n, s, t, k, accepted, extended(pending, found)),
{
    if found is Some {
        let c = found->0;
        let next = extended(pending, found);
        let last = accepted[accepted.len() - 1];
        assert(inside(next, n));
        assert(minimal(g, s, t, k, accepted, c)) by {
            assert forall|hops: Seq<usize>, links: Seq<usize>, m: int|
                #![trigger route(g, s, t, k, hops, links), shares(c.hops@, hops, m)]
                route(g, s, t, k, hops, links) && 0 <= m && shares(c.hops@, hops, m) && !touched(
                    accepted,
                    hops,
                    m,
                ) implies c.cost <= cost_of(g, links) by {
                if m <= i {
                    assert(shares(last.hops@, hops, m));
                    assert(touched(accepted, hops, m));
                }
                assert(shares(hops, last.hops@, i));
                assert(hops[i + 1] == c.hops@[i + 1]);
            }
        }
        assert forall|j: int| 0 <= j < pending.len() implies (#[trigger] pending[j]).hops@
            != c.hops@ by {
            if pending[j].hops@ == c.hops@ {
                assert(shares(pending[j].hops@, last.hops@, i));
                assert(taken(pending, last.hops@, i, c.hops@[i + 1] as int));
            }
        }
        if known(accepted, c.hops@) {
            let j = choose|j: int| 0 <= j < accepted.len() && (#[trigger] accepted[j]).hops@ == c.hops@;
            assert(shares(accepted[j].hops@, last.hops@, i));
            assert(taken(accepted, last.hops@, i, c.hops@[i + 1] as int));
        }
    }
}

/// After the search at position `i`, the routes that leave `last` there are
/// covered too.
proof fn lemma_spur_cover(
    g: Seq<Edge>,
    n: nat,
    s: usize,
    t: usize,
    k: nat,
    accepted: Seq<Path>,
    pending: Seq<Path>,
    i: int,
    found: Option<Path>,
)
    requires
        pool_ok(g, n, s, t, k, accepted, pending),
        0 <= i,
        i + 1 < accepted.last().hops@.len(),
        cover(g, s, t, k, accepted, pending, accepted.last().hops@, i),
        spur_found(g, n, s, t, k, accepted, pending, accepted.last(), i, found),
    ensures
        cover(
            g,
            s,
            t,
            k,
            accepted,
            extended(pending, found),
            accepted.last().hops@,
            i + 1,
        ),
{
    let next = extended(pending, found);
    let last = accepted[accepted.len() - 1];
    assert forall|hops: Seq<usize>, links: Seq<usize>, m: int|
        #![trigger route(g, s, t, k, hops, links), touched(accepted, hops, m)]
        route(g, s, t, k, hops, links) && 0 <= m && touched(accepted, hops, m) && !touched(
            accepted,
            hops,
            m + 1,
        ) && !known(accepted, hops) && (shares(last.hops@, hops, m) ==> m < i + 1) implies covered(
        g,
        next,
        hops,
        links,
        m,
    ) by {
        if !shares(last.hops@, hops, m) || m < i {
            assert(covered(g, pending, hops, links, m));
            let c = choose|c: int|
                0 <= c < pending.len() && shares((#[trigger] pending[c]).hops@, hops, m)
                    && pending[c].cost <= cost_of(g, links);
            assert(next[c] == pending[c]);
        } else {
            assert(m == i);
            if i + 1 >= hops.len() {
                lemma_no_extension(g, s, t, k, last, hops, links, i);
            }
            assert(shares(hops, last.hops@, i));
            let after = hops[i + 1] as int;
            if taken(accepted, last.hops@, i, after) {
                let j = choose|j: int|
                    0 <= j < accepted.len() && shares((#[trigger] accepted[j]).hops@, last.hops@, i)
                        && i + 1 < accepted[j].hops@.len() && accepted[j].hops@[i + 1] == after;
                assert(shares(accepted[j].hops@, hops, i + 1));
                assert(touched(accepted, hops, i + 1));
            }
            if taken(pending, last.hops@, i, after) {
                let j = choose|j: int|
                    0 <= j < pending.len() && shares((#[trigger] pending[j]).hops@, last.hops@, i)
                        && i + 1 < pending[j].hops@.len() && pending[j].hops@[i + 1] == after;
                assert(shares(pending[j].hops@, hops, i + 1));
                assert(minimal(g, s, t, k, accepted, pending[j]));
                assert(pending[j].cost <= cost_of(g, links));
                assert(shares(pending[j].hops@, hops, i));
                assert(next[j] == pending[j]);
            } else {
                let c = found->0;
                assert(next[pending.len() as int] == c);
                assert(shares(c.hops@, hops, i));
            }
        }
    }
}

/// Accepting the cheapest pending path keeps everything in place.
proof fn lemma_accept(
    g: Seq<Edge>,
    n: nat,
    s: usize,
    t: usize,
    k: nat,
    accepted: Seq<Path>,
    pending: Seq<Path>,
    b: int,
)
    requires
        pool_ok(g, n, s, t, k, accepted, pending),
        settled(g, s, t, k, accepted),
        cover(
            g,
            s,
            t,
            k,
            accepted,
            pending,
            accepted.last().hops@,
            accepted.last().hops@.len() - 1,
        ),
        0 <= b < pending.len(),
        forall|j: int| 0 <= j < pending.len() ==> pending[b].cost <= (#[trigger] pending[j]).cost,
    ensures
        pool_ok(g, n, s, t, k, accepted.push(pending[b]), pending.remove(b)),
        settled(g, s, t, k, accepted.push(pending[b])),
        undercut(accepted, pending[b].cost as nat),
        cover(
            g,
            s,
            t,
            k,
            accepted.push(pending[b]),
            pending.remove(b),
            pending[b].hops@,
            0,
        ),
{
    let best = pending[b];
    let a2 = accepted.push(best);
    let p2 = pending.remove(b);
    let last = accepted[accepted.len() - 1];
    assert(ranked(g, s, t, k, best));
    assert(!known(accepted, best.hops@));
    assert(forall|j: int| 0 <= j < p2.len() ==> #[trigger] p2[j] == pending[if j < b { j } else { j + 1 }]);
    assert(forall|j: int| 0 <= j < accepted.len() ==> #[trigger] a2[j] == accepted[j]);
    assert(a2[accepted.len() as int] == best);
    assert(undercut(accepted, best.cost as nat)) by {
        assert(route(g, s, t, k, best.hops@, best.links@));
    }
    assert forall|hops: Seq<usize>, i: int| !touched(a2, hops, i) implies !#[trigger] touched(
        accepted,
        hops,
        i,
    ) by {
        if touched(accepted, hops, i) {
            let j = choose|j: int|
                0 <= j < accepted.len() && shares((#[trigger] accepted[j]).hops@, hops, i);
            assert(a2[j] == accepted[j]);
        }
    }
    assert forall|hops: Seq<usize>| !known(a2, hops) implies !#[trigger] known(accepted, hops) by {
        if known(accepted, hops) {
            let j = choose|j: int| 0 <= j < accepted.len() && (#[trigger] accepted[j]).hops@ == hops;
            assert(a2[j] == accepted[j]);
        }
    }
    assert(settled(g, s, t, k, a2)) by {
        assert forall|hops: Seq<usize>, links: Seq<usize>| #[trigger]
            route(g, s, t, k, hops, links) && !known(a2, hops) implies undercut(
            a2,
            cost_of(g, links),
        ) by {
            assert(!known(accepted, hops));
            let c = lemma_cheapest_pending(g, n, s, t, k, accepted, pending, hops, links);
            assert(undercut(accepted, cost_of(g, links)));
        }
    }
    assert(cover(g, s, t, k, a2, p2, best.hops@, 0)) by {
        assert forall|hops: Seq<usize>, links: Seq<usize>, i: int|
            #![trigger route(g, s, t, k, hops, links), touched(a2, hops, i)]
            route(g, s, t, k, hops, links) && 0 <= i && touched(a2, hops, i) && !touched(
                a2,
                hops,
                i + 1,
            ) && !known(a2, hops) && !shares(best.hops@, hops, i) implies covered(
            g,
            p2,
            hops,
            links,
            i,
        ) by {
            let j = choose|j: int| 0 <= j < a2.len() && shares((#[trigger] a2[j]).hops@, hops, i);
            assert(j < accepted.len());
            assert(shares(accepted[j].hops@, hops, i));
            assert(touched(accepted, hops, i));
            assert(!touched(accepted, hops, i + 1));
            assert(!known(accepted, hops));
            if shares(last.hops@, hops, i) && i >= last.hops@.len() - 1 {
                lemma_no_extension(g, s, t, k, last, hops, links, i);
            }
            assert(covered(g, pending, hops, links, i));
            let c = choose|c: int|
                0 <= c < pending.len() && shares((#[trigger] pending[c]).hops@, hops, i)
                    && pending[c].cost <= cost_of(g, links);
            assert(c != b);
            let d = if c < b { c } else { c - 1 };
            assert(p2[d] == pending[c]);
        }
    }
    assert(pool_ok(g, n, s, t, k, a2, p2)) by {
        assert(inside(a2, n));
        assert(inside(p2, n));
        assert forall|j: int| 0 <= j < p2.len() implies minimal(g, s, t, k, a2, #[trigger] p2[j]) by {
            let o = if j < b { j } else { j + 1 };
            assert(p2[j] == pending[o]);
            assert(minimal(g, s, t, k, accepted, pending[o]));
        }
        assert(distinct(a2)) by {
            assert forall|i: int, j: int| 0 <= i < j < a2.len() implies (#[trigger] a2[i]).hops@
                != (#[trigger] a2[j]).hops@ by {
                if j == accepted.len() {
                    assert(a2[i] == accepted[i]);
                } else {
                    assert(accepted[i].hops@ != accepted[j].hops@);
                }
            }
        }
        assert(distinct(p2)) by {
            assert forall|i: int, j: int| 0 <= i < j < p2.len() implies (#[trigger] p2[i]).hops@
                != (#[trigger] p2[j]).hops@ by {
                let oi = if i < b { i } else { i + 1 };
                let oj = if j < b { j } else { j + 1 };
                assert(pending[oi].hops@ != pending[oj].hops@);
            }
        }
        assert forall|j: int| 0 <= j < p2.len() implies !known(a2, (#[trigger] p2[j]).hops@) by {
            let o = if j < b { j } else { j + 1 };
            assert(p2[j] == pending[o]);
            if known(a2, p2[j].hops@) {
                let w = choose|w: int| 0 <= w < a2.len() && (#[trigger] a2[w]).hops@ == p2[j].hops@;
                if w < accepted.len() {
                    assert(accepted[w].hops@ == pending[o].hops@);
                    assert(known(accepted, pending[o].hops@));
                } else {
                    assert(pending[b].hops@ == pending[o].hops@);
                }
            }
        }
    }
}

/// The position of the cheapest path, the first one among equals.
fn cheapest(paths: &Vec<Path>) -> (b: usize)
    requires
        paths@.len() > 0,
    ensures
        b < paths@.len(),
        forall|j: int| 0 <= j < paths@.len() ==> paths@[b as int].cost <= (#[trigger] paths@[j]).cost,
        forall|j: int| 0 <= j < b ==> paths@[b as int].cost < (#[trigger] paths@[j]).cost,
{
    let mut b: usize = 0;
    let mut i: usize = 1;
    while i < paths.len()
        invariant
            1 <= i <= paths@.len(),
            b < i,
            forall|j: int| 0 <= j < i ==> paths@[b as int].cost <= (#[trigger] paths@[j]).cost,
            forall|j: int| 0 <= j < b ==> paths@[b as int].cost < (#[trigger] paths@[j]).cost,
        decreases paths@.len() - i,
    {
        if paths[i].cost < paths[b].cost {
            b = i;
        }
        i += 1;
    }
    b
}

/// Up to `limit` distinct loop-free routes from `s` to `t`, cheapest first.
///
/// Each further route is the cheapest one that leaves an accepted route at
/// some node along it, so a route that is left out never beats one that was
/// kept.
pub fn best_paths(
    g: &Vec<Edge>,
    n: usize,
    s: usize,
    t: usize,
    max_hops: usize,
    limit: usize,
) -> (r: Vec<Path>)
    requires
        bounded(g@, n as nat),
        s < n,
        t < n,
        max_hops <= MAX_HOPS,
    ensures
        best_routes(g@, s, t, max_hops as nat, limit as nat, r@),
        inside(r@, n as nat),
{
    let mut accepted: Vec<Path> = Vec::new();
    if limit == 0 {
        return accepted;
    }
    let ghost k = max_hops as nat;
    let edge_count: usize = g.len();
    let free_nodes: Vec<bool> = no_bans(n);
    let free_next: Vec<bool> = no_bans(n);
    let first: Option<Path> = shortest_path(g, s, t, max_hops, &free_nodes, &free_next);
    proof {
        assert forall|hops: Seq<usize>, links: Seq<usize>| #[trigger]
            route(g@, s, t, k, hops, links) implies (first matches Some(p) && p.cost <= cost_of(
            g@,
            links,
        )) by {
            lemma_route_nodes(g@, n as nat, s, t, k, hops, links);
            assert(avoids(hops, s, free_nodes@, free_next@));
            assert(walk(g@, hops, links));
        }
    }
    let best: Path = match first {
        None => {
            return accepted;
        },
        Some(path) => path,
    };
    proof {
        lemma_cheapest_is_tight(g@, best.hops@, best.links@);
    }
    accepted.push(best);
    let mut pending: Vec<Path> = Vec::new();
    let mut exhausted: bool = false;
    while !exhausted && accepted.len() < limit
        invariant
            bounded(g@, n as nat),
            s < n,
            t < n,
            max_hops <= MAX_HOPS,
            k == max_hops as nat,
            1 <= accepted@.len() <= limit,
            pool_ok(g@, n as nat, s, t, k, accepted@, pending@),
            settled(g@, s, t, k, accepted@),
            forall|i: int, j: int|
                0 <= i < j < accepted@.len() ==> (#[trigger] accepted@[i]).cost <= (
                #[trigger] accepted@[j]).cost,
            !exhausted ==> cover(
                g@,
                s,
                t,
                k,
                accepted@,
                pending@,
                accepted@.last().hops@,
                0,
            ),
            exhausted ==> pending@.len() == 0 && cover(
                g@,
                s,
                t,
                k,
                accepted@,
                pending@,
                accepted@.last().hops@,
                accepted@.last().hops@.len() - 1,
            ),
        decreases limit - accepted@.len(), if exhausted { 0int } else { 1int },
    {
        let last: usize = accepted.len() - 1;
        let turns: usize = accepted[last].hops.len() - 1;
        let mut i: usize = 0;
        while i < turns
            invariant
                bounded(g@, n as nat),
                t < n,
                max_hops <= MAX_HOPS,
                k == max_hops as nat,
                i <= turns,
                last == accepted@.len() - 1,
                turns == accepted@[last as int].hops@.len() - 1,
                pool_ok(g@, n as nat, s, t, k, accepted@, pending@),
                cover(
                    g@,
                    s,
                    t,
                    k,
                    accepted@,
                    pending@,
                    accepted@.last().hops@,
                    i as int,
                ),
            decreases turns - i,
        {
            let ghost before = pending@;
            let found: Option<Path> = spur(
                g,
                n,
                Ghost(s),
                t,
                max_hops,
                &accepted,
                &pending,
                &accepted[last],
                i,
            );
            proof {
                lemma_spur_pool(g@, n as nat, s, t, k, accepted@, before, i as int, found);
                lemma_spur_cover(g@, n as nat, s, t, k, accepted@, before, i as int, found);
            }
            match found {
                None => {},
                Some(path) => {
                    pending.push(path);
                },
            }
            i += 1;
        }
        if pending.len() == 0 {
            exhausted = true;
        } else {
            let b: usize = cheapest(&pending);
            let ghost before = pending@;
            proof {
                lemma_accept(g@, n as nat, s, t, k, accepted@, pending@, b as int);
            }
            let path: Path = pending.remove(b);
            accepted.push(path);
        }
    }
    proof {
        assert forall|hops: Seq<usize>, links: Seq<usize>| #[trigger]
            route(g@, s, t, k, hops, links) implies kept(accepted@, hops, cost_of(g@, links)) || (
        accepted@.len() == limit && undercut(accepted@, cost_of(g@, links))) by {
            if known(accepted@, hops) {
                let j = choose|j: int|
                    0 <= j < accepted@.len() && (#[trigger] accepted@[j]).hops@ == hops;
                let p = accepted@[j];
                lemma_tight_prefix(g@, p.hops@, p.links@, hops, links, links.len() as int);
                assert(p.links@.take(links.len() as int) =~= p.links@);
                assert(links.take(links.len() as int) =~= links);
            } else if exhausted {
                let c = lemma_cheapest_pending(
                    g@,
                    n as nat,
                    s,
                    t,
                    k,
                    accepted@,
                    pending@,
                    hops,
                    links,
                );
            }
        }
    }
    accepted
}

} // verus!
