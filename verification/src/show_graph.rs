//! A Crawl's graph, for readers and for scripts.

use crate::brand::{dim, heading, literal, reach_glyph, Term};
use crate::proto::{GraphReport, NodeInfo};
use crate::text::{decimal, join, pad, same, spaces};
use vstd::prelude::*;
use vstd::string::*;

verus! {

// ---------------------------------------------------------------------------
// States
// ---------------------------------------------------------------------------

/// Whether a report is about a node.
pub open spec fn touches(report: GraphReport, node_id: Seq<char>) -> bool {
    report.from@ == node_id || report.target@ == node_id
}

/// Whether some report finds a path from or to the node.
pub open spec fn has_path(node_id: Seq<char>, reports: Seq<GraphReport>) -> bool {
    exists|i: int|
        0 <= i < reports.len() && touches(#[trigger] reports[i], node_id) && reports[i].reachable
}

/// Whether some report is about the node.
pub open spec fn observed(node_id: Seq<char>, reports: Seq<GraphReport>) -> bool {
    exists|i: int| 0 <= i < reports.len() && touches(#[trigger] reports[i], node_id)
}

/// What the graph has observed of a node: one path that works makes it
/// reachable, only paths that do not make it severed, and no path at all
/// leaves it unprobed.
pub open spec fn state_of(node_id: Seq<char>, reports: Seq<GraphReport>) -> Option<bool> {
    if has_path(node_id, reports) {
        Some(true)
    } else if observed(node_id, reports) {
        Some(false)
    } else {
        None
    }
}

/// What the graph has observed of a node.
pub fn node_state(node_id: &str, reports: &[GraphReport]) -> (r: Option<bool>)
    ensures
        r == state_of(node_id@, reports@),
{
    let mut seen: bool = false;
    let mut i: usize = 0;
    while i < reports.len()
        invariant
            i <= reports@.len(),
            forall|j: int|
                0 <= j < i && touches(#[trigger] reports@[j], node_id@) ==> !reports@[j].reachable,
            seen ==> observed(node_id@, reports@),
            !seen ==> forall|j: int| 0 <= j < i ==> !touches(#[trigger] reports@[j], node_id@),
        decreases reports@.len() - i,
    {
        if same(reports[i].from.as_str(), node_id) || same(reports[i].target.as_str(), node_id) {
            assert(touches(reports@[i as int], node_id@));
            if reports[i].reachable {
                return Some(true);
            }
            seen = true;
        } else {
            assert(!touches(reports@[i as int], node_id@));
        }
        i += 1;
    }
    if seen {
        Some(false)
    } else {
        None
    }
}

/// The name of a state.
pub open spec fn state_name(state: Option<bool>) -> Seq<char> {
    match state {
        Some(true) => "reachable"@,
        Some(false) => "severed"@,
        None => "unprobed"@,
    }
}

/// The name of a state.
pub fn state_label(state: Option<bool>) -> (r: &'static str)
    ensures
        r@ == state_name(state),
{
    match state {
        Some(true) => "reachable",
        Some(false) => "severed",
        None => "unprobed",
    }
}

/// A node's state does not depend on the order of the observations.
pub proof fn law_state_ignores_order(
    node_id: Seq<char>,
    reports: Seq<GraphReport>,
    others: Seq<GraphReport>,
)
    requires
        forall|r: GraphReport| reports.contains(r) <==> others.contains(r),
    ensures
        state_of(node_id, reports) == state_of(node_id, others),
{
    assert forall|a: Seq<GraphReport>, b: Seq<GraphReport>|
        (forall|r: GraphReport| a.contains(r) <==> b.contains(r)) && #[trigger] has_path(
            node_id,
            a,
        ) implies #[trigger] has_path(node_id, b) by {
        let i = choose|i: int|
            0 <= i < a.len() && touches(#[trigger] a[i], node_id) && a[i].reachable;
        assert(a.contains(a[i]));
        assert(b.contains(a[i]));
        let j = b.index_of(a[i]);
        assert(touches(b[j], node_id));
    }
    assert forall|a: Seq<GraphReport>, b: Seq<GraphReport>|
        (forall|r: GraphReport| a.contains(r) <==> b.contains(r)) && #[trigger] observed(
            node_id,
            a,
        ) implies #[trigger] observed(node_id, b) by {
        let i = choose|i: int| 0 <= i < a.len() && touches(#[trigger] a[i], node_id);
        assert(a.contains(a[i]));
        assert(b.contains(a[i]));
        let j = b.index_of(a[i]);
        assert(touches(b[j], node_id));
    }
}

// ---------------------------------------------------------------------------
// For scripts
// ---------------------------------------------------------------------------

/// `role=addr` of a listener.
pub open spec fn listener_text(a: crate::proto::ListenAddrView) -> Seq<char> {
    a.role + "="@ + a.addr
}

/// A truth value in words.
pub open spec fn truth(b: bool) -> Seq<char> {
    if b {
        "true"@
    } else {
        "false"@
    }
}

/// A round trip in milliseconds. An absent one is a dash, which cannot be
/// read as zero.
pub open spec fn rtt_text(rtt: Option<u32>) -> Seq<char> {
    match rtt {
        Some(ms) => crate::text::decimal_of(ms as nat),
        None => "-"@,
    }
}

/// The line of a node.
pub open spec fn node_line(n: NodeInfo, reports: Seq<GraphReport>) -> Seq<char> {
    "node id="@ + n.node_id@ + " state="@ + state_name(state_of(n.node_id@, reports)) + " roles="@
        + crate::text::joined(crate::proto::texts(n.roles@), ","@) + " addrs="@
        + crate::text::joined(
        n@.listen_addrs.map_values(|a: crate::proto::ListenAddrView| listener_text(a)),
        ","@,
    )
}

/// The line of a link.
pub open spec fn link_line(r: GraphReport) -> Seq<char> {
    "link from="@ + r.from@ + " target="@ + r.target@ + " protocol="@ + r.protocol@
        + " reachable="@ + truth(r.reachable) + " rtt_ms="@ + rtt_text(r.rtt_ms)
}

/// The text of a round trip.
pub fn rtt(rtt_ms: Option<u32>) -> (r: String)
    ensures
        r@ == rtt_text(rtt_ms),
{
    match rtt_ms {
        Some(ms) => decimal(ms as u128),
        None => "-".to_owned(),
    }
}

fn node_text(node: &NodeInfo, reports: &[GraphReport]) -> (r: String)
    ensures
        r@ == node_line(*node, reports@),
{
    let ghost want = node@.listen_addrs.map_values(
        |a: crate::proto::ListenAddrView| listener_text(a),
    );
    let mut listeners: Vec<String> = Vec::new();
    let mut i: usize = 0;
    while i < node.listen_addrs.len()
        invariant
            i <= node.listen_addrs@.len(),
            want == node@.listen_addrs.map_values(
                |a: crate::proto::ListenAddrView| listener_text(a),
            ),
            listeners@.len() == i,
            forall|j: int| 0 <= j < i ==> (#[trigger] listeners@[j])@ == want[j],
        decreases node.listen_addrs@.len() - i,
    {
        let mut text: String = node.listen_addrs[i].role.clone();
        text.append("=");
        text.append(node.listen_addrs[i].addr.as_str());
        assert(text@ == want[i as int]);
        listeners.push(text);
        i += 1;
    }
    assert(listeners@.map_values(|s: String| s@) =~= want);
    assert(node.roles@.map_values(|s: String| s@) =~= crate::proto::texts(node.roles@));
    let mut r: String = "node id=".to_owned();
    r.append(node.node_id.as_str());
    r.append(" state=");
    r.append(state_label(node_state(node.node_id.as_str(), reports)));
    r.append(" roles=");
    r.append(join(&node.roles, ",").as_str());
    r.append(" addrs=");
    r.append(join(&listeners, ",").as_str());
    r
}

fn link_text(report: &GraphReport) -> (r: String)
    ensures
        r@ == link_line(*report),
{
    let mut r: String = "link from=".to_owned();
    r.append(report.from.as_str());
    r.append(" target=");
    r.append(report.target.as_str());
    r.append(" protocol=");
    r.append(report.protocol.as_str());
    r.append(" reachable=");
    r.append(
        if report.reachable {
            "true"
        } else {
            "false"
        },
    );
    r.append(" rtt_ms=");
    r.append(rtt(report.rtt_ms).as_str());
    r
}

/// The lines for a script: the nodes, then the links.
pub open spec fn plain(nodes: Seq<NodeInfo>, reports: Seq<GraphReport>) -> Seq<Seq<char>> {
    nodes.map_values(|n: NodeInfo| node_line(n, reports)) + reports.map_values(
        |r: GraphReport| link_line(r),
    )
}

/// The lines for a script.
pub fn plain_lines(nodes: &[NodeInfo], reports: &[GraphReport]) -> (r: Vec<String>)
    ensures
        crate::proto::texts(r@) == plain(nodes@, reports@),
{
    let ghost want = plain(nodes@, reports@);
    let mut r: Vec<String> = Vec::new();
    let mut i: usize = 0;
    while i < nodes.len()
        invariant
            i <= nodes@.len(),
            want == plain(nodes@, reports@),
            r@.len() == i,
            forall|j: int| 0 <= j < i ==> (#[trigger] r@[j])@ == want[j],
        decreases nodes@.len() - i,
    {
        let line: String = node_text(&nodes[i], reports);
        assert(want[i as int] == line@);
        r.push(line);
        i += 1;
    }
    let n: usize = nodes.len();
    let mut k: usize = 0;
    while k < reports.len()
        invariant
            k <= reports@.len(),
            n == nodes@.len(),
            want == plain(nodes@, reports@),
            r@.len() == n + k,
            forall|j: int| 0 <= j < n + k ==> (#[trigger] r@[j])@ == want[j],
        decreases reports@.len() - k,
    {
        let line: String = link_text(&reports[k]);
        assert(want[n + k] == line@);
        r.push(line);
        k += 1;
    }
    assert(crate::proto::texts(r@) =~= want);
    r
}

// ---------------------------------------------------------------------------
// For programs
// ---------------------------------------------------------------------------

/// A node as a document shows it.
#[derive(Debug)]
pub struct NodeShown {
    pub node_id: String,
    pub roles: Vec<String>,
    pub state: &'static str,
    /// Role and address.
    pub listen_addrs: Vec<(String, String)>,
}

/// Whether a document shows the node.
pub open spec fn shown(s: NodeShown, n: NodeInfo, reports: Seq<GraphReport>) -> bool {
    &&& s.node_id@ == n.node_id@
    &&& crate::proto::texts(s.roles@) == crate::proto::texts(n.roles@)
    &&& s.state@ == state_name(state_of(n.node_id@, reports))
    &&& s.listen_addrs@.len() == n.listen_addrs@.len()
    &&& forall|i: int|
        0 <= i < s.listen_addrs@.len() ==> (#[trigger] s.listen_addrs@[i]).0@
            == n.listen_addrs@[i].role@ && s.listen_addrs@[i].1@ == n.listen_addrs@[i].addr@
}

/// The nodes as a document shows them. The links are shown as they came.
pub fn shown_nodes(nodes: &[NodeInfo], reports: &[GraphReport]) -> (r: Vec<NodeShown>)
    ensures
        r@.len() == nodes@.len(),
        forall|i: int| 0 <= i < r@.len() ==> shown(#[trigger] r@[i], nodes@[i], reports@),
{
    let mut r: Vec<NodeShown> = Vec::new();
    let mut i: usize = 0;
    while i < nodes.len()
        invariant
            i <= nodes@.len(),
            r@.len() == i,
            forall|j: int| 0 <= j < i ==> shown(#[trigger] r@[j], nodes@[j], reports@),
        decreases nodes@.len() - i,
    {
        let node: &NodeInfo = &nodes[i];
        let mut listeners: Vec<(String, String)> = Vec::new();
        let mut k: usize = 0;
        while k < node.listen_addrs.len()
            invariant
                k <= node.listen_addrs@.len(),
                listeners@.len() == k,
                forall|j: int|
                    0 <= j < k ==> (#[trigger] listeners@[j]).0@ == node.listen_addrs@[j].role@
                        && listeners@[j].1@ == node.listen_addrs@[j].addr@,
            decreases node.listen_addrs@.len() - k,
        {
            listeners.push((node.listen_addrs[k].role.clone(), node.listen_addrs[k].addr.clone()));
            k += 1;
        }
        r.push(
            NodeShown {
                node_id: node.node_id.clone(),
                roles: crate::proto::copy_texts(&node.roles),
                state: state_label(node_state(node.node_id.as_str(), reports)),
                listen_addrs: listeners,
            },
        );
        i += 1;
    }
    r
}

// ---------------------------------------------------------------------------
// For readers
// ---------------------------------------------------------------------------

/// The length of the longest id.
pub open spec fn id_width(nodes: Seq<NodeInfo>) -> nat {
    crate::brand::widest(nodes.map_values(|n: NodeInfo| n.node_id@))
}

/// A link's two ends.
pub open spec fn path_text(r: GraphReport) -> Seq<char> {
    r.from@ + " \u{2192} "@ + r.target@
}

/// The length of the longest pair of ends.
pub open spec fn path_width(reports: Seq<GraphReport>) -> nat {
    crate::brand::widest(reports.map_values(|r: GraphReport| path_text(r)))
}

/// The roles of a node, for a reader.
pub open spec fn roles_text(n: NodeInfo, on: bool) -> Seq<char> {
    if n.roles@.len() == 0 {
        crate::brand::toned("no roles"@, crate::brand::Tone::Unknown, on)
    } else {
        crate::text::joined(crate::proto::texts(n.roles@), ", "@)
    }
}

/// The row of a node.
pub open spec fn node_row(n: NodeInfo, reports: Seq<GraphReport>, width: nat, on: bool) -> Seq<
    char,
> {
    let state = state_of(n.node_id@, reports);
    "  "@ + crate::brand::toned(crate::brand::glyph(state), crate::brand::tone_of(state), on) + " "@
        + crate::brand::typed(n.node_id@, on) + crate::text::blanks(
        if n.node_id@.len() < width {
            (width - n.node_id@.len()) as nat
        } else {
            0
        },
    ) + "  "@ + roles_text(n, on)
}

/// The row of a listener.
pub open spec fn listener_row(a: crate::proto::ListenAddr, width: nat, on: bool) -> Seq<char> {
    "    "@ + crate::text::blanks(width) + "  "@ + crate::brand::toned(
        a.role@ + ":"@,
        crate::brand::Tone::Unknown,
        on,
    ) + " "@ + a.addr@
}

/// The rows of a node: its own, and one for each listener.
pub open spec fn node_rows(n: NodeInfo, reports: Seq<GraphReport>, width: nat, on: bool) -> Seq<
    Seq<char>,
> {
    seq![node_row(n, reports, width, on)] + n.listen_addrs@.map_values(
        |a: crate::proto::ListenAddr| listener_row(a, width, on),
    )
}

/// The rows of the first `k` nodes.
pub open spec fn all_node_rows(
    nodes: Seq<NodeInfo>,
    k: int,
    reports: Seq<GraphReport>,
    width: nat,
    on: bool,
) -> Seq<Seq<char>>
    decreases k,
{
    if k <= 0 {
        Seq::empty()
    } else {
        all_node_rows(nodes, k - 1, reports, width, on) + node_rows(
            nodes[k - 1],
            reports,
            width,
            on,
        )
    }
}

/// The round trip, for a reader.
pub open spec fn rtt_cell(rtt: Option<u32>, on: bool) -> Seq<char> {
    match rtt {
        Some(ms) => crate::text::decimal_of(ms as nat) + " ms"@,
        None => crate::brand::toned("\u{2014}"@, crate::brand::Tone::Unknown, on),
    }
}

/// The row of a link.
pub open spec fn link_row(r: GraphReport, width: nat, on: bool) -> Seq<char> {
    "  "@ + crate::brand::toned(
        crate::brand::glyph(Some(r.reachable)),
        crate::brand::tone_of(Some(r.reachable)),
        on,
    ) + " "@ + crate::text::padded(path_text(r), width) + "  "@ + crate::text::padded(
        r.protocol@,
        8,
    ) + "  "@ + rtt_cell(r.rtt_ms, on)
}

/// The part about the nodes.
pub open spec fn node_part(nodes: Seq<NodeInfo>, reports: Seq<GraphReport>, on: bool) -> Seq<
    Seq<char>,
> {
    if nodes.len() == 0 {
        Seq::empty()
    } else {
        seq![crate::brand::headed("Nodes"@, on)] + all_node_rows(
            nodes,
            nodes.len() as int,
            reports,
            id_width(nodes),
            on,
        )
    }
}

/// The part about the links.
pub open spec fn link_part(reports: Seq<GraphReport>, on: bool) -> Seq<Seq<char>> {
    if reports.len() == 0 {
        Seq::empty()
    } else {
        seq![crate::brand::headed("Links"@, on)] + reports.map_values(
            |r: GraphReport| link_row(r, path_width(reports), on),
        )
    }
}

/// The lines for a reader.
pub open spec fn pretty(nodes: Seq<NodeInfo>, reports: Seq<GraphReport>, on: bool) -> Seq<
    Seq<char>,
> {
    if nodes.len() == 0 && reports.len() == 0 {
        seq![
            crate::brand::toned(
                "crawl holds no nodes and no links"@,
                crate::brand::Tone::Unknown,
                on,
            ),
        ]
    } else {
        node_part(nodes, reports, on) + (if nodes.len() > 0 && reports.len() > 0 {
            seq![Seq::<char>::empty()]
        } else {
            Seq::empty()
        }) + link_part(reports, on)
    }
}

fn node_row_text(node: &NodeInfo, reports: &[GraphReport], width: usize, term: &Term) -> (r: String)
    ensures
        r@ == node_row(*node, reports@, width as nat, term.colored()),
{
    let columns: usize = node.node_id.as_str().unicode_len();
    let mut r: String = "  ".to_owned();
    r.append(reach_glyph(node_state(node.node_id.as_str(), reports), term).as_str());
    r.append(" ");
    r.append(literal(node.node_id.as_str(), term).as_str());
    r.append(
        spaces(
            if columns < width {
                width - columns
            } else {
                0
            },
        ).as_str(),
    );
    r.append("  ");
    if node.roles.len() == 0 {
        r.append(dim("no roles", term).as_str());
    } else {
        assert(node.roles@.map_values(|s: String| s@) =~= crate::proto::texts(node.roles@));
        r.append(join(&node.roles, ", ").as_str());
    }
    r
}

fn listener_row_text(listener: &crate::proto::ListenAddr, width: usize, term: &Term) -> (r: String)
    ensures
        r@ == listener_row(*listener, width as nat, term.colored()),
{
    let mut role: String = listener.role.clone();
    role.append(":");
    let mut r: String = "    ".to_owned();
    r.append(spaces(width).as_str());
    r.append("  ");
    r.append(dim(role.as_str(), term).as_str());
    r.append(" ");
    r.append(listener.addr.as_str());
    r
}

/// Puts the rows of a node behind what is there.
fn push_node(
    out: &mut Vec<String>,
    node: &NodeInfo,
    reports: &[GraphReport],
    width: usize,
    term: &Term,
)
    ensures
        crate::proto::texts(final(out)@) == crate::proto::texts(old(out)@) + node_rows(
            *node,
            reports@,
            width as nat,
            term.colored(),
        ),
{
    let ghost start = crate::proto::texts(out@);
    let ghost rows = node_rows(*node, reports@, width as nat, term.colored());
    let own: String = node_row_text(node, reports, width, term);
    out.push(own);
    assert(crate::proto::texts(out@) =~= start + rows.take(1));
    let mut i: usize = 0;
    while i < node.listen_addrs.len()
        invariant
            i <= node.listen_addrs@.len(),
            rows == node_rows(*node, reports@, width as nat, term.colored()),
            crate::proto::texts(out@) == start + rows.take(i + 1),
        decreases node.listen_addrs@.len() - i,
    {
        let ghost before = crate::proto::texts(out@);
        let row: String = listener_row_text(&node.listen_addrs[i], width, term);
        assert(rows[i + 1] == row@);
        out.push(row);
        assert(crate::proto::texts(out@) =~= before.push(row@));
        assert(rows.take(i + 2) =~= rows.take(i + 1).push(row@));
        assert(crate::proto::texts(out@) =~= start + rows.take(i + 2));
        i += 1;
    }
    assert(rows.take(rows.len() as int) =~= rows);
}

fn path_of(report: &GraphReport) -> (r: String)
    ensures
        r@ == path_text(*report),
{
    let mut r: String = report.from.clone();
    r.append(" \u{2192} ");
    r.append(report.target.as_str());
    r
}

fn link_row_text(report: &GraphReport, width: usize, term: &Term) -> (r: String)
    ensures
        r@ == link_row(*report, width as nat, term.colored()),
{
    let mut r: String = "  ".to_owned();
    r.append(reach_glyph(Some(report.reachable), term).as_str());
    r.append(" ");
    r.append(pad(path_of(report).as_str(), width).as_str());
    r.append("  ");
    r.append(pad(report.protocol.as_str(), 8).as_str());
    r.append("  ");
    match report.rtt_ms {
        Some(ms) => {
            let mut cell: String = decimal(ms as u128);
            cell.append(" ms");
            r.append(cell.as_str());
        },
        None => {
            r.append(dim("\u{2014}", term).as_str());
        },
    }
    r
}

/// The length of the longest id.
fn widest_id(nodes: &[NodeInfo]) -> (r: usize)
    ensures
        r == id_width(nodes@),
{
    let ghost all = nodes@.map_values(|n: NodeInfo| n.node_id@);
    let mut r: usize = 0;
    let mut i: usize = 0;
    assert(all.take(0) =~= Seq::<Seq<char>>::empty());
    while i < nodes.len()
        invariant
            i <= nodes@.len(),
            all == nodes@.map_values(|n: NodeInfo| n.node_id@),
            r == crate::brand::widest(all.take(i as int)),
        decreases nodes@.len() - i,
    {
        assert(all.take(i + 1).drop_last() =~= all.take(i as int));
        assert(all.take(i + 1).last() == nodes@[i as int].node_id@);
        let n: usize = nodes[i].node_id.as_str().unicode_len();
        if n > r {
            r = n;
        }
        i += 1;
    }
    assert(all.take(all.len() as int) =~= all);
    r
}

/// The length of the longest pair of ends.
fn widest_path(reports: &[GraphReport]) -> (r: usize)
    ensures
        r == path_width(reports@),
{
    let ghost all = reports@.map_values(|r: GraphReport| path_text(r));
    let mut r: usize = 0;
    let mut i: usize = 0;
    assert(all.take(0) =~= Seq::<Seq<char>>::empty());
    while i < reports.len()
        invariant
            i <= reports@.len(),
            all == reports@.map_values(|r: GraphReport| path_text(r)),
            r == crate::brand::widest(all.take(i as int)),
        decreases reports@.len() - i,
    {
        assert(all.take(i + 1).drop_last() =~= all.take(i as int));
        assert(all.take(i + 1).last() == path_text(reports@[i as int]));
        let n: usize = path_of(&reports[i]).as_str().unicode_len();
        if n > r {
            r = n;
        }
        i += 1;
    }
    assert(all.take(all.len() as int) =~= all);
    r
}

/// Puts the part about the nodes behind what is there.
fn push_nodes(out: &mut Vec<String>, nodes: &[NodeInfo], reports: &[GraphReport], term: &Term)
    ensures
        crate::proto::texts(final(out)@) == crate::proto::texts(old(out)@) + node_part(
            nodes@,
            reports@,
            term.colored(),
        ),
{
    let ghost start = crate::proto::texts(out@);
    let ghost on = term.colored();
    if nodes.len() == 0 {
        assert(start + node_part(nodes@, reports@, on) =~= start);
        return ;
    }
    let title: String = heading("Nodes", term);
    out.push(title);
    let ghost titled = crate::proto::texts(out@);
    assert(titled =~= start + seq![title@]);
    let width: usize = widest_id(nodes);
    let mut i: usize = 0;
    assert(titled =~= titled + all_node_rows(nodes@, 0, reports@, width as nat, on));
    while i < nodes.len()
        invariant
            i <= nodes@.len(),
            on == term.colored(),
            crate::proto::texts(out@) == titled + all_node_rows(
                nodes@,
                i as int,
                reports@,
                width as nat,
                on,
            ),
        decreases nodes@.len() - i,
    {
        push_node(out, &nodes[i], reports, width, term);
        assert(crate::proto::texts(out@) =~= titled + all_node_rows(
            nodes@,
            i + 1,
            reports@,
            width as nat,
            on,
        ));
        i += 1;
    }
    assert(crate::proto::texts(out@) =~= start + node_part(nodes@, reports@, on));
}

/// Puts the part about the links behind what is there.
fn push_links(out: &mut Vec<String>, reports: &[GraphReport], term: &Term)
    ensures
        crate::proto::texts(final(out)@) == crate::proto::texts(old(out)@) + link_part(
            reports@,
            term.colored(),
        ),
{
    let ghost start = crate::proto::texts(out@);
    let ghost on = term.colored();
    if reports.len() == 0 {
        assert(start + link_part(reports@, on) =~= start);
        return ;
    }
    let width: usize = widest_path(reports);
    let ghost rows = reports@.map_values(|r: GraphReport| link_row(r, width as nat, on));
    let title: String = heading("Links", term);
    out.push(title);
    let ghost titled = crate::proto::texts(out@);
    assert(titled =~= start + seq![title@]);
    let mut i: usize = 0;
    assert(titled =~= titled + rows.take(0));
    while i < reports.len()
        invariant
            i <= reports@.len(),
            on == term.colored(),
            rows == reports@.map_values(|r: GraphReport| link_row(r, width as nat, on)),
            crate::proto::texts(out@) == titled + rows.take(i as int),
        decreases reports@.len() - i,
    {
        let ghost before = crate::proto::texts(out@);
        let row: String = link_row_text(&reports[i], width, term);
        assert(rows[i as int] == row@);
        out.push(row);
        assert(crate::proto::texts(out@) =~= before.push(row@));
        assert(rows.take(i + 1) =~= rows.take(i as int).push(row@));
        assert(crate::proto::texts(out@) =~= titled + rows.take(i + 1));
        i += 1;
    }
    assert(rows.take(rows.len() as int) =~= rows);
    assert(crate::proto::texts(out@) =~= start + link_part(reports@, on));
}

/// The lines for a reader.
pub fn pretty_lines(nodes: &[NodeInfo], reports: &[GraphReport], term: &Term) -> (r: Vec<String>)
    ensures
        crate::proto::texts(r@) == pretty(nodes@, reports@, term.colored()),
{
    let ghost on = term.colored();
    let mut r: Vec<String> = Vec::new();
    assert(crate::proto::texts(r@) =~= Seq::<Seq<char>>::empty());
    if nodes.len() == 0 && reports.len() == 0 {
        let line: String = dim("crawl holds no nodes and no links", term);
        r.push(line);
        assert(crate::proto::texts(r@) =~= seq![line@]);
        return r;
    }
    push_nodes(&mut r, nodes, reports, term);
    assert(crate::proto::texts(r@) =~= node_part(nodes@, reports@, on));
    if nodes.len() > 0 && reports.len() > 0 {
        let ghost before = crate::proto::texts(r@);
        r.push(String::new());
        assert(crate::proto::texts(r@) =~= before + seq![Seq::<char>::empty()]);
    } else {
        assert(crate::proto::texts(r@) =~= crate::proto::texts(r@) + Seq::<Seq<char>>::empty());
    }
    push_links(&mut r, reports, term);
    assert(crate::proto::texts(r@) =~= pretty(nodes@, reports@, on));
    r
}

// ---------------------------------------------------------------------------
// What the lines are held to
// ---------------------------------------------------------------------------

/// A node is reachable exactly when some report from or to it found a path,
/// severed when there are such reports and none of them did, and unprobed when
/// there is none.
pub proof fn law_states(node_id: Seq<char>, reports: Seq<GraphReport>)
    ensures
        state_of(node_id, reports) == Some(true) <==> exists|i: int|
            0 <= i < reports.len() && (#[trigger] reports[i]).reachable && (reports[i].from@
                == node_id || reports[i].target@ == node_id),
        state_of(node_id, reports) is None <==> forall|i: int|
            0 <= i < reports.len() ==> (#[trigger] reports[i]).from@ != node_id
                && reports[i].target@ != node_id,
        state_name(Some(true)) == "reachable"@,
        state_name(Some(false)) == "severed"@,
        state_name(None) == "unprobed"@,
{
    if exists|i: int|
        0 <= i < reports.len() && (#[trigger] reports[i]).reachable && (reports[i].from@ == node_id
            || reports[i].target@ == node_id) {
        let i = choose|i: int|
            0 <= i < reports.len() && (#[trigger] reports[i]).reachable && (reports[i].from@
                == node_id || reports[i].target@ == node_id);
        assert(touches(reports[i], node_id));
    }
    if !(forall|i: int|
        0 <= i < reports.len() ==> (#[trigger] reports[i]).from@ != node_id && reports[i].target@
            != node_id) {
        let i = choose|i: int|
            0 <= i < reports.len() && !((#[trigger] reports[i]).from@ != node_id
                && reports[i].target@ != node_id);
        assert(touches(reports[i], node_id));
    }
}

/// The line of a node names its id, its state, each of its roles and each of
/// its listeners, in order and separated by commas: the roles are `parts.0`,
/// the listeners, role before address, `parts.1`.
pub proof fn law_a_node_line_names_everything(node: NodeInfo, reports: Seq<GraphReport>) -> (parts: (
    Seq<Seq<char>>,
    Seq<Seq<char>>,
))
    ensures
        node_line(node, reports) == "node id="@ + node.node_id@ + " state="@ + state_name(
            state_of(node.node_id@, reports),
        ) + " roles="@ + crate::text::joined(parts.0, ","@) + " addrs="@ + crate::text::joined(
            parts.1,
            ","@,
        ),
        parts.0.len() == node.roles@.len(),
        forall|i: int| 0 <= i < node.roles@.len() ==> parts.0[i] == (#[trigger] node.roles@[i])@,
        parts.1.len() == node.listen_addrs@.len(),
        forall|i: int|
            0 <= i < node.listen_addrs@.len() ==> parts.1[i] == (
            #[trigger] node.listen_addrs@[i]).role@ + "="@ + node.listen_addrs@[i].addr@,
{
    let roles = crate::proto::texts(node.roles@);
    let addrs = node@.listen_addrs.map_values(|a: crate::proto::ListenAddrView| listener_text(a));
    assert forall|i: int| 0 <= i < node.listen_addrs@.len() implies addrs[i] == (
    #[trigger] node.listen_addrs@[i]).role@ + "="@ + node.listen_addrs@[i].addr@ by {
        assert(node@.listen_addrs[i] == node.listen_addrs@[i]@);
    }
    (roles, addrs)
}

/// Every listener of a node is read back from what follows ` addrs=` in its
/// line: split at the commas it gives as many pieces as there are listeners,
/// each a role, an equals sign and an address. (Where no role and no address
/// holds a comma.)
pub proof fn law_listeners_are_read_back(node: NodeInfo, reports: Seq<GraphReport>, tail: Seq<char>)
    requires
        node.listen_addrs@.len() > 0,
        forall|i: int, k: int|
            0 <= i < node.listen_addrs@.len() && 0 <= k < node.listen_addrs@[i].role@.len()
                ==> #[trigger] node.listen_addrs@[i].role@[k] != ',',
        forall|i: int, k: int|
            0 <= i < node.listen_addrs@.len() && 0 <= k < node.listen_addrs@[i].addr@.len()
                ==> #[trigger] node.listen_addrs@[i].addr@[k] != ',',
        node_line(node, reports) == "node id="@ + node.node_id@ + " state="@ + state_name(
            state_of(node.node_id@, reports),
        ) + " roles="@ + crate::text::joined(crate::proto::texts(node.roles@), ","@) + " addrs="@
            + tail,
    ensures
        crate::text::pieces(tail, ',').len() == node.listen_addrs@.len(),
        forall|i: int|
            0 <= i < node.listen_addrs@.len() ==> crate::text::pieces(tail, ',')[i] == (
            #[trigger] node.listen_addrs@[i]).role@ + "="@ + node.listen_addrs@[i].addr@,
{
    let parts = law_a_node_line_names_everything(node, reports);
    let list = parts.1;
    let front = "node id="@ + node.node_id@ + " state="@ + state_name(
        state_of(node.node_id@, reports),
    ) + " roles="@ + crate::text::joined(crate::proto::texts(node.roles@), ","@) + " addrs="@;
    assert(parts.0 =~= crate::proto::texts(node.roles@));
    let rest = crate::text::joined(list, ","@);
    assert((front + tail).skip(front.len() as int) =~= tail);
    assert((front + rest).skip(front.len() as int) =~= rest);
    reveal_strlit(",");
    reveal_strlit("=");
    assert(","@ =~= seq![',']);
    assert forall|j: int, i: int|
        0 <= j < list.len() && 0 <= i < list[j].len() implies #[trigger] list[j][i] != ',' by {
        let role = node.listen_addrs@[j].role@;
        let addr = node.listen_addrs@[j].addr@;
        assert(list[j] == role + "="@ + addr);
        if i < role.len() {
            assert(node.listen_addrs@[j].role@[i] != ',');
        } else if i > role.len() {
            assert(node.listen_addrs@[j].addr@[i - role.len() - 1] != ',');
        }
    }
    crate::text::law_joined_texts_are_read_back(list, ',');
}

/// The lines for a script are one for each node, in order, and then one for
/// each report, with both ends, the protocol, what was found and the round
/// trip: its milliseconds, or a dash.
pub proof fn law_plain_lines(nodes: Seq<NodeInfo>, reports: Seq<GraphReport>, i: int)
    ensures
        plain(nodes, reports).len() == nodes.len() + reports.len(),
        0 <= i < nodes.len() ==> plain(nodes, reports)[i] == node_line(nodes[i], reports),
        0 <= i < reports.len() ==> {
            let r = reports[i];
            plain(nodes, reports)[nodes.len() + i] == "link from="@ + r.from@ + " target="@
                + r.target@ + " protocol="@ + r.protocol@ + " reachable="@ + (if r.reachable {
                "true"@
            } else {
                "false"@
            }) + " rtt_ms="@ + (match r.rtt_ms {
                Some(ms) => crate::text::decimal_of(ms as nat),
                None => "-"@,
            })
        },
{
}

/// Where the row of each node stands.
spec fn row_places(nodes: Seq<NodeInfo>, k: int) -> int
    decreases k,
{
    if k <= 0 {
        0
    } else {
        row_places(nodes, k - 1) + 1 + nodes[k - 1].listen_addrs@.len()
    }
}

proof fn lemma_node_rows_at(
    nodes: Seq<NodeInfo>,
    k: int,
    reports: Seq<GraphReport>,
    width: nat,
    on: bool,
)
    requires
        0 <= k <= nodes.len(),
    ensures
        all_node_rows(nodes, k, reports, width, on).len() == row_places(nodes, k),
        forall|j: int|
            0 <= j < k ==> 0 <= #[trigger] row_places(nodes, j) && row_places(nodes, j)
                + nodes[j].listen_addrs@.len() < row_places(nodes, k) && all_node_rows(nodes, k, reports, width, on)[row_places(nodes, j)] == node_row(
                nodes[j],
                reports,
                width,
                on,
            ),
        forall|j: int, a: int|
            #![trigger listener_row(nodes[j].listen_addrs@[a], width, on)]
            0 <= j < k && 0 <= a < nodes[j].listen_addrs@.len() ==> all_node_rows(nodes, k, reports, width, on)[row_places(
                nodes,
                j,
            ) + 1 + a] == listener_row(nodes[j].listen_addrs@[a], width, on),
    decreases k,
{
    if k > 0 {
        lemma_node_rows_at(nodes, k - 1, reports, width, on);
        let before = all_node_rows(nodes, k - 1, reports, width, on);
        let more = node_rows(nodes[k - 1], reports, width, on);
        let all = all_node_rows(nodes, k, reports, width, on);
        assert(all == before + more);
        assert(more.len() == 1 + nodes[k - 1].listen_addrs@.len());
        assert(more[0] == node_row(nodes[k - 1], reports, width, on));
        assert forall|j: int, a: int|
            #![trigger listener_row(nodes[j].listen_addrs@[a], width, on)]
            0 <= j < k && 0 <= a < nodes[j].listen_addrs@.len() implies all[row_places(nodes, j) + 1 + a] == listener_row(
            nodes[j].listen_addrs@[a],
            width,
            on,
        ) by {
            let row = listener_row(nodes[j].listen_addrs@[a], width, on);
            if j < k - 1 {
                assert(row_places(nodes, j) + nodes[j].listen_addrs@.len() < row_places(nodes, k - 1));
                assert(all[row_places(nodes, j) + 1 + a] == before[row_places(nodes, j) + 1 + a]);
            } else {
                assert(all[row_places(nodes, j) + 1 + a] == more[1 + a]);
                assert(more[1 + a] == listener_row(nodes[j].listen_addrs@[a], width, on));
            }
        }
    }
}

/// The lines for a reader show everything: a heading and, for each node, a row
/// with its sign, its id and its roles, followed by a row for each of its
/// listeners; then, after an empty line where there were nodes, a heading and a
/// row for each link. Node `j` has its row at `at.0[j]`, the links start behind
/// `at.1`.
pub proof fn law_pretty_lines_show_everything(
    nodes: Seq<NodeInfo>,
    reports: Seq<GraphReport>,
    on: bool,
) -> (at: (Seq<int>, int))
    requires
        nodes.len() + reports.len() > 0,
    ensures
        ({
            let lines = pretty(nodes, reports, on);
            &&& at.0.len() == nodes.len()
            &&& nodes.len() > 0 ==> at.0[0] == 1 && lines[0] == crate::brand::headed("Nodes"@, on)
            &&& forall|j: int|
                1 <= j < nodes.len() ==> #[trigger] at.0[j] == at.0[j - 1] + 1 + nodes[j
                    - 1].listen_addrs@.len()
            &&& forall|j: int|
                0 <= j < nodes.len() ==> 0 <= #[trigger] at.0[j] && at.0[j] + nodes[j].listen_addrs@.len()
                    < lines.len() && lines[at.0[j]] == node_row(nodes[j], reports, id_width(nodes), on)
            &&& forall|j: int, a: int|
                #![trigger listener_row(nodes[j].listen_addrs@[a], id_width(nodes), on)]
                0 <= j < nodes.len() && 0 <= a < nodes[j].listen_addrs@.len() ==> lines[at.0[j] + 1
                    + a] == listener_row(
                    nodes[j].listen_addrs@[a],
                    id_width(nodes),
                    on,
                )
            &&& reports.len() > 0 ==> {
                &&& at.1 == if nodes.len() == 0 {
                    0
                } else {
                    at.0[nodes.len() - 1] + 2 + nodes[nodes.len() - 1].listen_addrs@.len()
                }
                &&& lines.len() == at.1 + 1 + reports.len()
                &&& lines[at.1] == crate::brand::headed("Links"@, on)
                &&& nodes.len() > 0 ==> lines[at.1 - 1].len() == 0
                &&& forall|i: int|
                    0 <= i < reports.len() ==> lines[at.1 + 1 + i] == link_row(
                        #[trigger] reports[i],
                        path_width(reports),
                        on,
                    )
            }
            &&& reports.len() == 0 ==> lines.len() == at.0[nodes.len() - 1] + 1 + nodes[nodes.len()
                - 1].listen_addrs@.len()
        }),
{
    let width = id_width(nodes);
    let n = nodes.len() as int;
    lemma_node_rows_at(nodes, n, reports, width, on);
    let places = Seq::new(nodes.len(), |j: int| 1 + row_places(nodes, j));
    let rows = all_node_rows(nodes, n, reports, width, on);
    let lines = pretty(nodes, reports, on);
    let first = node_part(nodes, reports, on);
    if n > 0 {
        assert(first == seq![crate::brand::headed("Nodes"@, on)] + rows);
        assert(row_places(nodes, n) == row_places(nodes, n - 1) + 1 + nodes[n
            - 1].listen_addrs@.len());
        assert forall|j: int| 0 <= j < n implies 0 <= #[trigger] places[j] && places[j]
            + nodes[j].listen_addrs@.len() < lines.len() && lines[places[j]] == node_row(nodes[j], reports, width, on) by {
            assert(row_places(nodes, j) < row_places(nodes, n));
            assert(first[1 + row_places(nodes, j)] == rows[row_places(nodes, j)]);
        }
        assert forall|j: int, a: int|
            #![trigger listener_row(nodes[j].listen_addrs@[a], width, on)]
            0 <= j < n && 0 <= a < nodes[j].listen_addrs@.len() implies lines[places[j] + 1 + a] == listener_row(
            nodes[j].listen_addrs@[a],
            width,
            on,
        ) by {
            let row = listener_row(nodes[j].listen_addrs@[a], width, on);
            assert(first[1 + row_places(nodes, j) + 1 + a] == rows[row_places(nodes, j) + 1 + a]);
        }
    }
    let links_at: int = if n == 0 {
        0
    } else {
        (first.len() + 1) as int
    };
    if reports.len() > 0 {
        let last = link_part(reports, on);
        assert forall|i: int| 0 <= i < reports.len() implies lines[links_at + 1 + i] == link_row(
            #[trigger] reports[i],
            path_width(reports),
            on,
        ) by {
            assert(last[1 + i] == link_row(reports[i], path_width(reports), on));
        }
    }
    (places, links_at)
}

/// Without colour the row of a node is its sign, its id filled up to the width
/// of the widest, and its roles; that of a listener its role and address, that
/// of a link its sign, its ends, its protocol and its round trip.
pub proof fn law_plain_rows(
    node: NodeInfo,
    listener: crate::proto::ListenAddr,
    report: GraphReport,
    reports: Seq<GraphReport>,
    width: nat,
)
    requires
        node.node_id@.len() <= width,
    ensures
        node_row(node, reports, width, false) == "  "@ + crate::brand::glyph(
            state_of(node.node_id@, reports),
        ) + " "@ + crate::text::padded(node.node_id@, width) + "  "@ + (if node.roles@.len() == 0 {
            "no roles"@
        } else {
            crate::text::joined(crate::proto::texts(node.roles@), ", "@)
        }),
        listener_row(listener, width, false) == "    "@ + crate::text::blanks(width) + "  "@
            + listener.role@ + ":"@ + " "@ + listener.addr@,
        link_row(report, width, false) == "  "@ + crate::brand::glyph(Some(report.reachable))
            + " "@ + crate::text::padded(report.from@ + " \u{2192} "@ + report.target@, width)
            + "  "@ + crate::text::padded(report.protocol@, 8) + "  "@ + (match report.rtt_ms {
            Some(ms) => crate::text::decimal_of(ms as nat) + " ms"@,
            None => "\u{2014}"@,
        }),
{
    let sign = crate::brand::glyph(state_of(node.node_id@, reports));
    let front = "  "@ + sign + " "@;
    let pad = if node.node_id@.len() < width {
        (width - node.node_id@.len()) as nat
    } else {
        0
    };
    assert(front + node.node_id@ + crate::text::blanks(pad) =~= front + crate::text::padded(
        node.node_id@,
        width,
    ));
    assert(listener_row(listener, width, false) =~= "    "@ + crate::text::blanks(width) + "  "@
        + listener.role@ + ":"@ + " "@ + listener.addr@);
}

/// The widths fit: no id and no pair of ends is wider than its column, and one
/// is as wide.
pub proof fn law_columns_fit(nodes: Seq<NodeInfo>, reports: Seq<GraphReport>)
    ensures
        forall|i: int| 0 <= i < nodes.len() ==> (#[trigger] nodes[i]).node_id@.len() <= id_width(nodes),
        nodes.len() > 0 ==> exists|i: int|
            0 <= i < nodes.len() && (#[trigger] nodes[i]).node_id@.len() == id_width(nodes),
        forall|i: int|
            0 <= i < reports.len() ==> (#[trigger] reports[i]).from@.len() + 3
                + reports[i].target@.len() <= path_width(reports),
        reports.len() > 0 ==> exists|i: int|
            0 <= i < reports.len() && (#[trigger] reports[i]).from@.len() + 3
                + reports[i].target@.len() == path_width(reports),
{
    let ids = nodes.map_values(|n: NodeInfo| n.node_id@);
    let ends = reports.map_values(|r: GraphReport| path_text(r));
    reveal_strlit(" \u{2192} ");
    if nodes.len() > 0 {
        let w = crate::brand::lemma_widest(ids);
        assert(nodes[w].node_id@.len() == id_width(nodes));
    }
    if reports.len() > 0 {
        let w = crate::brand::lemma_widest(ends);
        assert(ends[w] == path_text(reports[w]));
        assert(reports[w].from@.len() + 3 + reports[w].target@.len() == path_width(reports));
    }
    assert forall|i: int| 0 <= i < nodes.len() implies (#[trigger] nodes[i]).node_id@.len()
        <= id_width(nodes) by {
        let w = crate::brand::lemma_widest(ids);
        assert(ids[i] == nodes[i].node_id@);
    }
    assert forall|i: int| 0 <= i < reports.len() implies (#[trigger] reports[i]).from@.len() + 3
        + reports[i].target@.len() <= path_width(reports) by {
        let w = crate::brand::lemma_widest(ends);
        assert(ends[i] == path_text(reports[i]));
    }
}

/// In colour the same rows hold the same parts: the sign in the tone of the
/// state, the id as a literal, the role of a listener and what is missing dim.
pub proof fn law_rows_in_color(
    node: NodeInfo,
    listener: crate::proto::ListenAddr,
    report: GraphReport,
    reports: Seq<GraphReport>,
    width: nat,
)
    requires
        node.node_id@.len() <= width,
    ensures
        ({
            let state = state_of(node.node_id@, reports);
            node_row(node, reports, width, true) == "  "@ + crate::brand::toned(
                crate::brand::glyph(state),
                crate::brand::tone_of(state),
                true,
            ) + " "@ + crate::brand::typed(node.node_id@, true) + crate::text::blanks(
                (width - node.node_id@.len()) as nat,
            ) + "  "@ + (if node.roles@.len() == 0 {
                crate::brand::toned("no roles"@, crate::brand::Tone::Unknown, true)
            } else {
                crate::text::joined(crate::proto::texts(node.roles@), ", "@)
            })
        }),
        listener_row(listener, width, true) == "    "@ + crate::text::blanks(width) + "  "@
            + crate::brand::toned(listener.role@ + ":"@, crate::brand::Tone::Unknown, true) + " "@
            + listener.addr@,
        link_row(report, width, true) == "  "@ + (if report.reachable {
            crate::brand::toned(crate::brand::glyph(Some(true)), crate::brand::Tone::Reach, true)
        } else {
            crate::brand::toned(
                crate::brand::glyph(Some(false)),
                crate::brand::Tone::Severed,
                true,
            )
        }) + " "@ + crate::text::padded(report.from@ + " \u{2192} "@ + report.target@, width)
            + "  "@ + crate::text::padded(report.protocol@, 8) + "  "@ + (match report.rtt_ms {
            Some(ms) => crate::text::decimal_of(ms as nat) + " ms"@,
            None => crate::brand::toned("\u{2014}"@, crate::brand::Tone::Unknown, true),
        }),
{
}

/// Of a graph without nodes and links it is told that it has none.
pub proof fn law_an_empty_graph_is_told(on: bool)
    ensures
        pretty(Seq::empty(), Seq::empty(), on) == seq![
            crate::brand::toned(
                "crawl holds no nodes and no links"@,
                crate::brand::Tone::Unknown,
                on,
            ),
        ],
{
}

/// A document shows a node with its id, each of its roles, each of its
/// listeners, and the state that the reports give it.
pub proof fn law_documents_show_everything(
    s: NodeShown,
    node: NodeInfo,
    reports: Seq<GraphReport>,
)
    requires
        shown(s, node, reports),
    ensures
        s.node_id@ == node.node_id@,
        s.roles@.len() == node.roles@.len(),
        forall|i: int| 0 <= i < node.roles@.len() ==> (#[trigger] s.roles@[i])@ == node.roles@[i]@,
        s.listen_addrs@.len() == node.listen_addrs@.len(),
        forall|i: int|
            0 <= i < node.listen_addrs@.len() ==> (#[trigger] s.listen_addrs@[i]).0@
                == node.listen_addrs@[i].role@ && s.listen_addrs@[i].1@
                == node.listen_addrs@[i].addr@,
        s.state@ == "reachable"@ <==> exists|i: int|
            0 <= i < reports.len() && (#[trigger] reports[i]).reachable && (reports[i].from@
                == node.node_id@ || reports[i].target@ == node.node_id@),
        s.state@ == "unprobed"@ <==> forall|i: int|
            0 <= i < reports.len() ==> (#[trigger] reports[i]).from@ != node.node_id@
                && reports[i].target@ != node.node_id@,
        s.state@ == "reachable"@ || s.state@ == "unprobed"@ || s.state@ == "severed"@,
{
    reveal_strlit("reachable");
    reveal_strlit("unprobed");
    reveal_strlit("severed");
    assert("reachable"@.len() == 9 && "unprobed"@.len() == 8 && "severed"@.len() == 7);
    law_states(node.node_id@, reports);
    let a = crate::proto::texts(s.roles@);
    let b = crate::proto::texts(node.roles@);
    assert(a.len() == b.len());
    assert forall|i: int| 0 <= i < node.roles@.len() implies (#[trigger] s.roles@[i])@
        == node.roles@[i]@ by {
        assert(a[i] == b[i]);
    }
}

} // verus!
