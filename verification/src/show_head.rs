//! A Head's control surface, for readers and for scripts.

use crate::brand::{dim, literal, reach_glyph, tinted, Term, Tone};
use crate::text::{decimal, finds, join, same, trim_tail};
use vstd::prelude::*;
use vstd::string::*;

verus! {

/// A path on a base address; an address without a scheme gets one.
pub open spec fn joined_url(base: Seq<char>, path: Seq<char>) -> Seq<char> {
    let b = crate::text::without_tail(base, '/');
    if crate::text::occurs(b, "://"@) {
        b + path
    } else {
        "http://"@ + b + path
    }
}

/// Joins a path onto a base address.
pub fn endpoint(base: &str, path: &str) -> (r: String)
    ensures
        r@ == joined_url(base@, path@),
{
    let b: &str = trim_tail(base, '/');
    let mut r: String = String::new();
    if !finds(b, "://") {
        r.append("http://");
        assert(r@ =~= "http://"@);
        r.append(b);
    } else {
        r.append(b);
        assert(r@ =~= b@);
    }
    r.append(path);
    r
}

/// The tone of a graph's state: `fresh` is the only one that can be routed
/// on, `not_configured` is a choice and no fault, the rest is degradation.
pub open spec fn graph_tone(state: Seq<char>) -> Tone {
    if state == "fresh"@ {
        Tone::Reach
    } else if state == "not_configured"@ {
        Tone::Unknown
    } else {
        Tone::Severed
    }
}

/// A graph's state, in the tone of what it means for routing.
pub fn graph_state(state: &str, term: &Term) -> (r: String)
    ensures
        r@ == crate::brand::toned(state@, graph_tone(state@), term.colored()),
{
    if same(state, "fresh") {
        tinted(state, Tone::Reach, term)
    } else if same(state, "not_configured") {
        dim(state, term)
    } else {
        tinted(state, Tone::Severed, term)
    }
}

// ---------------------------------------------------------------------------
// Health
// ---------------------------------------------------------------------------

/// The line of a health check, for a script.
pub open spec fn health_plain(code: u16, status: Seq<char>, graph: Seq<char>) -> Seq<char> {
    "health http_status="@ + crate::text::decimal_of(code as nat) + " status="@ + status
        + " graph="@ + graph
}

/// The line of a health check, for a script.
pub fn health_line(code: u16, status: &str, graph: &str) -> (r: String)
    ensures
        r@ == health_plain(code, status@, graph@),
{
    let mut r: String = "health http_status=".to_owned();
    r.append(decimal(code as u128).as_str());
    r.append(" status=");
    r.append(status);
    r.append(" graph=");
    r.append(graph);
    r
}

/// The lines of a health check, for a reader.
pub open spec fn health_pretty(code: u16, status: Seq<char>, graph: Seq<char>, on: bool) -> Seq<
    Seq<char>,
> {
    let state = Some(status == "ok"@);
    seq![
        crate::brand::toned(crate::brand::glyph(state), crate::brand::tone_of(state), on) + " "@
            + crate::brand::typed(status, on) + "  "@ + crate::brand::toned(
            "http "@ + crate::text::decimal_of(code as nat),
            Tone::Unknown,
            on,
        ),
        "  "@ + crate::brand::toned("graph"@, Tone::Unknown, on) + " "@ + crate::brand::toned(
            graph,
            graph_tone(graph),
            on,
        ),
    ]
}

/// The lines of a health check, for a reader.
pub fn health_lines(code: u16, status: &str, graph: &str, term: &Term) -> (r: Vec<String>)
    ensures
        crate::proto::texts(r@) == health_pretty(code, status@, graph@, term.colored()),
{
    let ok: bool = same(status, "ok");
    let mut http: String = "http ".to_owned();
    http.append(decimal(code as u128).as_str());
    let mut first: String = reach_glyph(Some(ok), term);
    first.append(" ");
    first.append(literal(status, term).as_str());
    first.append("  ");
    first.append(dim(http.as_str(), term).as_str());
    let mut second: String = "  ".to_owned();
    second.append(dim("graph", term).as_str());
    second.append(" ");
    second.append(graph_state(graph, term).as_str());
    let mut r: Vec<String> = Vec::new();
    r.push(first);
    r.push(second);
    assert(crate::proto::texts(r@) =~= health_pretty(code, status@, graph@, term.colored()));
    r
}

// ---------------------------------------------------------------------------
// Decisions
// ---------------------------------------------------------------------------

/// A decision as a Head reports it.
#[derive(Debug)]
pub struct Decision {
    pub source_ip: String,
    pub host: Option<String>,
    pub backend: String,
    pub candidates: Vec<String>,
    pub decision_reason: String,
}

/// An optional text, or what stands for its absence.
pub open spec fn or_else(s: Option<String>, absent: Seq<char>) -> Seq<char> {
    match s {
        Some(t) => t@,
        None => absent,
    }
}

/// An optional text, or what stands for its absence.
fn text_or<'a>(s: &'a Option<String>, absent: &'a str) -> (r: &'a str)
    ensures
        r@ == or_else(*s, absent@),
{
    match s {
        Some(t) => t.as_str(),
        None => absent,
    }
}

/// The line of a decision, for a script.
pub open spec fn decision_plain(d: Decision) -> Seq<char> {
    "decision host="@ + or_else(d.host, "-"@) + " backend="@ + d.backend@ + " reason="@
        + d.decision_reason@ + " candidates="@ + (if d.candidates@.len() == 0 {
        "-"@
    } else {
        crate::text::joined(crate::proto::texts(d.candidates@), ","@)
    })
}

/// The line of a decision, for a script.
pub fn decision_line(d: &Decision) -> (r: String)
    ensures
        r@ == decision_plain(*d),
{
    let mut r: String = "decision host=".to_owned();
    r.append(text_or(&d.host, "-"));
    r.append(" backend=");
    r.append(d.backend.as_str());
    r.append(" reason=");
    r.append(d.decision_reason.as_str());
    r.append(" candidates=");
    if d.candidates.len() == 0 {
        r.append("-");
    } else {
        assert(d.candidates@.map_values(|s: String| s@) =~= crate::proto::texts(d.candidates@));
        r.append(join(&d.candidates, ",").as_str());
    }
    r
}

/// One named value of a decision.
pub open spec fn detail(name: Seq<char>, value: Seq<char>, on: bool) -> Seq<char> {
    "  "@ + crate::brand::toned(name, Tone::Unknown, on) + " "@ + value
}

/// The line of the candidate at `i`, which has the number after it.
pub open spec fn failover_line(candidates: Seq<String>, i: int, on: bool) -> Seq<char> {
    "    "@ + crate::brand::toned(
        crate::text::decimal_of((i + 1) as nat) + "."@,
        Tone::Unknown,
        on,
    ) + "  "@ + candidates[i]@
}

/// What is tried after the backend, in order; nothing where that is all.
pub open spec fn failover(candidates: Seq<String>, on: bool) -> Seq<Seq<char>> {
    if candidates.len() > 1 {
        seq!["  "@ + crate::brand::toned("failover"@, Tone::Unknown, on)] + Seq::new(
            (candidates.len() - 1) as nat,
            |k: int| failover_line(candidates, k + 1, on),
        )
    } else {
        Seq::empty()
    }
}

/// The lines of a decision, for a reader.
pub open spec fn decision_pretty(d: Decision, on: bool) -> Seq<Seq<char>> {
    seq![
        crate::brand::toned(crate::brand::glyph(Some(true)), Tone::Reach, on) + " "@
            + crate::brand::typed(d.backend@, on),
        detail("host   "@, or_else(d.host, "(none)"@), on),
        detail("reason "@, d.decision_reason@, on),
        detail("source "@, d.source_ip@, on),
    ] + failover(d.candidates@, on)
}

fn detail_text(name: &str, value: &str, term: &Term) -> (r: String)
    ensures
        r@ == detail(name@, value@, term.colored()),
{
    let mut r: String = "  ".to_owned();
    r.append(dim(name, term).as_str());
    r.append(" ");
    r.append(value);
    r
}

/// Puts what is tried after the backend behind what is there.
fn push_failover(out: &mut Vec<String>, candidates: &Vec<String>, term: &Term)
    ensures
        crate::proto::texts(final(out)@) == crate::proto::texts(old(out)@) + failover(
            candidates@,
            term.colored(),
        ),
{
    let ghost start = crate::proto::texts(out@);
    let ghost on = term.colored();
    let ghost all = failover(candidates@, on);
    if candidates.len() <= 1 {
        assert(start + all =~= start);
        return ;
    }
    let mut title: String = "  ".to_owned();
    title.append(dim("failover", term).as_str());
    out.push(title);
    assert(crate::proto::texts(out@) =~= start + all.take(1));
    let mut i: usize = 1;
    while i < candidates.len()
        invariant
            1 <= i <= candidates@.len(),
            on == term.colored(),
            all == failover(candidates@, on),
            candidates@.len() > 1,
            crate::proto::texts(out@) == start + all.take(i as int),
        decreases candidates@.len() - i,
    {
        let ghost before = crate::proto::texts(out@);
        let mut number: String = decimal((i + 1) as u128);
        number.append(".");
        let mut line: String = "    ".to_owned();
        line.append(dim(number.as_str(), term).as_str());
        line.append("  ");
        line.append(candidates[i].as_str());
        assert(all[i as int] == failover_line(candidates@, i as int, on));
        assert(line@ == all[i as int]);
        out.push(line);
        assert(crate::proto::texts(out@) =~= before.push(line@));
        assert(all.take(i + 1) =~= all.take(i as int).push(line@));
        assert(crate::proto::texts(out@) =~= start + all.take(i + 1));
        i += 1;
    }
    assert(all.take(all.len() as int) =~= all);
}

/// The lines of a decision, for a reader.
pub fn decision_lines(d: &Decision, term: &Term) -> (r: Vec<String>)
    ensures
        crate::proto::texts(r@) == decision_pretty(*d, term.colored()),
{
    let ghost on = term.colored();
    let mut first: String = reach_glyph(Some(true), term);
    first.append(" ");
    first.append(literal(d.backend.as_str(), term).as_str());
    let mut r: Vec<String> = Vec::new();
    r.push(first);
    r.push(detail_text("host   ", text_or(&d.host, "(none)"), term));
    r.push(detail_text("reason ", d.decision_reason.as_str(), term));
    r.push(detail_text("source ", d.source_ip.as_str(), term));
    let ghost top = crate::proto::texts(r@);
    push_failover(&mut r, &d.candidates, term);
    assert(crate::proto::texts(r@) =~= decision_pretty(*d, on));
    r
}

// ---------------------------------------------------------------------------
// What the lines are held to
// ---------------------------------------------------------------------------

/// The address of an endpoint is its base without slashes at the end, and its
/// path. A base without a scheme gets that of plain HTTP.
pub proof fn law_endpoints(base: Seq<char>, path: Seq<char>, slashes: nat)
    requires
        base.len() > 0 ==> base.last() != '/',
    ensures
        ({
            let written = base + Seq::new(slashes, |i: int| '/');
            &&& crate::text::occurs(base, "://"@) ==> joined_url(written, path) == base + path
            &&& !crate::text::occurs(base, "://"@) ==> joined_url(written, path) == "http://"@ + base
                + path
        }),
{
    let written = base + Seq::new(slashes, |i: int| '/');
    let end = crate::text::law_without_tail(written, '/');
    if end < base.len() {
        assert(written[base.len() - 1] == base.last());
    }
    if end > base.len() {
        assert(written[end - 1] == '/');
    }
    assert(written.take(base.len() as int) =~= base);
}

/// A fresh graph is shown as reachable, a missing one as unknown and every
/// other as severed.
pub proof fn law_graph_states(state: Seq<char>)
    ensures
        graph_tone("fresh"@) == Tone::Reach,
        graph_tone("not_configured"@) == Tone::Unknown,
        state != "fresh"@ && state != "not_configured"@ ==> graph_tone(state) == Tone::Severed,
{
    reveal_strlit("fresh");
    reveal_strlit("not_configured");
    assert("fresh"@.len() == 5 && "not_configured"@.len() == 14);
}

/// The line of a health check holds the code, the status and the graph, in that
/// order. For a reader the status is marked: well only where it is `ok`.
pub proof fn law_health_lines(code: u16, status: Seq<char>, graph: Seq<char>)
    ensures
        health_plain(code, status, graph) == "health http_status="@ + crate::text::decimal_of(
            code as nat,
        ) + " status="@ + status + " graph="@ + graph,
        health_pretty(code, status, graph, false) == seq![
            crate::brand::glyph(Some(status == "ok"@)) + " "@ + status + "  "@ + ("http "@
                + crate::text::decimal_of(code as nat)),
            "  "@ + "graph"@ + " "@ + graph,
        ],
{
}

/// The line of a decision names the host, the backend, the reason and every
/// candidate: where no candidate holds a comma, what follows ` candidates=` is
/// read back as the list. A dash stands for what is missing.
pub proof fn law_decision_line(d: Decision) -> (tail: Seq<char>)
    ensures
        decision_plain(d) == "decision host="@ + (match d.host {
            Some(host) => host@,
            None => "-"@,
        }) + " backend="@ + d.backend@ + " reason="@ + d.decision_reason@ + " candidates="@ + tail,
        d.candidates@.len() == 0 ==> tail == "-"@,
        d.candidates@.len() > 0 && (forall|i: int, k: int|
            0 <= i < d.candidates@.len() && 0 <= k < d.candidates@[i]@.len()
                ==> #[trigger] d.candidates@[i]@[k] != ',') ==> {
            &&& crate::text::pieces(tail, ',').len() == d.candidates@.len()
            &&& forall|i: int|
                0 <= i < d.candidates@.len() ==> crate::text::pieces(tail, ',')[i] == (
                #[trigger] d.candidates@[i])@
        },
        d.candidates@.len() > 0 ==> tail == crate::text::joined(
            d.candidates@.map_values(|s: String| s@),
            seq![','],
        ),
{
    reveal_strlit(",");
    assert(","@ =~= seq![',']);
    let list = crate::proto::texts(d.candidates@);
    let rest = if d.candidates@.len() == 0 {
        "-"@
    } else {
        crate::text::joined(list, ","@)
    };
    let tail = rest;
    assert(list =~= d.candidates@.map_values(|s: String| s@));
    if d.candidates@.len() > 0 && (forall|i: int, k: int|
        0 <= i < d.candidates@.len() && 0 <= k < d.candidates@[i]@.len()
            ==> #[trigger] d.candidates@[i]@[k] != ',') {
        assert forall|j: int, i: int|
            0 <= j < list.len() && 0 <= i < list[j].len() implies #[trigger] list[j][i] != ',' by {
            assert(d.candidates@[j]@[i] != ',');
        }
        crate::text::law_joined_texts_are_read_back(list, ',');
        assert forall|i: int| 0 <= i < d.candidates@.len() implies crate::text::pieces(tail, ',')[i]
            == (#[trigger] d.candidates@[i])@ by {
            assert(list[i] == d.candidates@[i]@);
        }
    }
    tail
}

/// For a reader, a decision is its backend, the host, the reason and the
/// source, and then each further candidate with its rank, the second first.
pub proof fn law_decision_lines(d: Decision)
    ensures
        ({
            let lines = decision_pretty(d, false);
            let n = d.candidates@.len();
            &&& lines.len() == if n > 1 {
                4 + n
            } else {
                4
            }
            &&& lines[0] == "\u{25cf}"@ + " "@ + d.backend@
            &&& lines[1] == "  "@ + "host   "@ + " "@ + (match d.host {
                Some(host) => host@,
                None => "(none)"@,
            })
            &&& lines[2] == "  "@ + "reason "@ + " "@ + d.decision_reason@
            &&& lines[3] == "  "@ + "source "@ + " "@ + d.source_ip@
            &&& n > 1 ==> lines[4] == "  "@ + "failover"@
            &&& forall|k: int|
                1 <= k < n ==> lines[4 + k] == "    "@ + (crate::text::decimal_of((k + 1) as nat)
                    + "."@) + "  "@ + (#[trigger] d.candidates@[k])@
        }),
{
    let lines = decision_pretty(d, false);
    let n = d.candidates@.len();
    assert forall|k: int| 1 <= k < n implies lines[4 + k] == "    "@ + (crate::text::decimal_of(
        (k + 1) as nat,
    ) + "."@) + "  "@ + (#[trigger] d.candidates@[k])@ by {
        let more = failover(d.candidates@, false);
        assert(more[k] == failover_line(d.candidates@, k, false));
        assert(lines[4 + k] == more[k]);
    }
}

/// In colour the same lines hold the same parts: the backend and the status as
/// literals, the names of the details and the ranks dim.
pub proof fn law_lines_in_color(d: Decision, code: u16, status: Seq<char>, graph: Seq<char>)
    ensures
        ({
            let lines = decision_pretty(d, true);
            let n = d.candidates@.len();
            &&& lines.len() == decision_pretty(d, false).len()
            &&& lines[0] == crate::brand::toned("\u{25cf}"@, Tone::Reach, true) + " "@
                + crate::brand::typed(d.backend@, true)
            &&& lines[1] == "  "@ + crate::brand::toned("host   "@, Tone::Unknown, true) + " "@ + (
            match d.host {
                Some(host) => host@,
                None => "(none)"@,
            })
            &&& lines[2] == "  "@ + crate::brand::toned("reason "@, Tone::Unknown, true) + " "@
                + d.decision_reason@
            &&& lines[3] == "  "@ + crate::brand::toned("source "@, Tone::Unknown, true) + " "@
                + d.source_ip@
            &&& n > 1 ==> lines[4] == "  "@ + crate::brand::toned("failover"@, Tone::Unknown, true)
            &&& forall|k: int|
                1 <= k < n ==> lines[4 + k] == "    "@ + crate::brand::toned(
                    crate::text::decimal_of((k + 1) as nat) + "."@,
                    Tone::Unknown,
                    true,
                ) + "  "@ + (#[trigger] d.candidates@[k])@
        }),
        health_pretty(code, status, graph, true) == seq![
            (if status == "ok"@ {
                crate::brand::toned("\u{25cf}"@, Tone::Reach, true)
            } else {
                crate::brand::toned("\u{25d0}"@, Tone::Severed, true)
            }) + " "@ + crate::brand::typed(status, true) + "  "@ + crate::brand::toned(
                "http "@ + crate::text::decimal_of(code as nat),
                Tone::Unknown,
                true,
            ),
            "  "@ + crate::brand::toned("graph"@, Tone::Unknown, true) + " "@
                + crate::brand::toned(graph, graph_tone(graph), true),
        ],
{
    let lines = decision_pretty(d, true);
    let n = d.candidates@.len();
    assert forall|k: int| 1 <= k < n implies lines[4 + k] == "    "@ + crate::brand::toned(
        crate::text::decimal_of((k + 1) as nat) + "."@,
        Tone::Unknown,
        true,
    ) + "  "@ + (#[trigger] d.candidates@[k])@ by {
        let more = failover(d.candidates@, true);
        assert(more[k] == failover_line(d.candidates@, k, true));
        assert(lines[4 + k] == more[k]);
    }
}

} // verus!
