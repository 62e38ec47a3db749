//! The command line: what it takes, and what it says.

use crate::brand::{dim, heading, legend, literal, reach_glyph, Term};
use crate::graph::protocol_ids;
use crate::proto::{ListenAddr, RadiiMessage};
use crate::routing::{DefaultScorer, GraphSnapshot, NodeId, RouteCandidate, RoutePlanner, RouteRequest};
use crate::shown::{quote, shown};
use crate::text::{align, decimal, find, join, pad, same, spaces, trim_end};
use vstd::prelude::*;
use vstd::string::*;

verus! {

// ---------------------------------------------------------------------------
// Arguments
// ---------------------------------------------------------------------------

/// What is wrong with a listen address.
#[derive(Debug, Clone, Copy, PartialEq, Eq)]
pub enum ListenAddrFault {
    /// There is no `=`.
    NoRole,
    /// One side of the `=` is empty.
    EmptyPart,
}

/// Why a listen address is refused.
#[derive(Debug, PartialEq, Eq)]
pub struct ListenAddrError {
    pub fault: ListenAddrFault,
    /// What was given, in quotes.
    pub value: String,
}

impl ListenAddrError {
    /// The refusal in words.
    pub open spec fn words(&self) -> Seq<char> {
        (match self.fault {
            ListenAddrFault::NoRole => "expected role=addr"@,
            ListenAddrFault::EmptyPart => "expected role=addr with both parts set"@,
        }) + ", got "@ + self.value@
    }

    /// The refusal in words.
    pub fn describe(&self) -> (r: String)
        ensures
            r@ == self.words(),
    {
        let mut r: String = match self.fault {
            ListenAddrFault::NoRole => "expected role=addr".to_owned(),
            ListenAddrFault::EmptyPart => "expected role=addr with both parts set".to_owned(),
        };
        r.append(", got ");
        r.append(self.value.as_str());
        r
    }
}

/// What is wrong with a listen address, if anything.
pub open spec fn listen_addr_fault(value: Seq<char>) -> Option<ListenAddrFault> {
    let at = crate::text::position(value, '=');
    if at >= value.len() {
        Some(ListenAddrFault::NoRole)
    } else if at == 0 || at + 1 == value.len() {
        Some(ListenAddrFault::EmptyPart)
    } else {
        None
    }
}

/// Reads `role=addr`. The first `=` ends the role, so an address may hold
/// anything.
pub fn parse_listen_addr(value: &str) -> (r: Result<ListenAddr, ListenAddrError>)
    ensures
        match r {
            Err(e) => listen_addr_fault(value@) == Some(e.fault) && e.value@
                == crate::shown::debug_text(value@),
            Ok(listener) => {
                let at = crate::text::position(value@, '=') as int;
                &&& listen_addr_fault(value@) is None
                &&& listener.role@ == value@.take(at)
                &&& listener.addr@ == value@.skip(at + 1)
            },
        },
{
    let n: usize = value.unicode_len();
    let at: usize = find(value, '=');
    if at >= n {
        return Err(ListenAddrError { fault: ListenAddrFault::NoRole, value: quote(value) });
    }
    if at == 0 || at + 1 == n {
        return Err(ListenAddrError { fault: ListenAddrFault::EmptyPart, value: quote(value) });
    }
    proof {
        assert(value@.subrange(0, at as int) =~= value@.take(at as int));
        assert(value@.subrange(at + 1, n as int) =~= value@.skip(at + 1));
    }
    Ok(
        ListenAddr {
            addr: value.substring_char(at + 1, n).to_owned(),
            role: value.substring_char(0, at).to_owned(),
        },
    )
}

/// A role without `=` and an address, neither empty, are read back as they
/// were written.
pub proof fn law_listen_addr_round_trip(role: Seq<char>, addr: Seq<char>)
    requires
        role.len() > 0,
        addr.len() > 0,
        forall|i: int| 0 <= i < role.len() ==> #[trigger] role[i] != '=',
    ensures
        listen_addr_fault(role + seq!['='] + addr) is None,
        crate::text::position(role + seq!['='] + addr, '=') == role.len(),
        (role + seq!['='] + addr).take(role.len() as int) == role,
        (role + seq!['='] + addr).skip(role.len() as int + 1) == addr,
{
    let value = role + seq!['='] + addr;
    assert forall|j: int| 0 <= j < role.len() implies #[trigger] value[j] != '=' by {
        assert(value[j] == role[j]);
    }
    crate::text::lemma_position(value, '=', role.len() as int);
    assert(value.take(role.len() as int) =~= role);
    assert(value.skip(role.len() as int + 1) =~= addr);
}

// ---------------------------------------------------------------------------
// Help
// ---------------------------------------------------------------------------

/// A command and what it is for.
#[derive(Debug)]
pub struct Command {
    pub name: String,
    pub about: String,
}

/// Commands that belong together: those of Crawl's discovery, of routing, and
/// of a Head's control.
#[derive(Debug)]
pub struct Group {
    pub heading: &'static str,
    pub names: Vec<&'static str>,
}

/// The views of the names.
pub open spec fn name_views(names: Seq<&'static str>) -> Seq<Seq<char>> {
    names.map_values(|n: &'static str| n@)
}

/// All groups: each heading with its commands.
pub open spec fn grouped() -> Seq<(Seq<char>, Seq<Seq<char>>)> {
    seq![
        ("Discovery"@, seq!["hello"@, "report"@, "graph"@]),
        ("Routing"@, seq!["plan"@]),
        ("Control plane"@, seq!["health"@, "decision"@]),
    ]
}

/// All groups.
pub fn groups() -> (r: Vec<Group>)
    ensures
        r@.map_values(|g: Group| (g.heading@, name_views(g.names@))) == grouped(),
{
    let mut discovery: Vec<&'static str> = Vec::new();
    discovery.push("hello");
    discovery.push("report");
    discovery.push("graph");
    let mut routing: Vec<&'static str> = Vec::new();
    routing.push("plan");
    let mut control: Vec<&'static str> = Vec::new();
    control.push("health");
    control.push("decision");
    assert(name_views(discovery@) =~= seq!["hello"@, "report"@, "graph"@]);
    assert(name_views(routing@) =~= seq!["plan"@]);
    assert(name_views(control@) =~= seq!["health"@, "decision"@]);
    let mut r: Vec<Group> = Vec::new();
    r.push(Group { heading: "Discovery", names: discovery });
    r.push(Group { heading: "Routing", names: routing });
    r.push(Group { heading: "Control plane", names: control });
    assert(r@.map_values(|g: Group| (g.heading@, name_views(g.names@))) =~= grouped());
    r
}

/// What the first command of a name is for.
pub open spec fn about(commands: Seq<Command>, name: Seq<char>) -> Option<Seq<char>>
    decreases commands.len(),
{
    if commands.len() == 0 {
        None
    } else if commands[0].name@ == name {
        Some(commands[0].about@)
    } else {
        about(commands.drop_first(), name)
    }
}

/// What the first command of a name is for.
fn about_of<'a>(commands: &'a Vec<Command>, name: &str) -> (r: Option<&'a str>)
    ensures
        match r {
            None => about(commands@, name@) is None,
            Some(text) => about(commands@, name@) == Some(text@),
        },
{
    let mut i: usize = 0;
    assert(commands@.skip(0) =~= commands@);
    while i < commands.len()
        invariant
            i <= commands@.len(),
            about(commands@, name@) == about(commands@.skip(i as int), name@),
        decreases commands@.len() - i,
    {
        assert(commands@.skip(i as int)[0] == commands@[i as int]);
        assert(commands@.skip(i as int).drop_first() =~= commands@.skip(i + 1));
        if same(commands[i].name.as_str(), name) {
            return Some(commands[i].about.as_str());
        }
        i += 1;
    }
    None
}

/// The line of a command; none for a name without a command.
pub open spec fn command_line(commands: Seq<Command>, name: Seq<char>, on: bool) -> Seq<char> {
    match about(commands, name) {
        None => Seq::empty(),
        Some(text) => "  "@ + crate::brand::typed(name, on) + crate::text::blanks(
            if name.len() < 10 {
                (10 - name.len()) as nat
            } else {
                0
            },
        ) + text + seq!['\n'],
    }
}

/// The lines of the first `k` names.
pub open spec fn command_lines(
    commands: Seq<Command>,
    names: Seq<Seq<char>>,
    k: int,
    on: bool,
) -> Seq<char>
    decreases k,
{
    if k <= 0 {
        Seq::empty()
    } else {
        command_lines(commands, names, k - 1, on) + command_line(commands, names[k - 1], on)
    }
}

/// The first `k` groups, with an empty line between them.
pub open spec fn section_text(commands: Seq<Command>, k: int, on: bool) -> Seq<char>
    decreases k,
{
    if k <= 0 {
        Seq::empty()
    } else {
        section_text(commands, k - 1, on) + (if k > 1 {
            seq!['\n']
        } else {
            Seq::empty()
        }) + crate::brand::headed(grouped()[k - 1].0, on) + seq!['\n'] + command_lines(
            commands,
            grouped()[k - 1].1,
            grouped()[k - 1].1.len() as int,
            on,
        )
    }
}

/// Puts the lines of a group behind what is there.
fn push_commands(out: &mut String, commands: &Vec<Command>, names: &Vec<&'static str>, term: &Term)
    ensures
        final(out)@ == old(out)@ + command_lines(
            commands@,
            name_views(names@),
            names@.len() as int,
            term.colored(),
        ),
{
    let ghost start = out@;
    let ghost on = term.colored();
    let ghost views = name_views(names@);
    let mut i: usize = 0;
    assert(start =~= start + command_lines(commands@, views, 0, on));
    while i < names.len()
        invariant
            i <= names@.len(),
            on == term.colored(),
            views == name_views(names@),
            out@ == start + command_lines(commands@, views, i as int, on),
        decreases names@.len() - i,
    {
        let name: &'static str = names[i];
        let ghost before = out@;
        assert(views[i as int] == name@);
        if let Some(text) = about_of(commands, name) {
            let columns: usize = name.unicode_len();
            out.append("  ");
            out.append(literal(name, term).as_str());
            out.append(
                spaces(
                    if columns < 10 {
                        10 - columns
                    } else {
                        0
                    },
                ).as_str(),
            );
            out.append(text);
            out.push('\n');
            assert(out@ =~= before + command_line(commands@, name@, on));
        } else {
            assert(out@ =~= before + command_line(commands@, name@, on));
        }
        assert(out@ =~= start + command_lines(commands@, views, i + 1, on));
        i += 1;
    }
}

/// The commands by group, for the help. Names and descriptions come from the
/// command line itself, so that the two cannot drift apart.
pub fn command_sections(commands: &Vec<Command>, term: &Term) -> (r: String)
    ensures
        r@ == crate::text::trimmed_end(section_text(commands@, 3, term.colored())),
{
    let ghost on = term.colored();
    let all: Vec<Group> = groups();
    let ghost views = all@.map_values(|g: Group| (g.heading@, name_views(g.names@)));
    let mut out: String = String::new();
    let mut i: usize = 0;
    assert(all@.len() == views.len());
    while i < all.len()
        invariant
            i <= all@.len(),
            all@.len() == 3,
            on == term.colored(),
            views == all@.map_values(|g: Group| (g.heading@, name_views(g.names@))),
            views == grouped(),
            out@ == section_text(commands@, i as int, on),
        decreases all@.len() - i,
    {
        let ghost before = out@;
        assert(views[i as int] == (all@[i as int].heading@, name_views(all@[i as int].names@)));
        if i > 0 {
            out.push('\n');
            assert(out@ =~= before + seq!['\n']);
        } else {
            assert(out@ =~= before + Seq::<char>::empty());
        }
        out.append(heading(all[i].heading, term).as_str());
        out.push('\n');
        push_commands(&mut out, commands, &all[i].names, term);
        assert(out@ =~= section_text(commands@, i + 1, on));
        i += 1;
    }
    trim_end(out.as_str()).to_owned()
}

/// The template of the help: commands before options, which is the order in
/// which they matter.
pub fn help_template(term: &Term) -> (r: String)
    ensures
        r@ == "{before-help}{usage-heading} {usage}{after-help}\n\n"@ + crate::brand::headed(
            "Options"@,
            term.colored(),
        ) + "\n{options}\n\n"@ + crate::brand::legend_text(term.colored()) + "\n"@,
{
    let mut r: String = "{before-help}{usage-heading} {usage}{after-help}\n\n".to_owned();
    r.append(heading("Options", term).as_str());
    r.append("\n{options}\n\n");
    r.append(legend(term).as_str());
    r.append("\n");
    r
}

// ---------------------------------------------------------------------------
// Routes
// ---------------------------------------------------------------------------

/// A score with one decimal.
pub open spec fn score_text(score: u128) -> Seq<char> {
    crate::text::decimal_of(score as nat) + ".0"@
}

/// The line of a route, for a script.
pub open spec fn route_plain(route: RouteCandidate) -> Seq<char> {
    "score="@ + score_text(route.score) + " protocol="@ + route.protocol@ + " path="@
        + crate::text::joined(route.names(), " -> "@)
}

/// The line of the route at rank `i`, for a reader.
pub open spec fn route_pretty(route: RouteCandidate, i: int, on: bool) -> Seq<char> {
    crate::brand::toned(crate::brand::glyph(Some(true)), crate::brand::Tone::Reach, on) + " "@
        + crate::text::aligned(crate::text::decimal_of((i + 1) as nat), 2) + "  "@
        + crate::text::aligned(score_text(route.score), 6) + "  "@ + crate::text::padded(
        route.protocol@,
        8,
    ) + "  "@ + crate::text::joined(route.names(), " \u{2192} "@)
}

fn score_of(score: u128) -> (r: String)
    ensures
        r@ == score_text(score),
{
    let mut r: String = decimal(score);
    r.append(".0");
    r
}

/// The names along a route, joined.
fn path_names(route: &RouteCandidate, sep: &str) -> (r: String)
    ensures
        r@ == crate::text::joined(route.names(), sep@),
{
    let mut names: Vec<String> = Vec::new();
    let mut i: usize = 0;
    while i < route.hops.len()
        invariant
            i <= route.hops@.len(),
            names@.len() == i,
            forall|j: int| 0 <= j < i ==> (#[trigger] names@[j])@ == route.hops@[j]@,
        decreases route.hops@.len() - i,
    {
        names.push(route.hops[i].0.clone());
        i += 1;
    }
    assert(names@.map_values(|s: String| s@) =~= route.names());
    join(&names, sep)
}

/// The ranked routes that the arguments ask for.
pub fn plan_routes(
    snapshot: &GraphSnapshot,
    source: &str,
    target: &str,
    protocols: &Vec<String>,
    max_hops: usize,
    limit: usize,
) -> (r: Vec<RouteCandidate>)
    ensures
        crate::routing::ranking(
            DefaultScorer,
            snapshot@.links,
            crate::routing::RequestView {
                source: source@,
                target: target@,
                allowed: crate::proto::texts(protocols@),
                max_hops: max_hops as nat,
            },
            limit as nat,
            r@,
        ),
{
    let request = RouteRequest {
        source: NodeId(source.to_owned()),
        target: NodeId(target.to_owned()),
        allowed_protocols: protocol_ids(protocols),
        max_hops,
    };
    assert(request@.allowed =~= crate::proto::texts(protocols@));
    RoutePlanner::new(DefaultScorer).plan(snapshot, &request, limit)
}

/// The lines of ranked routes, for a script.
pub fn plan_lines(routes: &Vec<RouteCandidate>) -> (r: Vec<String>)
    ensures
        crate::proto::texts(r@) == routes@.map_values(|c: RouteCandidate| route_plain(c)),
{
    let mut r: Vec<String> = Vec::new();
    let mut i: usize = 0;
    while i < routes.len()
        invariant
            i <= routes@.len(),
            r@.len() == i,
            forall|j: int| 0 <= j < i ==> (#[trigger] r@[j])@ == route_plain(routes@[j]),
        decreases routes@.len() - i,
    {
        let mut line: String = "score=".to_owned();
        line.append(score_of(routes[i].score).as_str());
        line.append(" protocol=");
        line.append(routes[i].protocol.0.as_str());
        line.append(" path=");
        line.append(path_names(&routes[i], " -> ").as_str());
        r.push(line);
        i += 1;
    }
    assert(crate::proto::texts(r@) =~= routes@.map_values(|c: RouteCandidate| route_plain(c)));
    r
}

/// The lines of ranked routes, for a reader.
pub open spec fn plan_pretty(routes: Seq<RouteCandidate>, on: bool) -> Seq<Seq<char>> {
    if routes.len() == 0 {
        seq![crate::brand::toned("no route"@, crate::brand::Tone::Unknown, on)]
    } else {
        Seq::new(routes.len(), |i: int| route_pretty(routes[i], i, on))
    }
}

/// The lines of ranked routes, for a reader.
pub fn plan_pretty_lines(routes: &Vec<RouteCandidate>, term: &Term) -> (r: Vec<String>)
    ensures
        crate::proto::texts(r@) == plan_pretty(routes@, term.colored()),
{
    let ghost on = term.colored();
    let mut r: Vec<String> = Vec::new();
    if routes.len() == 0 {
        let line: String = dim("no route", term);
        r.push(line);
        assert(crate::proto::texts(r@) =~= seq![line@]);
        return r;
    }
    let mut i: usize = 0;
    while i < routes.len()
        invariant
            i <= routes@.len(),
            on == term.colored(),
            r@.len() == i,
            forall|j: int| 0 <= j < i ==> (#[trigger] r@[j])@ == route_pretty(routes@[j], j, on),
        decreases routes@.len() - i,
    {
        let mut line: String = reach_glyph(Some(true), term);
        line.append(" ");
        line.append(align(decimal((i + 1) as u128).as_str(), 2).as_str());
        line.append("  ");
        line.append(align(score_of(routes[i].score).as_str(), 6).as_str());
        line.append("  ");
        line.append(pad(routes[i].protocol.0.as_str(), 8).as_str());
        line.append("  ");
        line.append(path_names(&routes[i], " \u{2192} ").as_str());
        r.push(line);
        i += 1;
    }
    assert(crate::proto::texts(r@) =~= plan_pretty(routes@, on));
    r
}

/// Said, beside the result, of a plan from a graph that did not fit.
pub fn partial_view_warning(dropped: usize) -> (r: Option<String>)
    ensures
        match r {
            None => dropped == 0,
            Some(text) => dropped > 0 && text@
                == "warning: the graph exceeded the local size cap; "@ + crate::text::decimal_of(
                dropped as nat,
            ) + " link(s) dropped, planning from a partial view"@,
        },
{
    if dropped == 0 {
        return None;
    }
    let mut r: String = "warning: the graph exceeded the local size cap; ".to_owned();
    r.append(decimal(dropped as u128).as_str());
    r.append(" link(s) dropped, planning from a partial view");
    Some(r)
}

/// The line that tells what a peer replied: the status of an acknowledgement,
/// any other message whole.
pub fn reply_line(reply: &RadiiMessage) -> (r: String)
    ensures
        r@ == match reply@ {
            crate::proto::MessageView::Ack { status } => "ack="@ + status,
            other => "reply="@ + crate::shown::message_text(other),
        },
{
    match reply {
        RadiiMessage::Ack { status } => {
            let mut r: String = "ack=".to_owned();
            r.append(status.as_str());
            r
        },
        _ => {
            let mut r: String = "reply=".to_owned();
            r.append(shown(reply).as_str());
            r
        },
    }
}

// ---------------------------------------------------------------------------
// What the words are held to
// ---------------------------------------------------------------------------

/// An address with a role is refused exactly where there is no equals sign, or
/// where nothing stands before the first or nothing behind it.
pub proof fn law_what_listeners_are_refused(value: Seq<char>)
    ensures
        listen_addr_fault(value) == Some(ListenAddrFault::NoRole) <==> forall|i: int|
            0 <= i < value.len() ==> #[trigger] value[i] != '=',
        listen_addr_fault(value) == Some(ListenAddrFault::EmptyPart) <==> value.len() > 0 && (
        value[0] == '=' || (value.last() == '=' && forall|i: int|
            0 <= i < value.len() - 1 ==> #[trigger] value[i] != '=')),
{
    crate::text::law_first_position(value, '=');
    let at = crate::text::position(value, '=') as int;
    if value.len() > 0 && value[0] == '=' {
        assert(at == 0) by {
            if at > 0 {
                assert(value[0] != '=');
            }
        }
    }
    if value.len() > 0 && value.last() == '=' && (forall|i: int|
        0 <= i < value.len() - 1 ==> #[trigger] value[i] != '=') {
        assert(at == value.len() - 1) by {
            assert(value[value.len() - 1] == '=');
            if at < value.len() - 1 {
                assert(value[at] != '=');
            }
        }
    }
}

/// What is told of an address that is refused.
pub proof fn law_listener_refusals(e: ListenAddrError)
    ensures
        e.fault is NoRole ==> e.words() == "expected role=addr"@ + ", got "@ + e.value@,
        e.fault is EmptyPart ==> e.words() == "expected role=addr with both parts set"@ + ", got "@
            + e.value@,
{
}

/// What is said of a command is what the first of that name says.
pub proof fn law_the_first_of_a_name_counts(commands: Seq<Command>, name: Seq<char>, i: int)
    ensures
        about(commands, name) is Some <==> exists|j: int|
            0 <= j < commands.len() && (#[trigger] commands[j]).name@ == name,
        0 <= i < commands.len() && commands[i].name@ == name && (forall|j: int|
            0 <= j < i ==> (#[trigger] commands[j]).name@ != name) ==> about(commands, name)
            == Some(commands[i].about@),
    decreases commands.len(),
{
    if commands.len() > 0 {
        let rest = commands.drop_first();
        law_the_first_of_a_name_counts(rest, name, i - 1);
        if about(commands, name) is Some && commands[0].name@ != name {
            let j = choose|j: int| 0 <= j < rest.len() && (#[trigger] rest[j]).name@ == name;
            assert(commands[j + 1].name@ == name);
        }
        if exists|j: int| 0 <= j < commands.len() && (#[trigger] commands[j]).name@ == name {
            let j = choose|j: int| 0 <= j < commands.len() && (#[trigger] commands[j]).name@ == name;
            if j > 0 {
                assert(rest[j - 1].name@ == name);
            }
        }
        if 0 < i < commands.len() && commands[i].name@ == name && (forall|j: int|
            0 <= j < i ==> (#[trigger] commands[j]).name@ != name) {
            assert(commands[0].name@ != name);
            assert(rest[i - 1] == commands[i]);
            assert forall|j: int| 0 <= j < i - 1 implies (#[trigger] rest[j]).name@ != name by {
                assert(rest[j] == commands[j + 1]);
            }
        }
    }
}

/// A command has a line with its name and what it does, the latter from the
/// thirteenth column on; a name that no command has is left out.
pub proof fn law_command_lines(commands: Seq<Command>, name: Seq<char>)
    ensures
        about(commands, name) is None ==> command_line(commands, name, false).len() == 0,
        about(commands, name) matches Some(text) ==> command_line(commands, name, false) == "  "@
            + crate::text::padded(name, 10) + text + seq!['\n'],
{
    if let Some(text) = about(commands, name) {
        assert(command_line(commands, name, false) =~= "  "@ + crate::text::padded(name, 10) + text
            + seq!['\n']);
    }
}

proof fn lemma_lines_of(commands: Seq<Command>, names: Seq<Seq<char>>, on: bool)
    ensures
        names.len() == 1 ==> command_lines(commands, names, 1, on) == command_line(
            commands,
            names[0],
            on,
        ),
        names.len() == 2 ==> command_lines(commands, names, 2, on) == command_line(
            commands,
            names[0],
            on,
        ) + command_line(commands, names[1], on),
        names.len() == 3 ==> command_lines(commands, names, 3, on) == command_line(
            commands,
            names[0],
            on,
        ) + command_line(commands, names[1], on) + command_line(commands, names[2], on),
{
    let none = command_lines(commands, names, 0, on);
    let one = command_lines(commands, names, 1, on);
    assert(one == none + command_line(commands, names[0], on));
    assert(one =~= command_line(commands, names[0], on));
    let two = command_lines(commands, names, 2, on);
    assert(two == one + command_line(commands, names[1], on));
    let three = command_lines(commands, names, 3, on);
    assert(three == two + command_line(commands, names[2], on));
}

/// The commands stand in three sections, an empty line between them: discovery
/// with `hello`, `report` and `graph`, routing with `plan`, and the control
/// plane with `health` and `decision`.
pub proof fn law_every_command_has_its_section(commands: Seq<Command>, on: bool)
    ensures
        ({
            let discovery = command_line(commands, "hello"@, on) + command_line(
                commands,
                "report"@,
                on,
            ) + command_line(commands, "graph"@, on);
            let control = command_line(commands, "health"@, on) + command_line(
                commands,
                "decision"@,
                on,
            );
            section_text(commands, 3, on) == crate::brand::headed("Discovery"@, on) + seq!['\n']
                + discovery + seq!['\n'] + crate::brand::headed("Routing"@, on) + seq!['\n']
                + command_line(commands, "plan"@, on) + seq!['\n'] + crate::brand::headed(
                "Control plane"@,
                on,
            ) + seq!['\n'] + control
        }),
{
    let g = grouped();
    lemma_lines_of(commands, g[0].1, on);
    lemma_lines_of(commands, g[1].1, on);
    lemma_lines_of(commands, g[2].1, on);
    let none = section_text(commands, 0, on);
    let one = section_text(commands, 1, on);
    let two = section_text(commands, 2, on);
    let three = section_text(commands, 3, on);
    let head = crate::brand::headed("Discovery"@, on);
    assert(none + Seq::<char>::empty() + head =~= head);
    assert(one == head + seq!['\n'] + command_lines(commands, g[0].1, 3, on));
    assert(two == one + seq!['\n'] + crate::brand::headed("Routing"@, on) + seq!['\n']
        + command_lines(commands, g[1].1, 1, on));
    assert(three == two + seq!['\n'] + crate::brand::headed("Control plane"@, on) + seq!['\n']
        + command_lines(commands, g[2].1, 2, on));
}

/// A route is told with its score, its protocol and every node on its way, in
/// order.
pub proof fn law_routes_are_told(route: RouteCandidate) -> (way: Seq<Seq<char>>)
    ensures
        way.len() == route.hops@.len(),
        forall|i: int| 0 <= i < way.len() ==> #[trigger] way[i] == route.hops@[i].0@,
        route_plain(route) == "score="@ + (crate::text::decimal_of(route.score as nat) + ".0"@)
            + " protocol="@ + route.protocol.0@ + " path="@ + crate::text::joined(way, " -> "@),
        forall|i: int| #[trigger]
            route_pretty(route, i, false) == "\u{25cf}"@ + " "@ + crate::text::aligned(
                crate::text::decimal_of((i + 1) as nat),
                2,
            ) + "  "@ + crate::text::aligned(
                crate::text::decimal_of(route.score as nat) + ".0"@,
                6,
            ) + "  "@ + crate::text::padded(route.protocol.0@, 8) + "  "@ + crate::text::joined(
                way,
                " \u{2192} "@,
            ),
{
    route.names()
}

/// Routes are told in order, one to a line and each with its rank; where there
/// is none, that is told.
pub proof fn law_plans_are_told(routes: Seq<RouteCandidate>, on: bool)
    ensures
        routes.len() == 0 ==> plan_pretty(routes, on) == seq![
            crate::brand::toned("no route"@, crate::brand::Tone::Unknown, on),
        ],
        routes.len() > 0 ==> plan_pretty(routes, on).len() == routes.len(),
        forall|i: int|
            0 <= i < routes.len() ==> #[trigger] plan_pretty(routes, on)[i] == route_pretty(
                routes[i],
                i,
                on,
            ),
{
}

/// The sections and their commands.
pub proof fn law_groups()
    ensures
        grouped().len() == 3,
        grouped()[0] == ("Discovery"@, seq!["hello"@, "report"@, "graph"@]),
        grouped()[1] == ("Routing"@, seq!["plan"@]),
        grouped()[2] == ("Control plane"@, seq!["health"@, "decision"@]),
{
}

/// In colour a command's name is a literal and a route's sign that of what is
/// reachable; nothing else differs.
pub proof fn law_words_in_color(commands: Seq<Command>, name: Seq<char>, route: RouteCandidate, i: int)
    ensures
        about(commands, name) is None ==> command_line(commands, name, true).len() == 0,
        about(commands, name) matches Some(text) ==> command_line(commands, name, true) == "  "@
            + crate::brand::typed(name, true) + crate::text::blanks(
            if name.len() < 10 {
                (10 - name.len()) as nat
            } else {
                0
            },
        ) + text + seq!['\n'],
        route_pretty(route, i, true) == crate::brand::toned(
            "\u{25cf}"@,
            crate::brand::Tone::Reach,
            true,
        ) + " "@ + crate::text::aligned(crate::text::decimal_of((i + 1) as nat), 2) + "  "@
            + crate::text::aligned(crate::text::decimal_of(route.score as nat) + ".0"@, 6) + "  "@
            + crate::text::padded(route.protocol.0@, 8) + "  "@ + crate::text::joined(
            route.names(),
            " \u{2192} "@,
        ),
{
}

} // verus!
