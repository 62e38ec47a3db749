//! Frames: a big-endian length and a message.

use crate::codec::{DecodeFault, Wire};
use crate::proto::{GraphReport, ListenAddr, NodeInfo, RadiiMessage, RelayedMessage, MAX_FRAME_LEN, MAX_TUNNEL_HOPS, SNAPSHOT_BUDGET};
use crate::text::bytes_in;
use crate::validate::{validate_message, WireError};
use vstd::prelude::*;

verus! {

// ---------------------------------------------------------------------------
// Writing
// ---------------------------------------------------------------------------

/// `n` as four bytes, the highest first.
pub open spec fn length_prefix(n: nat) -> Seq<u8> {
    seq![
        (n / 0x100_0000) as u8,
        (n / 0x1_0000 % 0x100) as u8,
        (n / 0x100 % 0x100) as u8,
        (n % 0x100) as u8,
    ]
}

/// The number that four bytes stand for.
pub open spec fn prefix_value(b: Seq<u8>) -> nat {
    (b[0] * 0x100_0000 + b[1] * 0x1_0000 + b[2] * 0x100 + b[3]) as nat
}

/// The bytes of a message on the wire.
pub open spec fn payload_of(m: crate::proto::MessageView) -> Seq<u8> {
    RadiiMessage::bytes(m)
}

/// Frames a message for writing.
pub fn encode_frame(message: &RadiiMessage) -> (r: Result<Vec<u8>, WireError>)
    ensures
        match r {
            Ok(frame) => payload_of(message@).len() <= MAX_FRAME_LEN && frame@ == length_prefix(
                payload_of(message@).len(),
            ) + payload_of(message@),
            Err(WireError::FrameLength(n)) => n == payload_of(message@).len() && n > MAX_FRAME_LEN,
            Err(e) => e == WireError::FrameTooLarge && payload_of(message@).len() > u32::MAX,
        },
{
    let mut payload: Vec<u8> = Vec::new();
    message.put(&mut payload);
    assert(payload@ =~= payload_of(message@));
    let n: usize = payload.len();
    if n > u32::MAX as usize {
        return Err(WireError::FrameTooLarge);
    }
    if n > MAX_FRAME_LEN as usize {
        return Err(WireError::FrameLength(n as u32));
    }
    let mut frame: Vec<u8> = Vec::new();
    frame.push((n / 0x100_0000) as u8);
    frame.push((n / 0x1_0000 % 0x100) as u8);
    frame.push((n / 0x100 % 0x100) as u8);
    frame.push((n % 0x100) as u8);
    assert(frame@ =~= length_prefix(n as nat));
    frame.append(&mut payload);
    Ok(frame)
}

// ---------------------------------------------------------------------------
// Reading
// ---------------------------------------------------------------------------

/// The payload length that a frame announces.
pub fn payload_len(header: [u8; 4]) -> (r: Result<u32, WireError>)
    ensures
        match r {
            Ok(n) => n == prefix_value(header@) && n <= MAX_FRAME_LEN,
            Err(e) => e == WireError::FrameLength(prefix_value(header@) as u32) && prefix_value(
                header@,
            ) > MAX_FRAME_LEN,
        },
{
    let n: u64 = header[0] as u64 * 0x100_0000 + header[1] as u64 * 0x1_0000 + header[2] as u64
        * 0x100 + header[3] as u64;
    assert(n == prefix_value(header@));
    if n > MAX_FRAME_LEN as u64 {
        return Err(WireError::FrameLength(n as u32));
    }
    Ok(n as u32)
}

/// What a receiver makes of a decoded message.
pub open spec fn verdict(m: crate::proto::MessageView) -> Result<
    crate::proto::MessageView,
    WireError,
> {
    if m is TunnelOpen && !(1 <= m->hops.len() <= MAX_TUNNEL_HOPS) {
        Err(WireError::HopCount(m->hops.len() as usize))
    } else {
        match crate::validate::fault(m) {
            None => Ok(m),
            Some(e) => Err(e),
        }
    }
}

/// What a receiver makes of a payload. Bytes behind the message are ignored.
pub open spec fn received(payload: Seq<u8>) -> Result<crate::proto::MessageView, WireError> {
    match RadiiMessage::read(payload) {
        Err(e) => Err(WireError::Malformed(e)),
        Ok((m, _)) => verdict(m),
    }
}

/// Decodes a payload and holds the message to its bounds.
pub fn decode_payload(payload: &[u8]) -> (r: Result<RadiiMessage, WireError>)
    ensures
        match r {
            Ok(m) => received(payload@) == Ok::<crate::proto::MessageView, WireError>(m@),
            Err(e) => received(payload@) == Err::<crate::proto::MessageView, WireError>(e),
        },
{
    match RadiiMessage::take(payload) {
        Err(e) => Err(WireError::Malformed(e)),
        Ok((message, _)) => {
            if let RadiiMessage::TunnelOpen { hops } = &message {
                if hops.len() == 0 || hops.len() > MAX_TUNNEL_HOPS {
                    return Err(WireError::HopCount(hops.len()));
                }
            }
            match validate_message(&message) {
                Ok(()) => Ok(message),
                Err(e) => Err(e),
            }
        },
    }
}

proof fn lemma_prefix(n: nat)
    requires
        n <= u32::MAX,
    ensures
        prefix_value(length_prefix(n)) == n,
{
    let b = length_prefix(n);
    assert(n / 0x100_0000 < 0x100);
    assert(b[0] == n / 0x100_0000);
    assert(b[1] == n / 0x1_0000 % 0x100);
    assert(b[2] == n / 0x100 % 0x100);
    assert(b[3] == n % 0x100);
}

/// A frame that fits is read back as the message that was written, or refused
/// for what is wrong with that message; the prefix announces the payload.
pub proof fn law_read_of_write(m: crate::proto::MessageView)
    requires
        payload_of(m).len() <= MAX_FRAME_LEN,
    ensures
        received(payload_of(m)) == verdict(m),
        prefix_value(length_prefix(payload_of(m).len())) == payload_of(m).len(),
{
    lemma_prefix(payload_of(m).len());
    assert(received(payload_of(m)) == verdict(m)) by {
        let payload = payload_of(m);
        RadiiMessage::round_trip(m, Seq::empty());
        assert(payload + Seq::<u8>::empty() =~= payload);
    }
}

/// An envelope holds nothing but the relayable messages: whatever stands in
/// the place of its message with another number makes the frame undecodable.
pub proof fn law_envelopes_do_not_nest(
    source: Seq<char>,
    client_identity: Option<Seq<char>>,
    tag: u32,
    tail: Seq<u8>,
)
    requires
        tag >= 3,
        String::bytes(source).len() < 0x1_0000_0000,
        Option::<String>::bytes(client_identity).len() < 0x1_0000_0000,
    ensures
        received(
            u32::bytes(3) + (String::bytes(source) + (Option::<String>::bytes(client_identity) + (
            u32::bytes(tag) + tail))),
        ) == Err::<crate::proto::MessageView, WireError>(
            WireError::Malformed(DecodeFault::BadVariant),
        ),
{
    let inner = u32::bytes(tag) + tail;
    let mid = Option::<String>::bytes(client_identity) + inner;
    let body = String::bytes(source) + mid;
    u32::never_empty(3);
    u32::never_empty(tag);
    crate::codec::lemma_u32(3, body);
    String::round_trip(source, mid);
    Option::<String>::round_trip(client_identity, inner);
    crate::codec::lemma_u32(tag, tail);
    let fault = DecodeFault::BadVariant;
    assert(RelayedMessage::read(inner) matches Err(e) && e == fault);
    assert(<(Option<String>, RelayedMessage)>::read(mid) matches Err(e) && e == fault);
    assert(<(String, (Option<String>, RelayedMessage))>::read(body) matches Err(e) && e == fault);
}

// ---------------------------------------------------------------------------
// Budgets
// ---------------------------------------------------------------------------

/// An upper bound on the encoding of a string.
pub open spec fn text_bound(s: Seq<char>) -> nat {
    crate::text::byte_len(s) + 5
}

/// The sum of `f` over a list.
pub open spec fn total<T>(list: Seq<T>, f: spec_fn(T) -> nat) -> nat
    decreases list.len(),
{
    if list.len() == 0 {
        0
    } else {
        total(list.drop_last(), f) + f(list.last())
    }
}

pub open spec fn listener_bound(a: crate::proto::ListenAddrView) -> nat {
    text_bound(a.addr) + text_bound(a.role)
}

/// An upper bound on the encoding of a node.
pub open spec fn node_bound(n: crate::proto::NodeInfoView) -> nat {
    text_bound(n.node_id) + 5 + total(
        n.listen_addrs,
        |a: crate::proto::ListenAddrView| listener_bound(a),
    ) + 5 + total(n.roles, |r: Seq<char>| text_bound(r))
}

/// An upper bound on the encoding of a report: three strings, a flag, and an
/// optional number.
pub open spec fn report_bound(r: crate::proto::GraphReportView) -> nat {
    text_bound(r.from) + text_bound(r.target) + text_bound(r.protocol) + 1 + 6
}

/// `n`, or the largest machine word where `n` is larger.
pub open spec fn clamp(n: nat) -> nat {
    if n <= usize::MAX {
        n
    } else {
        usize::MAX as nat
    }
}

fn encoded_str_bound(value: &str) -> (r: usize)
    ensures
        r == clamp(text_bound(value@)),
{
    bytes_in(value).saturating_add(5)
}

fn listeners_bound(list: &Vec<ListenAddr>) -> (r: usize)
    ensures
        r == clamp(
            total(
                crate::proto::listen_views(list@),
                |a: crate::proto::ListenAddrView| listener_bound(a),
            ),
        ),
{
    let ghost views = crate::proto::listen_views(list@);
    let ghost f = |a: crate::proto::ListenAddrView| listener_bound(a);
    let mut sum: usize = 0;
    let mut i: usize = 0;
    assert(views.take(0) =~= Seq::empty());
    while i < list.len()
        invariant
            i <= list@.len(),
            views == crate::proto::listen_views(list@),
            f == (|a: crate::proto::ListenAddrView| listener_bound(a)),
            sum == clamp(total(views.take(i as int), f)),
        decreases list@.len() - i,
    {
        let addr: usize = encoded_str_bound(list[i].addr.as_str());
        let role: usize = encoded_str_bound(list[i].role.as_str());
        proof {
            assert(views.take(i + 1).drop_last() =~= views.take(i as int));
            assert(views.take(i + 1).last() == list@[i as int]@);
        }
        sum = sum.saturating_add(addr.saturating_add(role));
        i += 1;
    }
    assert(views.take(views.len() as int) =~= views);
    sum
}

fn roles_bound(list: &Vec<String>) -> (r: usize)
    ensures
        r == clamp(total(crate::proto::texts(list@), |r: Seq<char>| text_bound(r))),
{
    let ghost views = crate::proto::texts(list@);
    let ghost f = |r: Seq<char>| text_bound(r);
    let mut sum: usize = 0;
    let mut i: usize = 0;
    assert(views.take(0) =~= Seq::empty());
    while i < list.len()
        invariant
            i <= list@.len(),
            views == crate::proto::texts(list@),
            f == (|r: Seq<char>| text_bound(r)),
            sum == clamp(total(views.take(i as int), f)),
        decreases list@.len() - i,
    {
        let role: usize = encoded_str_bound(list[i].as_str());
        proof {
            assert(views.take(i + 1).drop_last() =~= views.take(i as int));
            assert(views.take(i + 1).last() == list@[i as int]@);
        }
        sum = sum.saturating_add(role);
        i += 1;
    }
    assert(views.take(views.len() as int) =~= views);
    sum
}

/// An upper bound on the encoding of one node.
pub fn node_info_encoded_bound(node: &NodeInfo) -> (r: usize)
    ensures
        r == clamp(node_bound(node@)),
{
    let id: usize = encoded_str_bound(node.node_id.as_str());
    let addrs: usize = listeners_bound(&node.listen_addrs);
    let roles: usize = roles_bound(&node.roles);
    id.saturating_add(5).saturating_add(addrs).saturating_add(5).saturating_add(roles)
}

/// An upper bound on the encoding of one report.
pub fn graph_report_encoded_bound(report: &GraphReport) -> (r: usize)
    ensures
        r == clamp(report_bound(report@)),
{
    let from: usize = encoded_str_bound(report.from.as_str());
    let target: usize = encoded_str_bound(report.target.as_str());
    let protocol: usize = encoded_str_bound(report.protocol.as_str());
    from.saturating_add(target).saturating_add(protocol).saturating_add(7)
}

/// A string shorter than 2^35 bytes, far beyond any frame, takes no more than
/// its bound.
proof fn lemma_text_bound(s: Seq<char>)
    requires
        crate::text::byte_len(s) < 0x8_0000_0000,
    ensures
        String::bytes(s).len() <= text_bound(s),
{
    crate::codec::lemma_short_varint(crate::text::byte_len(s));
}

proof fn lemma_items_bound<T: Wire>(items: Seq<T::Seen>, f: spec_fn(T::Seen) -> nat)
    requires
        total(items, f) < 0x8_0000_0000,
        forall|x: T::Seen| #[trigger] f(x) < 0x8_0000_0000 ==> T::bytes(x).len() <= f(x),
    ensures
        crate::codec::items_bytes::<T>(items).len() <= total(items, f),
        items.len() <= total(items, f),
    decreases items.len(),
{
    if items.len() > 0 {
        lemma_items_bound::<T>(items.drop_last(), f);
        assert(f(items.last()) < 0x8_0000_0000);
        T::never_empty(items.last());
    }
}

/// The bound of a node never falls short of its encoding. (Strings of 32 GiB
/// and more are out of the question.)
pub proof fn law_node_bound(n: crate::proto::NodeInfoView)
    requires
        node_bound(n) < 0x8_0000_0000,
    ensures
        NodeInfo::bytes(n).len() <= node_bound(n),
{
    let fa = |a: crate::proto::ListenAddrView| listener_bound(a);
    let fr = |r: Seq<char>| text_bound(r);
    lemma_text_bound(n.node_id);
    assert forall|a: crate::proto::ListenAddrView| #[trigger]
        fa(a) < 0x8_0000_0000 implies ListenAddr::bytes(a).len() <= fa(a) by {
        lemma_text_bound(a.addr);
        lemma_text_bound(a.role);
    }
    assert forall|r: Seq<char>| #[trigger] fr(r) < 0x8_0000_0000 implies String::bytes(r).len()
        <= fr(r) by {
        lemma_text_bound(r);
    }
    lemma_items_bound::<ListenAddr>(n.listen_addrs, fa);
    lemma_items_bound::<String>(n.roles, fr);
    crate::codec::lemma_short_varint(n.listen_addrs.len());
    crate::codec::lemma_short_varint(n.roles.len());
}

/// The bound of a report never falls short of its encoding.
pub proof fn law_report_bound(r: crate::proto::GraphReportView)
    requires
        report_bound(r) < 0x8_0000_0000,
    ensures
        GraphReport::bytes(r).len() <= report_bound(r),
{
    lemma_text_bound(r.from);
    lemma_text_bound(r.target);
    lemma_text_bound(r.protocol);
    if let Some(ms) = r.rtt_ms {
        crate::codec::lemma_short_varint(ms as nat);
    }
}

/// The bound of all contents of a snapshot.
pub open spec fn contents_bound(
    nodes: Seq<crate::proto::NodeInfoView>,
    reports: Seq<crate::proto::GraphReportView>,
) -> nat {
    total(nodes, |n: crate::proto::NodeInfoView| node_bound(n)) + total(
        reports,
        |r: crate::proto::GraphReportView| report_bound(r),
    )
}

/// A snapshot whose contents stay within the budget fits a frame.
pub proof fn law_budget_fits_frame(
    nodes: Seq<crate::proto::NodeInfoView>,
    reports: Seq<crate::proto::GraphReportView>,
)
    requires
        contents_bound(nodes, reports) <= SNAPSHOT_BUDGET,
    ensures
        payload_of(crate::proto::MessageView::GraphSnapshot { nodes, reports }).len()
            <= MAX_FRAME_LEN,
{
    let fn_ = |n: crate::proto::NodeInfoView| node_bound(n);
    let fr = |r: crate::proto::GraphReportView| report_bound(r);
    assert forall|n: crate::proto::NodeInfoView| #[trigger]
        fn_(n) < 0x8_0000_0000 implies NodeInfo::bytes(n).len() <= fn_(n) by {
        law_node_bound(n);
    }
    assert forall|r: crate::proto::GraphReportView| #[trigger]
        fr(r) < 0x8_0000_0000 implies GraphReport::bytes(r).len() <= fr(r) by {
        law_report_bound(r);
    }
    lemma_items_bound::<NodeInfo>(nodes, fn_);
    lemma_items_bound::<GraphReport>(reports, fr);
    crate::codec::lemma_short_varint(nodes.len());
    crate::codec::lemma_short_varint(reports.len());
    crate::codec::lemma_short_varint(5);
}

// ---------------------------------------------------------------------------
// What stands on the wire
// ---------------------------------------------------------------------------

/// The prefix is four bytes, the highest first, and a frame announces no more
/// than a mebibyte.
pub proof fn law_prefixes(n: nat, header: Seq<u8>)
    requires
        n <= u32::MAX,
        header.len() == 4,
    ensures
        length_prefix(n).len() == 4,
        ((length_prefix(n)[0] * 256 + length_prefix(n)[1]) * 256 + length_prefix(n)[2]) * 256
            + length_prefix(n)[3] == n,
        prefix_value(header) == ((header[0] * 256 + header[1]) * 256 + header[2]) * 256 + header[3],
        MAX_FRAME_LEN == 1024 * 1024,
        SNAPSHOT_BUDGET == 1024 * 1024 - 1024,
        MAX_TUNNEL_HOPS == 32,
{
    lemma_prefix(n);
}

/// What comes behind a message in a payload changes nothing: a message that is
/// within its bounds arrives, and any other is refused for its fault. A tunnel
/// needs a hop and has at most 32.
#[verifier::spinoff_prover]
#[verifier::rlimit(40)]
pub proof fn law_what_arrives(m: RadiiMessage, tail: Seq<u8>)
    requires
        payload_of(m@).len() <= 1024 * 1024,
    ensures
        received(payload_of(m@) + tail) == (match m {
            RadiiMessage::TunnelOpen { hops } => if hops@.len() == 0 || hops@.len() > 32 {
                Err::<crate::proto::MessageView, WireError>(
                    WireError::HopCount(hops@.len() as usize),
                )
            } else if crate::validate::fault(m@) is Some {
                Err(crate::validate::fault(m@)->0)
            } else {
                Ok(m@)
            },
            _ => if crate::validate::fault(m@) is Some {
                Err(crate::validate::fault(m@)->0)
            } else {
                Ok(m@)
            },
        }),
{
    RadiiMessage::round_trip(m@, tail);
    if m is TunnelOpen {
        assert(m@ is TunnelOpen);
        assert(m@->hops.len() == m->hops@.len());
    } else {
        assert(!(m@ is TunnelOpen));
    }
}

/// A message is its number and then its fields in order. Texts, flags and
/// options stand as postcard writes them; lists are their length and then their
/// items.
pub proof fn law_layout(
    node_id: Seq<char>,
    roles: Seq<Seq<char>>,
    listen_addrs: Seq<crate::proto::ListenAddrView>,
    from: Seq<char>,
    target: Seq<char>,
    protocol: Seq<char>,
    reachable: bool,
    rtt_ms: Option<u32>,
    observed_addr: Option<Seq<char>>,
    sent_at_unix_ms: u64,
)
    ensures
        ({
            let hello = crate::codec::text_bytes(node_id) + Vec::<String>::bytes(roles)
                + Vec::<ListenAddr>::bytes(listen_addrs);
            let probe = crate::codec::text_bytes(from) + crate::codec::text_bytes(target)
                + crate::codec::varint(sent_at_unix_ms as nat);
            let flag = seq![
                if reachable {
                    1u8
                } else {
                    0u8
                },
            ];
            let rtt = match rtt_ms {
                Some(ms) => seq![1u8] + crate::codec::varint(ms as nat),
                None => seq![0u8],
            };
            let observed = match observed_addr {
                Some(addr) => seq![1u8] + crate::codec::text_bytes(addr),
                None => seq![0u8],
            };
            let graph_report = crate::codec::text_bytes(from) + crate::codec::text_bytes(target)
                + crate::codec::text_bytes(protocol) + flag + rtt;
            let relayed_hello = crate::proto::RelayedView::NodeHello {
                node_id,
                roles,
                listen_addrs,
            };
            let relayed_probe = crate::proto::RelayedView::ReachabilityProbe {
                from,
                to: target,
                sent_at_unix_ms,
            };
            let relayed_report = crate::proto::RelayedView::ReachabilityReport {
                from,
                target,
                protocol,
                reachable,
                rtt_ms,
                observed_addr,
            };
            &&& payload_of(relayed_hello.direct()) == seq![0u8] + hello
            &&& payload_of(relayed_probe.direct()) == seq![1u8] + probe
            &&& payload_of(relayed_report.direct()) == seq![2u8] + (graph_report + observed)
            &&& RelayedMessage::bytes(relayed_hello) == seq![0u8] + hello
            &&& RelayedMessage::bytes(relayed_probe) == seq![1u8] + probe
            &&& RelayedMessage::bytes(relayed_report) == seq![2u8] + (graph_report + observed)
            &&& GraphReport::bytes(
                crate::proto::GraphReportView { from, target, protocol, reachable, rtt_ms },
            ) == graph_report
        }),
{
    assert(crate::codec::varint(0) == seq![0u8]);
    assert(crate::codec::varint(1) == seq![1u8]);
    assert(crate::codec::varint(2) == seq![2u8]);
    let hello = crate::codec::text_bytes(node_id) + Vec::<String>::bytes(roles) + Vec::<
        ListenAddr,
    >::bytes(listen_addrs);
    assert(<(String, (Vec<String>, Vec<ListenAddr>))>::bytes((node_id, (roles, listen_addrs)))
        =~= hello);
    let probe = crate::codec::text_bytes(from) + crate::codec::text_bytes(target)
        + crate::codec::varint(sent_at_unix_ms as nat);
    assert(<(String, (String, u64))>::bytes((from, (target, sent_at_unix_ms))) =~= probe);
    let flag = bool::bytes(reachable);
    let rtt = Option::<u32>::bytes(rtt_ms);
    let observed = Option::<String>::bytes(observed_addr);
    let graph_report = crate::codec::text_bytes(from) + crate::codec::text_bytes(target)
        + crate::codec::text_bytes(protocol) + flag + rtt;
    assert(<(String, (String, (String, (bool, (Option<u32>, Option<String>)))))>::bytes(
        (from, (target, (protocol, (reachable, (rtt_ms, observed_addr))))),
    ) =~= graph_report + observed);
    assert(<(String, (String, (String, (bool, Option<u32>))))>::bytes(
        (from, (target, (protocol, (reachable, rtt_ms)))),
    ) =~= graph_report);
}

/// The other messages, likewise; and lists: one more item puts its bytes at the
/// end.
pub proof fn law_more_layout(
    source: Seq<char>,
    client_identity: Option<Seq<char>>,
    message: crate::proto::RelayedView,
    nodes: Seq<crate::proto::NodeInfoView>,
    reports: Seq<crate::proto::GraphReportView>,
    status: Seq<char>,
    hops: Seq<crate::proto::HopAddrView>,
    node: crate::proto::NodeInfoView,
    listener: crate::proto::ListenAddrView,
    hop: crate::proto::HopAddrView,
)
    ensures
        payload_of(
            crate::proto::MessageView::FromHead { source, client_identity, message },
        ) == seq![3u8] + crate::codec::text_bytes(source) + (match client_identity {
            Some(id) => seq![1u8] + crate::codec::text_bytes(id),
            None => seq![0u8],
        }) + RelayedMessage::bytes(message),
        payload_of(crate::proto::MessageView::GraphQuery) == seq![4u8],
        payload_of(crate::proto::MessageView::GraphSnapshot { nodes, reports }) == seq![5u8]
            + Vec::<NodeInfo>::bytes(nodes) + Vec::<GraphReport>::bytes(reports),
        payload_of(crate::proto::MessageView::Ack { status }) == seq![6u8]
            + crate::codec::text_bytes(status),
        payload_of(crate::proto::MessageView::TunnelOpen { hops }) == seq![7u8] + Vec::<
            crate::proto::RouteHop,
        >::bytes(hops),
        NodeInfo::bytes(node) == crate::codec::text_bytes(node.node_id) + Vec::<ListenAddr>::bytes(
            node.listen_addrs,
        ) + Vec::<String>::bytes(node.roles),
        ListenAddr::bytes(listener) == crate::codec::text_bytes(listener.addr)
            + crate::codec::text_bytes(listener.role),
        <crate::proto::RouteHop as Wire>::bytes(hop) == crate::codec::text_bytes(hop.node_id)
            + crate::codec::text_bytes(hop.addr),
{
    assert(crate::codec::varint(3) == seq![3u8]);
    assert(crate::codec::varint(4) == seq![4u8]);
    assert(crate::codec::varint(5) == seq![5u8]);
    assert(crate::codec::varint(6) == seq![6u8]);
    assert(crate::codec::varint(7) == seq![7u8]);
    assert(<(String, (Option<String>, RelayedMessage))>::bytes(
        (source, (client_identity, message)),
    ) =~= crate::codec::text_bytes(source) + Option::<String>::bytes(client_identity)
        + RelayedMessage::bytes(message));
    assert(<(Vec<NodeInfo>, Vec<GraphReport>)>::bytes((nodes, reports)) =~= Vec::<
        NodeInfo,
    >::bytes(nodes) + Vec::<GraphReport>::bytes(reports));
    assert(<(String, (Vec<ListenAddr>, Vec<String>))>::bytes(
        (node.node_id, (node.listen_addrs, node.roles)),
    ) =~= crate::codec::text_bytes(node.node_id) + Vec::<ListenAddr>::bytes(node.listen_addrs)
        + Vec::<String>::bytes(node.roles));
}

/// A list is its length and then the bytes of its items, one after the other.
pub proof fn law_lists_on_the_wire<T: Wire>(items: Seq<T::Seen>, item: T::Seen)
    ensures
        Vec::<T>::bytes(items) == crate::codec::varint(items.len()) + crate::codec::items_bytes::<
            T,
        >(items),
        crate::codec::items_bytes::<T>(Seq::empty()).len() == 0,
        crate::codec::items_bytes::<T>(items.push(item)) == crate::codec::items_bytes::<T>(items)
            + T::bytes(item),
{
    assert(items.push(item).drop_last() =~= items);
}

/// The estimates grow with what they estimate: by its bytes and five for each
/// text, five for each list and seven for the flags of a report.
pub proof fn law_estimates(
    node: crate::proto::NodeInfoView,
    listener: crate::proto::ListenAddrView,
    role: Seq<char>,
    report: crate::proto::GraphReportView,
)
    ensures
        node.listen_addrs.len() == 0 && node.roles.len() == 0 ==> node_bound(node)
            == vstd::utf8::encode_utf8(node.node_id).len() + 15,
        node_bound(
            crate::proto::NodeInfoView { listen_addrs: node.listen_addrs.push(listener), ..node },
        ) == node_bound(node) + vstd::utf8::encode_utf8(listener.addr).len()
            + vstd::utf8::encode_utf8(listener.role).len() + 10,
        node_bound(crate::proto::NodeInfoView { roles: node.roles.push(role), ..node })
            == node_bound(node) + vstd::utf8::encode_utf8(role).len() + 5,
        report_bound(report) == vstd::utf8::encode_utf8(report.from).len()
            + vstd::utf8::encode_utf8(report.target).len() + vstd::utf8::encode_utf8(
            report.protocol,
        ).len() + 22,
        forall|n: nat| n <= usize::MAX ==> #[trigger] clamp(n) == n,
        forall|n: nat| n > usize::MAX ==> #[trigger] clamp(n) == usize::MAX,
{
    assert(node.listen_addrs.push(listener).drop_last() =~= node.listen_addrs);
    assert(node.roles.push(role).drop_last() =~= node.roles);
}

/// The estimate of a snapshot's contents grows by those of what is added.
pub proof fn law_contents_estimate(
    nodes: Seq<crate::proto::NodeInfoView>,
    reports: Seq<crate::proto::GraphReportView>,
    node: crate::proto::NodeInfoView,
    report: crate::proto::GraphReportView,
)
    ensures
        contents_bound(Seq::empty(), Seq::empty()) == 0,
        contents_bound(nodes.push(node), reports) == contents_bound(nodes, reports) + node_bound(
            node,
        ),
        contents_bound(nodes, reports.push(report)) == contents_bound(nodes, reports)
            + report_bound(report),
{
    assert(nodes.push(node).drop_last() =~= nodes);
    assert(reports.push(report).drop_last() =~= reports);
}

/// A payload that starts with a number that no message has is refused as such.
pub proof fn law_unknown_messages_are_refused(tag: u32, tail: Seq<u8>)
    requires
        tag >= 8,
    ensures
        received(crate::codec::varint(tag as nat) + tail) == Err::<
            crate::proto::MessageView,
            WireError,
        >(WireError::Malformed(DecodeFault::BadVariant)),
        received(Seq::empty()) == Err::<crate::proto::MessageView, WireError>(
            WireError::Malformed(DecodeFault::UnexpectedEnd),
        ),
{
    crate::codec::lemma_u32(tag, tail);
}

} // verus!
