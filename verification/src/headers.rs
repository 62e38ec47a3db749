//! The headers of a request on its way through a Head.

use crate::text::{lower, split, trim};
use axum::http::HeaderMap;
use vstd::prelude::*;
use vstd::string::*;
use vstd::utf8::*;

verus! {

// ---------------------------------------------------------------------------
// The header map
// ---------------------------------------------------------------------------

#[verifier::external_type_specification]
#[verifier::external_body]
#[verifier::reject_recursive_types(T)]
pub struct ExHeaderMap<T>(axum::http::HeaderMap<T>);

#[verifier::external_type_specification]
#[verifier::external_body]
pub struct ExHeaderValue(axum::http::HeaderValue);

/// What a header map holds: the bytes of the values of each name, in the order
/// in which they came. The names are in lower case.
pub uninterp spec fn fields(headers: HeaderMap) -> Map<Seq<char>, Seq<Seq<u8>>>;

/// The values of a name; none where it is absent.
pub open spec fn values(all: Map<Seq<char>, Seq<Seq<u8>>>, name: Seq<char>) -> Seq<Seq<u8>> {
    if all.dom().contains(name) {
        all[name]
    } else {
        Seq::empty()
    }
}

/// `HeaderMap::get_all` finds the values of a name, in any case, in the order
/// in which they came, and nothing for a name that the map does not hold or
/// that is no header name at all.
#[verifier::external_body]
fn header_values(headers: &HeaderMap, name: &str) -> (r: Vec<Vec<u8>>)
    ensures
        r@.map_values(|v: Vec<u8>| v@) == values(fields(*headers), crate::text::lowered(name@)),
{
    headers.get_all(name).iter().map(|value| value.as_bytes().to_vec()).collect()
}

/// `HeaderMap::remove` takes out every value of a name, in any case. A name
/// that the map does not hold, and a text that is no header name, leave the
/// map as it is.
#[verifier::external_body]
fn remove_header(headers: &mut HeaderMap, name: &str)
    ensures
        fields(*final(headers)) == fields(*old(headers)).remove(crate::text::lowered(name@)),
{
    let _ = headers.remove(name);
}

/// Whether a character may stand in a header value: no control character but
/// the tab.
pub open spec fn printable(c: char) -> bool {
    (c as u32 >= 32 && c as u32 != 127) || c as u32 == 9
}

/// Whether a text can be a header value.
pub open spec fn sendable(text: Seq<char>) -> bool {
    forall|i: int| 0 <= i < text.len() ==> printable(#[trigger] text[i])
}

/// The three headers that a Head adds.
pub open spec fn forwarded_name(name: Seq<char>) -> bool {
    name == "x-forwarded-for"@ || name == "x-forwarded-proto"@ || name == "x-forwarded-host"@
}

/// `HeaderMap::try_insert` makes the value the only one of its name, or
/// leaves the map as it is where there is no room; a map of fewer than a
/// thousand names has room. A map holds finitely many names. The text is made a `HeaderValue` of its own bytes,
/// which takes every text without control characters.
#[verifier::external_body]
fn insert_header(headers: &mut HeaderMap, name: &'static str, value: &str) -> (r: bool)
    requires
        forwarded_name(name@),
        sendable(value@),
    ensures
        fields(*final(headers)) == if r {
            fields(*old(headers)).insert(name@, seq![encode_utf8(value@)])
        } else {
            fields(*old(headers))
        },
        fields(*final(headers)).dom().finite(),
        fields(*old(headers)).dom().len() < 1000 ==> r,
{
    match axum::http::HeaderValue::from_str(value) {
        Ok(value) => headers.try_insert(name, value).is_ok(),
        Err(_) => false,
    }
}

// ---------------------------------------------------------------------------
// Values as text
// ---------------------------------------------------------------------------

/// Whether a byte of a value is visible ASCII or a tab.
pub open spec fn visible(b: u8) -> bool {
    (32 <= b && b < 127) || b == 9
}

/// A value as text. One with other bytes than visible ASCII has none.
pub open spec fn text_of(value: Seq<u8>) -> Option<Seq<char>> {
    if forall|i: int| 0 <= i < value.len() ==> visible(#[trigger] value[i]) {
        Some(value.map_values(|b: u8| b as char))
    } else {
        None
    }
}

/// A value as text.
pub fn value_text(value: &Vec<u8>) -> (r: Option<String>)
    ensures
        match r {
            None => text_of(value@) is None,
            Some(text) => text_of(value@) == Some(text@),
        },
{
    let mut r: String = String::new();
    let mut i: usize = 0;
    while i < value.len()
        invariant
            i <= value@.len(),
            forall|j: int| 0 <= j < i ==> visible(#[trigger] value@[j]),
            r@ == value@.take(i as int).map_values(|b: u8| b as char),
        decreases value@.len() - i,
    {
        let b: u8 = value[i];
        if !((32 <= b && b < 127) || b == 9) {
            assert(!visible(value@[i as int]));
            return None;
        }
        r.push(b as char);
        assert(value@.take(i + 1).map_values(|b: u8| b as char) =~= value@.take(
            i as int,
        ).map_values(|b: u8| b as char).push(b as char));
        i += 1;
    }
    assert(value@.take(value@.len() as int) =~= value@);
    Some(r)
}

/// The text of the first value of a name.
pub open spec fn first_text(all: Map<Seq<char>, Seq<Seq<u8>>>, name: Seq<char>) -> Option<
    Seq<char>,
> {
    if values(all, name).len() == 0 {
        None
    } else {
        text_of(values(all, name)[0])
    }
}

/// The text of the first value of a name.
pub fn header_text(headers: &HeaderMap, name: &str) -> (r: Option<String>)
    ensures
        match r {
            None => first_text(fields(*headers), crate::text::lowered(name@)) is None,
            Some(text) => first_text(fields(*headers), crate::text::lowered(name@)) == Some(text@),
        },
{
    let found: Vec<Vec<u8>> = header_values(headers, name);
    let ghost seen = found@.map_values(|v: Vec<u8>| v@);
    if found.len() == 0 {
        assert(seen.len() == 0);
        return None;
    }
    assert(seen[0] == found@[0]@);
    value_text(&found[0])
}

// ---------------------------------------------------------------------------
// Hop-by-hop headers
// ---------------------------------------------------------------------------

/// The headers that speak of one connection and are never passed on.
pub open spec fn hop_by_hop(name: Seq<char>) -> bool {
    ||| name == "connection"@
    ||| name == "keep-alive"@
    ||| name == "proxy-authenticate"@
    ||| name == "proxy-authorization"@
    ||| name == "te"@
    ||| name == "trailer"@
    ||| name == "transfer-encoding"@
    ||| name == "upgrade"@
}

/// The names that a `Connection` value lists, in lower case.
pub open spec fn listed_names(value: Seq<u8>) -> Seq<Seq<char>> {
    match text_of(value) {
        None => Seq::empty(),
        Some(text) => crate::text::pieces(text, ',').map_values(
            |piece: Seq<char>| crate::text::lowered(crate::text::trimmed(piece)),
        ),
    }
}

/// Whether one of the `Connection` values names the header.
pub open spec fn named_in(values: Seq<Seq<u8>>, name: Seq<char>) -> bool {
    exists|i: int| 0 <= i < values.len() && #[trigger] listed_names(values[i]).contains(name)
}

/// Whether the header belongs to the connection that brought it.
pub open spec fn connection_bound(all: Map<Seq<char>, Seq<Seq<u8>>>, name: Seq<char>) -> bool {
    hop_by_hop(name) || named_in(values(all, "connection"@), name)
}

/// Everything but the headers that belong to the connection.
pub open spec fn passed_on(all: Map<Seq<char>, Seq<Seq<u8>>>) -> Map<Seq<char>, Seq<Seq<u8>>> {
    all.remove_keys(Set::new(|name: Seq<char>| connection_bound(all, name)))
}

/// The names that the `Connection` values list.
fn connection_names(headers: &HeaderMap) -> (r: Vec<String>)
    ensures
        forall|name: Seq<char>|
            crate::text::listed(r@, name) <==> #[trigger] named_in(
                values(fields(*headers), "connection"@),
                name,
            ),
{
    proof {
        lemma_fixed_names();
    }
    let found: Vec<Vec<u8>> = header_values(headers, "connection");
    let ghost seen = found@.map_values(|v: Vec<u8>| v@);
    let mut names: Vec<String> = Vec::new();
    let mut i: usize = 0;
    while i < found.len()
        invariant
            i <= found@.len(),
            seen == found@.map_values(|v: Vec<u8>| v@),
            forall|name: Seq<char>|
                crate::text::listed(names@, name) <==> #[trigger] named_in(
                    seen.take(i as int),
                    name,
                ),
        decreases found@.len() - i,
    {
        let ghost before = names@;
        let ghost listed = listed_names(seen[i as int]);
        assert(seen[i as int] == found@[i as int]@);
        if let Some(text) = value_text(&found[i]) {
            let parts: Vec<String> = split(text.as_str(), ',');
            let ghost texts = parts@.map_values(|t: String| t@);
            let mut k: usize = 0;
            while k < parts.len()
                invariant
                    k <= parts@.len(),
                    texts == parts@.map_values(|t: String| t@),
                    listed == texts.map_values(
                        |piece: Seq<char>| crate::text::lowered(crate::text::trimmed(piece)),
                    ),
                    names@.len() == before.len() + k,
                    forall|j: int| 0 <= j < before.len() ==> names@[j] == before[j],
                    forall|j: int|
                        0 <= j < k ==> (#[trigger] names@[before.len() + j])@ == listed[j],
                decreases parts@.len() - k,
            {
                let name: String = lower(trim(parts[k].as_str()));
                assert(texts[k as int] == parts@[k as int]@);
                assert(listed[k as int] == name@);
                names.push(name);
                k += 1;
            }
        } else {
            assert(listed.len() == 0);
        }
        assert(names@.len() == before.len() + listed.len());
        proof {
            lemma_names_grow(before, names@, seen, listed, i as int);
        }
        i += 1;
    }
    assert(seen.take(seen.len() as int) =~= seen);
    names
}

proof fn lemma_names_grow(
    before: Seq<String>,
    after: Seq<String>,
    seen: Seq<Seq<u8>>,
    listed: Seq<Seq<char>>,
    i: int,
)
    requires
        0 <= i < seen.len(),
        listed == listed_names(seen[i]),
        after.len() == before.len() + listed.len(),
        forall|j: int| 0 <= j < before.len() ==> after[j] == before[j],
        forall|j: int| 0 <= j < listed.len() ==> (#[trigger] after[before.len() + j])@ == listed[j],
        forall|name: Seq<char>|
            crate::text::listed(before, name) <==> #[trigger] named_in(seen.take(i), name),
    ensures
        forall|name: Seq<char>|
            crate::text::listed(after, name) <==> #[trigger] named_in(seen.take(i + 1), name),
{
    let next = seen.take(i + 1);
    assert forall|name: Seq<char>| crate::text::listed(after, name) <==> #[trigger] named_in(
        next,
        name,
    ) by {
        if crate::text::listed(after, name) {
            let j = choose|j: int| 0 <= j < after.len() && (#[trigger] after[j])@ == name;
            if j < before.len() {
                assert(before[j]@ == name);
                assert(crate::text::listed(before, name));
                assert(named_in(seen.take(i), name));
                let v = choose|v: int|
                    0 <= v < seen.take(i).len() && #[trigger] listed_names(
                        seen.take(i)[v],
                    ).contains(name);
                assert(next[v] == seen.take(i)[v]);
                assert(listed_names(next[v]).contains(name));
            } else {
                let l = j - before.len();
                assert(after[before.len() + l]@ == listed[l]);
                assert(listed[l] == name);
                assert(next[i] == seen[i]);
                assert(listed_names(next[i]).contains(name));
            }
        }
        if named_in(next, name) {
            let v = choose|v: int|
                0 <= v < next.len() && #[trigger] listed_names(next[v]).contains(name);
            if v < i {
                assert(seen.take(i)[v] == next[v]);
                assert(listed_names(seen.take(i)[v]).contains(name));
                assert(named_in(seen.take(i), name));
                assert(crate::text::listed(before, name));
                let j = choose|j: int| 0 <= j < before.len() && (#[trigger] before[j])@ == name;
                assert(after[j]@ == name);
            } else {
                assert(next[v] == seen[i]);
                let l = listed.index_of(name);
                assert(listed[l] == name);
                assert(after[before.len() + l]@ == listed[l]);
            }
        }
    }
}

proof fn lemma_lower_name(s: Seq<char>)
    requires
        forall|i: int|
            0 <= i < s.len() ==> ((#[trigger] s[i]) as u32) < 65 || s[i] as u32 > 90,
    ensures
        crate::text::lowered(s) == s,
{
    assert(crate::text::lowered(s) =~= s);
}

proof fn lemma_fixed_names()
    ensures
        crate::text::lowered("connection"@) == "connection"@,
        crate::text::lowered("keep-alive"@) == "keep-alive"@,
        crate::text::lowered("proxy-authenticate"@) == "proxy-authenticate"@,
        crate::text::lowered("proxy-authorization"@) == "proxy-authorization"@,
        crate::text::lowered("te"@) == "te"@,
        crate::text::lowered("trailer"@) == "trailer"@,
        crate::text::lowered("transfer-encoding"@) == "transfer-encoding"@,
        crate::text::lowered("upgrade"@) == "upgrade"@,
        crate::text::lowered("x-forwarded-for"@) == "x-forwarded-for"@,
        crate::text::lowered("host"@) == "host"@,
{
    reveal_strlit("connection");
    reveal_strlit("keep-alive");
    reveal_strlit("proxy-authenticate");
    reveal_strlit("proxy-authorization");
    reveal_strlit("te");
    reveal_strlit("trailer");
    reveal_strlit("transfer-encoding");
    reveal_strlit("upgrade");
    reveal_strlit("x-forwarded-for");
    reveal_strlit("host");
    lemma_lower_name("connection"@);
    lemma_lower_name("keep-alive"@);
    lemma_lower_name("proxy-authenticate"@);
    lemma_lower_name("proxy-authorization"@);
    lemma_lower_name("te"@);
    lemma_lower_name("trailer"@);
    lemma_lower_name("transfer-encoding"@);
    lemma_lower_name("upgrade"@);
    lemma_lower_name("x-forwarded-for"@);
    lemma_lower_name("host"@);
}

/// `all` without the first `n` of `names`.
spec fn without(all: Map<Seq<char>, Seq<Seq<u8>>>, names: Seq<String>, n: int) -> Map<
    Seq<char>,
    Seq<Seq<u8>>,
>
    decreases n,
{
    if n <= 0 {
        all
    } else {
        without(all, names, n - 1).remove(crate::text::lowered(names[n - 1]@))
    }
}

proof fn lemma_without(all: Map<Seq<char>, Seq<Seq<u8>>>, names: Seq<String>, n: int)
    requires
        0 <= n <= names.len(),
        forall|i: int|
            0 <= i < names.len() ==> crate::text::lowered((#[trigger] names[i])@) == names[i]@,
    ensures
        forall|k: Seq<char>| #[trigger]
            without(all, names, n).dom().contains(k) <==> all.dom().contains(k) && !(exists|i: int|
                0 <= i < n && (#[trigger] names[i])@ == k),
        forall|k: Seq<char>| #[trigger]
            without(all, names, n).dom().contains(k) ==> without(all, names, n)[k] == all[k],
    decreases n,
{
    if n > 0 {
        lemma_without(all, names, n - 1);
        let prev = without(all, names, n - 1);
        let next = without(all, names, n);
        assert(next == prev.remove(names[n - 1]@));
        assert forall|k: Seq<char>| #[trigger] next.dom().contains(k) <==> all.dom().contains(k)
            && !(exists|i: int| 0 <= i < n && (#[trigger] names[i])@ == k) by {
            if next.dom().contains(k) {
                assert(prev.dom().contains(k));
                if exists|i: int| 0 <= i < n && (#[trigger] names[i])@ == k {
                    let i = choose|i: int| 0 <= i < n && (#[trigger] names[i])@ == k;
                    assert(i == n - 1);
                }
            } else {
                if all.dom().contains(k) && k != names[n - 1]@ {
                    assert(!prev.dom().contains(k));
                    let i = choose|i: int| 0 <= i < n - 1 && (#[trigger] names[i])@ == k;
                    assert(names[i]@ == k);
                } else if k == names[n - 1]@ {
                }
            }
        }
        assert forall|k: Seq<char>| #[trigger] next.dom().contains(k) implies next[k] == all[k] by {
            assert(prev.dom().contains(k));
        }
    }
}

/// Takes out the headers that belong to the connection: the fixed ones, and
/// those that `Connection` names. What it names is collected before anything
/// is taken out.
pub fn strip_hop_by_hop(headers: &mut HeaderMap)
    ensures
        fields(*final(headers)) == passed_on(fields(*old(headers))),
{
    proof {
        lemma_fixed_names();
    }
    let ghost all = fields(*headers);
    let named: Vec<String> = connection_names(headers);
    let mut i: usize = 0;
    while i < named.len()
        invariant
            i <= named@.len(),
            fields(*headers) == without(all, named@, i as int),
        decreases named@.len() - i,
    {
        remove_header(headers, named[i].as_str());
        i += 1;
    }
    let ghost middle = fields(*headers);
    remove_header(headers, "connection");
    remove_header(headers, "keep-alive");
    remove_header(headers, "proxy-authenticate");
    remove_header(headers, "proxy-authorization");
    remove_header(headers, "te");
    remove_header(headers, "trailer");
    remove_header(headers, "transfer-encoding");
    remove_header(headers, "upgrade");
    proof {
        let last = fields(*headers);
        lemma_names_are_lower(values(all, "connection"@), named@);
        lemma_without(all, named@, named@.len() as int);
        assert forall|k: Seq<char>| #[trigger] last.dom().contains(k) <==> middle.dom().contains(k)
            && !hop_by_hop(k) by {}
        assert forall|k: Seq<char>| #[trigger] last.dom().contains(k) <==> passed_on(
            all,
        ).dom().contains(k) by {
            assert(crate::text::listed(named@, k) <==> named_in(values(all, "connection"@), k));
            assert(last.dom().contains(k) <==> middle.dom().contains(k) && !hop_by_hop(k));
        }
        assert(last =~= passed_on(all));
    }
}

proof fn lemma_names_are_lower(found: Seq<Seq<u8>>, names: Seq<String>)
    requires
        forall|name: Seq<char>|
            crate::text::listed(names, name) <==> #[trigger] named_in(found, name),
    ensures
        forall|i: int|
            0 <= i < names.len() ==> crate::text::lowered((#[trigger] names[i])@) == names[i]@,
{
    assert forall|i: int| 0 <= i < names.len() implies crate::text::lowered((#[trigger] names[i])@)
        == names[i]@ by {
        let name = names[i]@;
        assert(crate::text::listed(names, name));
        assert(named_in(found, name));
        let v = choose|v: int|
            0 <= v < found.len() && #[trigger] listed_names(found[v]).contains(name);
        let l = listed_names(found[v]).index_of(name);
        let text = text_of(found[v])->0;
        let piece = crate::text::pieces(text, ',')[l];
        assert(name == crate::text::lowered(crate::text::trimmed(piece)));
        assert(crate::text::lowered(name) =~= name);
    }
}

/// Nothing that belongs to a connection is passed on, and everything else is,
/// as it came.
pub proof fn law_connection_headers_stay_behind(
    all: Map<Seq<char>, Seq<Seq<u8>>>,
    name: Seq<char>,
)
    ensures
        connection_bound(all, name) ==> !passed_on(all).dom().contains(name),
        !connection_bound(all, name) ==> (passed_on(all).dom().contains(name)
            <==> all.dom().contains(name)) && values(passed_on(all), name) == values(all, name),
{
}

/// Taking out the headers of a connection twice changes nothing more.
pub proof fn law_stripping_is_stable(all: Map<Seq<char>, Seq<Seq<u8>>>)
    ensures
        passed_on(passed_on(all)) == passed_on(all),
{
    let once = passed_on(all);
    assert(!once.dom().contains("connection"@));
    assert(values(once, "connection"@).len() == 0);
    assert forall|k: Seq<char>| #[trigger] once.dom().contains(k) implies !connection_bound(
        once,
        k,
    ) by {
        assert(!connection_bound(all, k));
    }
    assert(passed_on(once) =~= once);
}

// ---------------------------------------------------------------------------
// Forwarded headers
// ---------------------------------------------------------------------------

/// The chain of peers with `peer` at its end. What came before is recorded,
/// never believed.
pub open spec fn peer_chain(prior: Option<Seq<char>>, peer: Seq<char>) -> Seq<char> {
    match prior {
        Some(before) => before + ", "@ + peer,
        None => peer,
    }
}

/// `all` with the header, where the text can be a header value.
pub open spec fn noted(
    all: Map<Seq<char>, Seq<Seq<u8>>>,
    name: Seq<char>,
    text: Seq<char>,
) -> Map<Seq<char>, Seq<Seq<u8>>> {
    if sendable(text) {
        all.insert(name, seq![encode_utf8(text)])
    } else {
        all
    }
}

/// `all` with the peer at the end of the chain of peers.
pub open spec fn chained(all: Map<Seq<char>, Seq<Seq<u8>>>, peer: Seq<char>) -> Map<
    Seq<char>,
    Seq<Seq<u8>>,
> {
    noted(all, "x-forwarded-for"@, peer_chain(first_text(all, "x-forwarded-for"@), peer))
}

/// `all` with the headers that say where the request came from.
pub open spec fn forwarded(
    all: Map<Seq<char>, Seq<Seq<u8>>>,
    peer: Seq<char>,
    host: Option<Seq<char>>,
) -> Map<Seq<char>, Seq<Seq<u8>>> {
    let typed = noted(chained(all, peer), "x-forwarded-proto"@, "http"@);
    match host {
        Some(h) => noted(typed, "x-forwarded-host"@, h),
        None => typed,
    }
}

/// Whether a text can be a header value.
fn is_sendable(text: &str) -> (r: bool)
    ensures
        r == sendable(text@),
{
    let chars: Vec<char> = crate::text::chars_of(text);
    let mut i: usize = 0;
    while i < chars.len()
        invariant
            i <= chars@.len(),
            chars@ == text@,
            forall|j: int| 0 <= j < i ==> printable(#[trigger] text@[j]),
        decreases chars@.len() - i,
    {
        let u: u32 = chars[i] as u32;
        if !((u >= 32 && u != 127) || u == 9) {
            assert(!printable(text@[i as int]));
            return false;
        }
        i += 1;
    }
    true
}

/// Adds a header if its text can be one. `false` where there was no room.
fn note(headers: &mut HeaderMap, name: &'static str, text: &str) -> (r: bool)
    requires
        forwarded_name(name@),
    ensures
        fields(*final(headers)) == if r {
            noted(fields(*old(headers)), name@, text@)
        } else {
            fields(*old(headers))
        },
        fields(*old(headers)).dom().len() < 1000 ==> r,
        fields(*old(headers)).dom().len() < 1000 ==> fields(*final(headers)).dom().len()
            <= fields(*old(headers)).dom().len() + 1,
{
    if is_sendable(text) {
        let r: bool = insert_header(headers, name, text);
        proof {
            let before = fields(*old(headers)).dom();
            vstd::set_lib::lemma_len_subset(before, fields(*headers).dom());
        }
        r
    } else {
        true
    }
}

/// Records the immediate peer, and the host that was asked for. An earlier
/// chain of peers is appended to, never replaced, and no other header is
/// touched. `false` where the map had no room for one of the headers, which a
/// map of less than nine hundred names has; those before it are then added.
pub fn add_forwarded_headers(headers: &mut HeaderMap, peer_ip: &str, host: Option<&str>) -> (r:
    bool)
    ensures
        r ==> fields(*final(headers)) == forwarded(
            fields(*old(headers)),
            peer_ip@,
            match host {
                None => None,
                Some(h) => Some(h@),
            },
        ),
        !r ==> fields(*final(headers)) == fields(*old(headers)) || fields(*final(headers))
            == chained(fields(*old(headers)), peer_ip@) || fields(*final(headers)) == noted(
            chained(fields(*old(headers)), peer_ip@),
            "x-forwarded-proto"@,
            "http"@,
        ),
        fields(*old(headers)).dom().len() < 900 ==> r,
        forall|name: Seq<char>| #![auto]
            !forwarded_name(name) ==> values(fields(*final(headers)), name) == values(
                fields(*old(headers)),
                name,
            ),
{
    proof {
        lemma_fixed_names();
    }
    let mut chain: String = String::new();
    if let Some(prior) = header_text(headers, "x-forwarded-for") {
        chain.append(prior.as_str());
        chain.append(", ");
        assert(chain@ =~= prior@ + ", "@);
    }
    chain.append(peer_ip);
    assert(chain@ =~= peer_chain(
        first_text(fields(*headers), "x-forwarded-for"@),
        peer_ip@,
    ));
    if !note(headers, "x-forwarded-for", chain.as_str()) {
        return false;
    }
    proof {
        reveal_strlit("http");
        assert(sendable("http"@));
    }
    if !note(headers, "x-forwarded-proto", "http") {
        return false;
    }
    match host {
        None => true,
        Some(h) => note(headers, "x-forwarded-host", h),
    }
}

/// The host that a request asks for.
pub fn host_of(headers: &HeaderMap) -> (r: Option<String>)
    ensures
        match r {
            None => first_text(fields(*headers), "host"@) is None,
            Some(host) => first_text(fields(*headers), "host"@) == Some(host@),
        },
{
    proof {
        lemma_fixed_names();
    }
    header_text(headers, "host")
}

/// The peer is the last in the chain of peers, behind everything that the
/// request claimed.
pub proof fn law_peer_ends_the_chain(prior: Option<Seq<char>>, peer: Seq<char>)
    ensures
        peer_chain(prior, peer).len() >= peer.len(),
        peer_chain(prior, peer).skip(peer_chain(prior, peer).len() - peer.len()) == peer,
        prior matches Some(before) ==> crate::text::starts(peer_chain(prior, peer), before),
{
    let chain = peer_chain(prior, peer);
    assert(chain.skip(chain.len() - peer.len()) =~= peer);
    if let Some(before) = prior {
        assert(chain.take(before.len() as int) =~= before);
    }
}

// ---------------------------------------------------------------------------
// What is passed on
// ---------------------------------------------------------------------------

/// A value is read as text exactly when every byte of it is visible, a blank or
/// a tab, and then byte by byte.
pub proof fn law_values_as_text(value: Seq<u8>)
    ensures
        text_of(value) is Some <==> forall|i: int|
            0 <= i < value.len() ==> 32 <= #[trigger] value[i] < 127 || value[i] == 9,
        text_of(value) matches Some(text) ==> {
            &&& text.len() == value.len()
            &&& forall|i: int| 0 <= i < value.len() ==> (#[trigger] text[i]) as u32 == value[i]
        },
{
    if forall|i: int| 0 <= i < value.len() ==> 32 <= #[trigger] value[i] < 127 || value[i] == 9 {
        assert forall|i: int| 0 <= i < value.len() implies visible(#[trigger] value[i]) by {}
    }
    if text_of(value) is Some {
        assert forall|i: int| 0 <= i < value.len() implies 32 <= #[trigger] value[i] < 127
            || value[i] == 9 by {
            assert(visible(value[i]));
        }
    }
}

/// The headers that bind a connection stay behind: the eight that always do,
/// and each that a `Connection` header names, wherever it stands in its list.
pub proof fn law_named_headers_stay_behind(all: Map<Seq<char>, Seq<Seq<u8>>>, i: int, k: int)
    ensures
        !passed_on(all).dom().contains("connection"@),
        !passed_on(all).dom().contains("keep-alive"@),
        !passed_on(all).dom().contains("proxy-authenticate"@),
        !passed_on(all).dom().contains("proxy-authorization"@),
        !passed_on(all).dom().contains("te"@),
        !passed_on(all).dom().contains("trailer"@),
        !passed_on(all).dom().contains("transfer-encoding"@),
        !passed_on(all).dom().contains("upgrade"@),
        all.dom().contains("connection"@) && 0 <= i < all["connection"@].len() ==> (text_of(
            all["connection"@][i],
        ) matches Some(text) ==> (0 <= k < crate::text::pieces(text, ',').len() ==> !passed_on(
            all,
        ).dom().contains(
            crate::text::lowered(crate::text::trimmed(crate::text::pieces(text, ',')[k])),
        ))),
{
    if all.dom().contains("connection"@) && 0 <= i < all["connection"@].len() {
        if let Some(text) = text_of(all["connection"@][i]) {
            let list = crate::text::pieces(text, ',');
            if 0 <= k < list.len() {
                let name = crate::text::lowered(crate::text::trimmed(list[k]));
                let names = listed_names(all["connection"@][i]);
                assert(names[k] == name);
                assert(listed_names(values(all, "connection"@)[i]).contains(name));
                assert(connection_bound(all, name));
            }
        }
    }
}

/// Every other header is passed on with all of its values.
pub proof fn law_other_headers_are_passed_on(
    all: Map<Seq<char>, Seq<Seq<u8>>>,
    name: Seq<char>,
)
    requires
        name != "connection"@,
        name != "keep-alive"@,
        name != "proxy-authenticate"@,
        name != "proxy-authorization"@,
        name != "te"@,
        name != "trailer"@,
        name != "transfer-encoding"@,
        name != "upgrade"@,
        all.dom().contains("connection"@) ==> forall|i: int|
            0 <= i < all["connection"@].len() ==> (text_of(
                #[trigger] all["connection"@][i],
            ) matches Some(text) ==> forall|k: int|
                0 <= k < crate::text::pieces(text, ',').len() ==> crate::text::lowered(
                    crate::text::trimmed(#[trigger] crate::text::pieces(text, ',')[k]),
                ) != name),
    ensures
        passed_on(all).dom().contains(name) <==> all.dom().contains(name),
        all.dom().contains(name) ==> passed_on(all)[name] == all[name],
{
    if named_in(values(all, "connection"@), name) {
        let list = values(all, "connection"@);
        let i = choose|i: int|
            0 <= i < list.len() && #[trigger] listed_names(list[i]).contains(name);
        let names = listed_names(list[i]);
        let k = choose|k: int| 0 <= k < names.len() && names[k] == name;
        assert(list == all["connection"@]);
        assert(text_of(all["connection"@][i]) is Some);
        let text = text_of(all["connection"@][i])->0;
        assert(names[k] == crate::text::lowered(
            crate::text::trimmed(crate::text::pieces(text, ',')[k]),
        ));
        assert(false);
    }
    assert(!connection_bound(all, name));
}

/// What the backend learns of the client: its address behind those that the
/// request already brought, the scheme, and the host where there is one. No
/// other header changes.
#[verifier::rlimit(40)]
pub proof fn law_the_client_is_noted(
    all: Map<Seq<char>, Seq<Seq<u8>>>,
    peer: Seq<char>,
    host: Option<Seq<char>>,
    name: Seq<char>,
)
    requires
        forall|i: int|
            0 <= i < peer.len() ==> ((#[trigger] peer[i]) as u32 >= 32 && peer[i] as u32 != 127)
                || peer[i] as u32 == 9,
        host matches Some(h) ==> forall|i: int|
            0 <= i < h.len() ==> ((#[trigger] h[i]) as u32 >= 32 && h[i] as u32 != 127) || h[i]
                as u32 == 9,
    ensures
        ({
            let after = forwarded(all, peer, host);
            let before = if all.dom().contains("x-forwarded-for"@)
                && all["x-forwarded-for"@].len() > 0 {
                text_of(all["x-forwarded-for"@][0])
            } else {
                None
            };
            &&& after.dom().contains("x-forwarded-for"@)
            &&& after["x-forwarded-for"@] == seq![
                encode_utf8(
                    match before {
                        Some(chain) => chain + ", "@ + peer,
                        None => peer,
                    },
                ),
            ]
            &&& after.dom().contains("x-forwarded-proto"@)
            &&& after["x-forwarded-proto"@] == seq![encode_utf8("http"@)]
            &&& (host matches Some(h) ==> after.dom().contains("x-forwarded-host"@)
                && after["x-forwarded-host"@] == seq![encode_utf8(h)])
            &&& host is None || name != "x-forwarded-host"@ ==> (name != "x-forwarded-for"@ && name
                != "x-forwarded-proto"@ ==> (after.dom().contains(name) <==> all.dom().contains(
                name,
            )) && (all.dom().contains(name) ==> after[name] == all[name]))
        }),
{
    reveal_strlit("x-forwarded-for");
    reveal_strlit("x-forwarded-proto");
    reveal_strlit("x-forwarded-host");
    reveal_strlit("http");
    reveal_strlit(", ");
    assert("x-forwarded-for"@ != "x-forwarded-proto"@) by {
        assert("x-forwarded-for"@.len() == 15 && "x-forwarded-proto"@.len() == 17);
    }
    assert("x-forwarded-for"@ != "x-forwarded-host"@) by {
        assert("x-forwarded-for"@.len() == 15 && "x-forwarded-host"@.len() == 16);
    }
    assert("x-forwarded-proto"@ != "x-forwarded-host"@) by {
        assert("x-forwarded-proto"@.len() == 17 && "x-forwarded-host"@.len() == 16);
    }
    let prior = first_text(all, "x-forwarded-for"@);
    let chain = peer_chain(prior, peer);
    assert(sendable(peer));
    if let Some(before) = prior {
        let value = all["x-forwarded-for"@][0];
        law_values_as_text(value);
        assert forall|i: int| 0 <= i < chain.len() implies printable(#[trigger] chain[i]) by {
            if i < before.len() {
                assert(chain[i] == before[i]);
                assert(before[i] as u32 == value[i]);
                assert(32 <= value[i] < 127 || value[i] == 9);
            } else if i >= before.len() + 2 {
                assert(chain[i] == peer[i - before.len() - 2]);
            } else {
                assert(chain[i] == ", "@[i - before.len()]);
            }
        }
    }
    assert(sendable(chain));
    assert(sendable("http"@));
    if let Some(h) = host {
        assert(sendable(h));
    }
    let typed = noted(chained(all, peer), "x-forwarded-proto"@, "http"@);
    assert(chained(all, peer) == all.insert("x-forwarded-for"@, seq![encode_utf8(chain)]));
    assert(typed == chained(all, peer).insert("x-forwarded-proto"@, seq![encode_utf8("http"@)]));
    assert(forwarded(all, peer, host) == match host {
        Some(h) => typed.insert("x-forwarded-host"@, seq![encode_utf8(h)]),
        None => typed,
    });
}

/// A value that cannot be sent is left out and nothing takes its place.
pub proof fn law_unsendable_values_are_left_out(
    all: Map<Seq<char>, Seq<Seq<u8>>>,
    name: Seq<char>,
    text: Seq<char>,
)
    ensures
        (exists|i: int|
            0 <= i < text.len() && (((#[trigger] text[i]) as u32) < 32 && text[i] as u32 != 9
                || text[i] as u32 == 127)) ==> noted(all, name, text) == all,
        (forall|i: int|
            0 <= i < text.len() ==> !(((#[trigger] text[i]) as u32) < 32 && text[i] as u32 != 9
                || text[i] as u32 == 127)) ==> noted(all, name, text) == all.insert(
            name,
            seq![encode_utf8(text)],
        ),
{
    if sendable(text) {
        assert forall|i: int| 0 <= i < text.len() implies !(((#[trigger] text[i]) as u32) < 32
            && text[i] as u32 != 9 || text[i] as u32 == 127) by {
            assert(printable(text[i]));
        }
    } else {
        let i = choose|i: int| 0 <= i < text.len() && !printable(#[trigger] text[i]);
        assert(((text[i]) as u32) < 32 && text[i] as u32 != 9 || text[i] as u32 == 127);
    }
}

} // verus!
