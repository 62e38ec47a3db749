//! Operations on strings, specified over their sequences of characters.

use vstd::prelude::*;
use vstd::string::*;
use vstd::utf8::*;

verus! {

/// Whether two strings hold the same characters.
pub fn same(a: &str, b: &str) -> (r: bool)
    ensures
        r == (a@ == b@),
{
    let x: &[u8] = a.as_bytes();
    let y: &[u8] = b.as_bytes();
    proof {
        encode_utf8_decode_utf8(a@);
        encode_utf8_decode_utf8(b@);
    }
    if x.len() != y.len() {
        return false;
    }
    let mut i: usize = 0;
    while i < x.len()
        invariant
            i <= x@.len(),
            x@.len() == y@.len(),
            x@ == encode_utf8(a@),
            y@ == encode_utf8(b@),
            forall|j: int| 0 <= j < i ==> x@[j] == y@[j],
        decreases x@.len() - i,
    {
        if x[i] != y[i] {
            return false;
        }
        i += 1;
    }
    assert(x@ =~= y@);
    true
}

/// The number of bytes `s` takes in UTF-8.
pub open spec fn byte_len(s: Seq<char>) -> nat {
    encode_utf8(s).len()
}

/// The number of bytes in `s`.
pub fn bytes_in(s: &str) -> (r: usize)
    ensures
        r == byte_len(s@),
{
    s.as_bytes().len()
}

/// The characters of `s`.
pub fn chars_of(s: &str) -> (r: Vec<char>)
    ensures
        r@ == s@,
{
    let mut r: Vec<char> = Vec::new();
    for c in it: s.chars()
        invariant
            it.seq() == s@,
            r@ == it.seq().take(it.index() as int),
    {
        r.push(c);
    }
    assert(s@.take(s@.len() as int) =~= s@);
    r
}

/// Whether the list holds a string with the characters of `item`.
pub open spec fn listed(list: Seq<String>, item: Seq<char>) -> bool {
    exists|i: int| 0 <= i < list.len() && (#[trigger] list[i])@ == item
}

/// Whether `list` holds `item`.
pub fn contains(list: &Vec<String>, item: &str) -> (r: bool)
    ensures
        r == listed(list@, item@),
{
    let mut i: usize = 0;
    while i < list.len()
        invariant
            i <= list@.len(),
            forall|j: int| 0 <= j < i ==> (#[trigger] list@[j])@ != item@,
        decreases list@.len() - i,
    {
        if same(list[i].as_str(), item) {
            return true;
        }
        i += 1;
    }
    false
}

/// The decimal digit `d`.
pub open spec fn digit(d: nat) -> char {
    ((48 + d) as u32) as char
}

/// `n` in decimal, without leading zeros.
pub open spec fn decimal_of(n: nat) -> Seq<char>
    decreases n,
{
    if n < 10 {
        seq![digit(n)]
    } else {
        decimal_of(n / 10).push(digit(n % 10))
    }
}

/// The text of one digit.
fn digit_text(d: u8) -> (r: &'static str)
    requires
        d < 10,
    ensures
        r@ == seq![digit(d as nat)],
{
    proof {
        reveal_strlit("0");
        reveal_strlit("1");
        reveal_strlit("2");
        reveal_strlit("3");
        reveal_strlit("4");
        reveal_strlit("5");
        reveal_strlit("6");
        reveal_strlit("7");
        reveal_strlit("8");
        reveal_strlit("9");
    }
    let r: &'static str = match d {
        0 => "0",
        1 => "1",
        2 => "2",
        3 => "3",
        4 => "4",
        5 => "5",
        6 => "6",
        7 => "7",
        8 => "8",
        _ => "9",
    };
    assert(r@ =~= seq![digit(d as nat)]);
    r
}

/// `n` in decimal.
pub fn decimal(n: u128) -> (r: String)
    ensures
        r@ == decimal_of(n as nat),
    decreases n,
{
    if n < 10 {
        digit_text(n as u8).to_owned()
    } else {
        let mut r: String = decimal(n / 10);
        r.append(digit_text((n % 10) as u8));
        assert(r@ =~= decimal_of(n as nat));
        r
    }
}

// ---------------------------------------------------------------------------
// Parts of strings
// ---------------------------------------------------------------------------

/// Unicode's White_Space property.
pub open spec fn white(c: char) -> bool {
    let u = c as u32;
    ||| 0x9 <= u <= 0xd
    ||| u == 0x20
    ||| u == 0x85
    ||| u == 0xa0
    ||| u == 0x1680
    ||| 0x2000 <= u <= 0x200a
    ||| u == 0x2028
    ||| u == 0x2029
    ||| u == 0x202f
    ||| u == 0x205f
    ||| u == 0x3000
}

/// Whether `c` is white space.
fn is_white(c: char) -> (r: bool)
    ensures
        r == white(c),
{
    let u: u32 = c as u32;
    (0x9 <= u && u <= 0xd) || u == 0x20 || u == 0x85 || u == 0xa0 || u == 0x1680 || (0x2000 <= u && u
        <= 0x200a) || u == 0x2028 || u == 0x2029 || u == 0x202f || u == 0x205f || u == 0x3000
}

/// `s` without the white space at its start.
pub open spec fn trimmed_start(s: Seq<char>) -> Seq<char>
    decreases s.len(),
{
    if s.len() > 0 && white(s[0]) {
        trimmed_start(s.drop_first())
    } else {
        s
    }
}

/// `s` without the white space at its end.
pub open spec fn trimmed_end(s: Seq<char>) -> Seq<char>
    decreases s.len(),
{
    if s.len() > 0 && white(s.last()) {
        trimmed_end(s.drop_last())
    } else {
        s
    }
}

/// `s` without the white space at either end.
pub open spec fn trimmed(s: Seq<char>) -> Seq<char> {
    trimmed_end(trimmed_start(s))
}

proof fn lemma_trimmed_start(s: Seq<char>, i: int)
    requires
        0 <= i <= s.len(),
        forall|j: int| 0 <= j < i ==> white(#[trigger] s[j]),
        i < s.len() ==> !white(s[i]),
    ensures
        trimmed_start(s) == s.skip(i),
    decreases i,
{
    if i == 0 {
        assert(s.skip(0) =~= s);
    } else {
        let t = s.drop_first();
        assert(white(s[0]));
        assert forall|j: int| 0 <= j < i - 1 implies white(#[trigger] t[j]) by {
            assert(white(s[j + 1]));
        }
        lemma_trimmed_start(t, i - 1);
        assert(t.skip(i - 1) =~= s.skip(i));
    }
}

proof fn lemma_trimmed_end(s: Seq<char>, i: int)
    requires
        0 <= i <= s.len(),
        forall|j: int| i <= j < s.len() ==> white(#[trigger] s[j]),
        i > 0 ==> !white(s[i - 1]),
    ensures
        trimmed_end(s) == s.take(i),
    decreases s.len() - i,
{
    if i == s.len() {
        assert(s.take(i) =~= s);
    } else {
        let t = s.drop_last();
        assert(white(s[s.len() - 1]));
        lemma_trimmed_end(t, i);
        assert(t.take(i) =~= s.take(i));
    }
}

/// `s` without the white space at its end.
pub fn trim_end(s: &str) -> (r: &str)
    ensures
        r@ == trimmed_end(s@),
{
    let chars: Vec<char> = chars_of(s);
    let mut end: usize = chars.len();
    while end > 0 && is_white(chars[end - 1])
        invariant
            end <= chars@.len(),
            forall|j: int| end <= j < chars@.len() ==> white(#[trigger] chars@[j]),
        decreases end,
    {
        end -= 1;
    }
    proof {
        lemma_trimmed_end(s@, end as int);
        assert(s@.subrange(0, end as int) =~= s@.take(end as int));
    }
    s.substring_char(0, end)
}

/// `s` without the white space at either end.
pub fn trim(s: &str) -> (r: &str)
    ensures
        r@ == trimmed(s@),
{
    let chars: Vec<char> = chars_of(s);
    let n: usize = chars.len();
    let mut start: usize = 0;
    while start < n && is_white(chars[start])
        invariant
            start <= n,
            n == chars@.len(),
            forall|j: int| 0 <= j < start ==> white(#[trigger] chars@[j]),
        decreases n - start,
    {
        start += 1;
    }
    proof {
        lemma_trimmed_start(s@, start as int);
        assert(s@.subrange(start as int, n as int) =~= s@.skip(start as int));
    }
    trim_end(s.substring_char(start, n))
}

/// Whether `s` starts with `prefix`.
pub open spec fn starts(s: Seq<char>, prefix: Seq<char>) -> bool {
    prefix.len() <= s.len() && s.take(prefix.len() as int) == prefix
}

/// What follows `prefix` in `s`, if `s` starts with it.
pub fn strip_prefix<'a>(s: &'a str, prefix: &str) -> (r: Option<&'a str>)
    ensures
        match r {
            None => !starts(s@, prefix@),
            Some(rest) => starts(s@, prefix@) && rest@ == s@.skip(prefix@.len() as int),
        },
{
    let n: usize = s.unicode_len();
    let k: usize = prefix.unicode_len();
    if k > n {
        return None;
    }
    let head: &str = s.substring_char(0, k);
    assert(s@.subrange(0, k as int) =~= s@.take(k as int));
    if same(head, prefix) {
        assert(s@.subrange(k as int, n as int) =~= s@.skip(k as int));
        Some(s.substring_char(k, n))
    } else {
        None
    }
}

/// The position of the first `c` in `s`, or the length of `s` if there is
/// none.
pub open spec fn position(s: Seq<char>, c: char) -> nat
    decreases s.len(),
{
    if s.len() == 0 || s[0] == c {
        0
    } else {
        1 + position(s.drop_first(), c)
    }
}

/// How often `c` occurs in `s`.
pub open spec fn occurrences(s: Seq<char>, c: char) -> nat
    decreases s.len(),
{
    if s.len() == 0 {
        0
    } else {
        occurrences(s.drop_last(), c) + (if s.last() == c {
            1nat
        } else {
            0
        })
    }
}

pub proof fn lemma_position(s: Seq<char>, c: char, i: int)
    requires
        0 <= i <= s.len(),
        forall|j: int| 0 <= j < i ==> #[trigger] s[j] != c,
        i < s.len() ==> s[i] == c,
    ensures
        position(s, c) == i,
    decreases i,
{
    if i > 0 {
        let t = s.drop_first();
        assert(s[0] != c);
        assert forall|j: int| 0 <= j < i - 1 implies #[trigger] t[j] != c by {
            assert(s[j + 1] != c);
        }
        lemma_position(t, c, i - 1);
    }
}

/// The position of the first `c`, or the length of the string.
pub fn find(s: &str, c: char) -> (r: usize)
    ensures
        r == position(s@, c),
        r <= s@.len(),
        r < s@.len() ==> s@[r as int] == c,
{
    let chars: Vec<char> = chars_of(s);
    let mut i: usize = 0;
    while i < chars.len() && chars[i] != c
        invariant
            i <= chars@.len(),
            forall|j: int| 0 <= j < i ==> #[trigger] chars@[j] != c,
        decreases chars@.len() - i,
    {
        i += 1;
    }
    proof {
        lemma_position(s@, c, i as int);
    }
    i
}

/// How often `c` occurs.
pub fn count(s: &str, c: char) -> (r: usize)
    ensures
        r == occurrences(s@, c),
{
    let chars: Vec<char> = chars_of(s);
    let mut n: usize = 0;
    let mut i: usize = 0;
    assert(chars@.take(0) =~= Seq::empty());
    while i < chars.len()
        invariant
            i <= chars@.len(),
            n <= i,
            n == occurrences(chars@.take(i as int), c),
        decreases chars@.len() - i,
    {
        assert(chars@.take(i + 1).drop_last() =~= chars@.take(i as int));
        if chars[i] == c {
            n += 1;
        }
        i += 1;
    }
    assert(chars@.take(chars@.len() as int) =~= chars@);
    n
}

// ---------------------------------------------------------------------------
// Building strings
// ---------------------------------------------------------------------------

/// The standard library's `String::push` puts the character behind what the
/// string holds.
pub assume_specification[ String::push ](s: &mut String, c: char)
    ensures
        final(s)@ == old(s)@.push(c),
;

/// `n` spaces.
pub open spec fn blanks(n: nat) -> Seq<char> {
    Seq::new(n, |i: int| ' ')
}

/// `n` spaces.
pub fn spaces(n: usize) -> (r: String)
    ensures
        r@ == blanks(n as nat),
{
    let mut r: String = String::new();
    let mut i: usize = 0;
    while i < n
        invariant
            i <= n,
            r@ == blanks(i as nat),
        decreases n - i,
    {
        r.push(' ');
        i += 1;
        assert(r@ =~= blanks(i as nat));
    }
    assert(r@ =~= blanks(n as nat));
    r
}

/// `s` filled up with spaces to `n` characters.
pub open spec fn padded(s: Seq<char>, n: nat) -> Seq<char> {
    if s.len() < n {
        s + blanks((n - s.len()) as nat)
    } else {
        s
    }
}

/// `s` with spaces before it, `n` characters in all.
pub open spec fn aligned(s: Seq<char>, n: nat) -> Seq<char> {
    if s.len() < n {
        blanks((n - s.len()) as nat) + s
    } else {
        s
    }
}

/// `s` filled up with spaces to `n` characters.
pub fn pad(s: &str, n: usize) -> (r: String)
    ensures
        r@ == padded(s@, n as nat),
{
    let len: usize = s.unicode_len();
    let mut r: String = s.to_owned();
    if len < n {
        r.append(spaces(n - len).as_str());
    }
    r
}

/// `s` with spaces before it, `n` characters in all.
pub fn align(s: &str, n: usize) -> (r: String)
    ensures
        r@ == aligned(s@, n as nat),
{
    let len: usize = s.unicode_len();
    if len < n {
        let mut r: String = spaces(n - len);
        r.append(s);
        r
    } else {
        s.to_owned()
    }
}

/// The ASCII lower case of a letter; anything else as it is.
pub open spec fn lower_char(c: char) -> char {
    if 65 <= c as u32 && c as u32 <= 90 {
        ((c as u32 + 32) as u8) as char
    } else {
        c
    }
}

/// `s` with its ASCII letters in lower case.
pub open spec fn lowered(s: Seq<char>) -> Seq<char> {
    s.map_values(|c: char| lower_char(c))
}

/// `s` with its ASCII letters in lower case.
pub fn lower(s: &str) -> (r: String)
    ensures
        r@ == lowered(s@),
{
    let chars: Vec<char> = chars_of(s);
    let mut r: String = String::new();
    let mut i: usize = 0;
    while i < chars.len()
        invariant
            i <= chars@.len(),
            chars@ == s@,
            r@ == lowered(s@.take(i as int)),
        decreases chars@.len() - i,
    {
        let u: u32 = chars[i] as u32;
        let c: char = if 65 <= u && u <= 90 {
            ((u + 32) as u8) as char
        } else {
            chars[i]
        };
        r.push(c);
        assert(lowered(s@.take(i + 1)) =~= lowered(s@.take(i as int)).push(lower_char(s@[i as int])));
        i += 1;
    }
    assert(s@.take(s@.len() as int) =~= s@);
    r
}

/// The texts in order, with `sep` between them.
pub open spec fn joined(list: Seq<Seq<char>>, sep: Seq<char>) -> Seq<char>
    decreases list.len(),
{
    if list.len() == 0 {
        Seq::empty()
    } else if list.len() == 1 {
        list[0]
    } else {
        joined(list.drop_last(), sep) + sep + list.last()
    }
}

/// The texts in order, with `sep` between them.
pub fn join(list: &Vec<String>, sep: &str) -> (r: String)
    ensures
        r@ == joined(list@.map_values(|s: String| s@), sep@),
{
    let ghost all = list@.map_values(|s: String| s@);
    let mut r: String = String::new();
    let mut i: usize = 0;
    assert(all.take(0) =~= Seq::<Seq<char>>::empty());
    while i < list.len()
        invariant
            i <= list@.len(),
            all == list@.map_values(|s: String| s@),
            r@ == joined(all.take(i as int), sep@),
        decreases list@.len() - i,
    {
        let ghost next = all.take(i + 1);
        assert(next.drop_last() =~= all.take(i as int));
        assert(next.last() == list@[i as int]@);
        if i > 0 {
            r.append(sep);
            r.append(list[i].as_str());
            assert(r@ =~= joined(next, sep@));
        } else {
            r.append(list[i].as_str());
            assert(r@ =~= next[0]);
        }
        i += 1;
    }
    assert(all.take(all.len() as int) =~= all);
    r
}

// ---------------------------------------------------------------------------
// Taking strings apart
// ---------------------------------------------------------------------------

/// What stands between the `sep`s of `s`; one piece more than there are
/// `sep`s.
pub open spec fn pieces(s: Seq<char>, sep: char) -> Seq<Seq<char>>
    decreases s.len(),
{
    if s.len() == 0 {
        seq![Seq::empty()]
    } else {
        let before = pieces(s.drop_last(), sep);
        if s.last() == sep {
            before.push(Seq::empty())
        } else {
            before.drop_last().push(before.last().push(s.last()))
        }
    }
}

/// What stands between the `sep`s of `s`.
pub fn split(s: &str, sep: char) -> (r: Vec<String>)
    ensures
        r@.map_values(|t: String| t@) == pieces(s@, sep),
        r@.len() > 0,
{
    let chars: Vec<char> = chars_of(s);
    let mut done: Vec<String> = Vec::new();
    let mut piece: String = String::new();
    let mut i: usize = 0;
    assert(chars@.take(0) =~= Seq::empty());
    assert(done@.map_values(|t: String| t@).push(piece@) =~= pieces(chars@.take(0), sep));
    while i < chars.len()
        invariant
            i <= chars@.len(),
            chars@ == s@,
            done@.map_values(|t: String| t@).push(piece@) == pieces(chars@.take(i as int), sep),
        decreases chars@.len() - i,
    {
        let ghost before = done@.map_values(|t: String| t@).push(piece@);
        assert(chars@.take(i + 1).drop_last() =~= chars@.take(i as int));
        assert(before.drop_last() =~= done@.map_values(|t: String| t@));
        if chars[i] == sep {
            done.push(piece);
            piece = String::new();
            assert(done@.map_values(|t: String| t@) =~= before);
        } else {
            piece.push(chars[i]);
        }
        assert(done@.map_values(|t: String| t@).push(piece@) =~= pieces(chars@.take(i + 1), sep));
        i += 1;
    }
    assert(chars@.take(chars@.len() as int) =~= chars@);
    let ghost init = done@.map_values(|t: String| t@);
    done.push(piece);
    assert(done@.map_values(|t: String| t@) =~= init.push(piece@));
    done
}

/// Whether `c` does not occur in `s`.
pub open spec fn free_of(s: Seq<char>, c: char) -> bool {
    forall|i: int| 0 <= i < s.len() ==> #[trigger] s[i] != c
}

/// There is always a piece, no piece holds a `sep`, and what a piece holds is
/// from `s`.
pub proof fn lemma_pieces(s: Seq<char>, sep: char)
    ensures
        pieces(s, sep).len() > 0,
        forall|j: int| 0 <= j < pieces(s, sep).len() ==> free_of(#[trigger] pieces(s, sep)[j], sep),
        forall|j: int, i: int|
            0 <= j < pieces(s, sep).len() && 0 <= i < pieces(s, sep)[j].len() ==> s.contains(
                #[trigger] pieces(s, sep)[j][i],
            ),
    decreases s.len(),
{
    if s.len() > 0 {
        let init = s.drop_last();
        let before = pieces(init, sep);
        let all = pieces(s, sep);
        lemma_pieces(init, sep);
        assert forall|j: int, i: int|
            0 <= j < all.len() && 0 <= i < all[j].len() implies s.contains(#[trigger] all[j][i])
            && all[j][i] != sep by {
            if j < before.len() && i < before[j].len() {
                assert(all[j][i] == before[j][i]);
                assert(free_of(before[j], sep));
                assert(init.contains(before[j][i]));
                let k = init.index_of(before[j][i]);
                assert(s[k] == before[j][i]);
            } else {
                assert(all[j][i] == s[s.len() - 1]);
            }
        }
        assert forall|j: int| 0 <= j < all.len() implies free_of(#[trigger] all[j], sep) by {
            assert forall|i: int| 0 <= i < all[j].len() implies #[trigger] all[j][i] != sep by {}
        }
    }
}

/// What holds no `sep` is one piece.
pub proof fn lemma_one_piece(s: Seq<char>, sep: char)
    requires
        free_of(s, sep),
    ensures
        pieces(s, sep) == seq![s],
    decreases s.len(),
{
    if s.len() == 0 {
        assert(s =~= Seq::empty());
    } else {
        let init = s.drop_last();
        assert(free_of(init, sep)) by {
            assert forall|i: int| 0 <= i < init.len() implies #[trigger] init[i] != sep by {
                assert(init[i] == s[i]);
            }
        }
        lemma_one_piece(init, sep);
        assert(s[s.len() - 1] != sep);
        assert(init.push(s.last()) =~= s);
        assert(pieces(s, sep) =~= seq![s]);
    }
}

/// A `sep` parts the pieces before it from those behind it.
pub proof fn lemma_pieces_parted(a: Seq<char>, b: Seq<char>, sep: char)
    ensures
        pieces(a + seq![sep] + b, sep) == pieces(a, sep) + pieces(b, sep),
    decreases b.len(),
{
    let all = a + seq![sep] + b;
    if b.len() == 0 {
        assert(all.drop_last() =~= a);
        assert(all.last() == sep);
        assert(pieces(all, sep) =~= pieces(a, sep) + pieces(b, sep));
    } else {
        let init = b.drop_last();
        lemma_pieces_parted(a, init, sep);
        lemma_pieces(init, sep);
        assert(all.drop_last() =~= a + seq![sep] + init);
        assert(all.last() == b.last());
        let left = pieces(a, sep);
        let right = pieces(init, sep);
        assert((left + right).drop_last() =~= left + right.drop_last());
        assert((left + right).last() == right.last());
        assert(pieces(all, sep) =~= left + pieces(b, sep));
    }
}

/// `s` without the `c`s at its end.
pub open spec fn without_tail(s: Seq<char>, c: char) -> Seq<char>
    decreases s.len(),
{
    if s.len() > 0 && s.last() == c {
        without_tail(s.drop_last(), c)
    } else {
        s
    }
}

/// `s` without the `c`s at its end.
pub fn trim_tail(s: &str, c: char) -> (r: &str)
    ensures
        r@ == without_tail(s@, c),
{
    let chars: Vec<char> = chars_of(s);
    let mut end: usize = chars.len();
    assert(s@.take(s@.len() as int) =~= s@);
    while end > 0 && chars[end - 1] == c
        invariant
            end <= chars@.len(),
            chars@ == s@,
            without_tail(s@, c) == without_tail(s@.take(end as int), c),
        decreases end,
    {
        assert(s@.take(end as int).drop_last() =~= s@.take(end - 1));
        end -= 1;
    }
    assert(s@.subrange(0, end as int) =~= s@.take(end as int));
    s.substring_char(0, end)
}

/// Whether `part` stands at `i` in `s`.
pub open spec fn stands_at(s: Seq<char>, part: Seq<char>, i: int) -> bool {
    0 <= i && i + part.len() <= s.len() && s.subrange(i, i + part.len()) == part
}

/// Whether `part` stands somewhere in `s`.
pub open spec fn occurs(s: Seq<char>, part: Seq<char>) -> bool {
    exists|i: int| stands_at(s, part, i)
}

/// Whether `part` stands somewhere in `s`.
pub fn finds(s: &str, part: &str) -> (r: bool)
    ensures
        r == occurs(s@, part@),
{
    let n: usize = s.unicode_len();
    let k: usize = part.unicode_len();
    if k > n {
        return false;
    }
    let last: usize = n - k;
    if same(s.substring_char(last, n), part) {
        assert(stands_at(s@, part@, last as int));
        return true;
    }
    let mut i: usize = 0;
    while i < last
        invariant
            n == s@.len(),
            last + k == n,
            k == part@.len(),
            i <= last,
            forall|j: int| 0 <= j < i ==> !stands_at(s@, part@, j),
        decreases last - i,
    {
        if same(s.substring_char(i, i + k), part) {
            assert(stands_at(s@, part@, i as int));
            return true;
        }
        i += 1;
    }
    assert(!stands_at(s@, part@, last as int));
    false
}

// ---------------------------------------------------------------------------
// What these operations are held to
// ---------------------------------------------------------------------------

/// A text is listed exactly when some entry of the list holds it.
pub proof fn law_listed(list: Seq<String>, item: Seq<char>)
    ensures
        listed(list, item) <==> exists|i: int| 0 <= i < list.len() && (#[trigger] list[i])@ == item,
{
}

/// The decimal digits of a number give it back, and it has no leading zero.
pub proof fn law_decimal_is_read_back(n: nat)
    ensures
        decimal_of(n).len() > 0,
        forall|i: int| 0 <= i < decimal_of(n).len() ==> '0' <= #[trigger] decimal_of(n)[i] <= '9',
        n > 0 ==> decimal_of(n)[0] != '0',
        n < 10 ==> decimal_of(n).len() == 1,
        decimal_of(n).fold_left(0nat, |v: nat, c: char| (v * 10 + (c as u32 - 48)) as nat) == n,
    decreases n,
{
    let value = |v: nat, c: char| (v * 10 + (c as u32 - 48)) as nat;
    let digits = decimal_of(n);
    if n < 10 {
        assert(digits.drop_last() =~= Seq::empty());
        reveal_with_fuel(Seq::fold_left, 2);
        assert(digits.fold_left(0nat, value) == value(0nat, digits[0]));
    } else {
        law_decimal_is_read_back(n / 10);
        let init = decimal_of(n / 10);
        assert(digits.drop_last() =~= init);
        assert(digits.last() == digit(n % 10));
        assert(digits.fold_left(0nat, value) == value(init.fold_left(0nat, value), digit(n % 10)));
        assert(digits[0] == init[0]);
        assert forall|i: int| 0 <= i < digits.len() implies '0' <= #[trigger] digits[i] <= '9' by {
            if i < init.len() {
                assert(digits[i] == init[i]);
            }
        }
    }
}

/// White space is Unicode's: the tab to the carriage return, the space, and
/// the seventeen wide, narrow and unbreakable ones beyond ASCII.
pub proof fn law_white_space(c: char)
    ensures
        white(c) <==> c == '\t' || c == '\n' || c == '\u{b}' || c == '\u{c}' || c == '\r' || c == ' '
            || c == '\u{85}' || c == '\u{a0}' || c == '\u{1680}' || ('\u{2000}' <= c <= '\u{200a}')
            || c == '\u{2028}' || c == '\u{2029}' || c == '\u{202f}' || c == '\u{205f}' || c
            == '\u{3000}',
{
}

/// A trimmed text is the part of the text from its first to its last character
/// that is no white space.
pub proof fn law_trimming(s: Seq<char>) -> (at: (int, int))
    ensures
        0 <= at.0 <= at.1 <= s.len(),
        trimmed(s) == s.subrange(at.0, at.1),
        forall|i: int| 0 <= i < at.0 ==> white(#[trigger] s[i]),
        forall|i: int| at.1 <= i < s.len() ==> white(#[trigger] s[i]),
        at.0 < at.1 ==> !white(s[at.0]) && !white(s[at.1 - 1]),
{
    let a = lemma_first_visible(s);
    lemma_trimmed_start(s, a);
    let t = s.skip(a);
    let b = law_trimming_the_end(t);
    assert(t.take(b) =~= s.subrange(a, a + b));
    assert forall|i: int| a + b <= i < s.len() implies white(#[trigger] s[i]) by {
        assert(t[i - a] == s[i]);
    }
    if b > 0 {
        assert(t[b - 1] == s[a + b - 1]);
        if a < s.len() {
            assert(t[0] == s[a]);
        }
    }
    (a, a + b)
}

/// A text trimmed at its end is its part up to the last character that is no
/// white space.
pub proof fn law_trimming_the_end(s: Seq<char>) -> (end: int)
    ensures
        0 <= end <= s.len(),
        trimmed_end(s) == s.take(end),
        forall|i: int| end <= i < s.len() ==> white(#[trigger] s[i]),
        end > 0 ==> !white(s[end - 1]),
    decreases s.len(),
{
    if s.len() > 0 && white(s.last()) {
        let init = s.drop_last();
        let end = law_trimming_the_end(init);
        assert(init.take(end) =~= s.take(end));
        assert forall|i: int| end <= i < s.len() implies white(#[trigger] s[i]) by {
            if i < init.len() {
                assert(init[i] == s[i]);
            }
        }
        if end > 0 {
            assert(init[end - 1] == s[end - 1]);
        }
        end
    } else {
        assert(s.take(s.len() as int) =~= s);
        s.len() as int
    }
}

proof fn lemma_first_visible(s: Seq<char>) -> (i: int)
    ensures
        0 <= i <= s.len(),
        forall|j: int| 0 <= j < i ==> white(#[trigger] s[j]),
        i < s.len() ==> !white(s[i]),
    decreases s.len(),
{
    if s.len() > 0 && white(s[0]) {
        let t = s.drop_first();
        let i = lemma_first_visible(t);
        assert forall|j: int| 0 <= j < i + 1 implies white(#[trigger] s[j]) by {
            if j > 0 {
                assert(t[j - 1] == s[j]);
            }
        }
        if i < t.len() {
            assert(t[i] == s[i + 1]);
        }
        i + 1
    } else {
        0
    }
}

/// A text starts with another exactly when they agree as far as that goes.
pub proof fn law_starting(s: Seq<char>, prefix: Seq<char>)
    ensures
        starts(s, prefix) <==> prefix.len() <= s.len() && forall|i: int|
            0 <= i < prefix.len() ==> #[trigger] s[i] == prefix[i],
        starts(s, prefix) ==> s == prefix + s.skip(prefix.len() as int),
{
    if prefix.len() <= s.len() {
        let head = s.take(prefix.len() as int);
        if forall|i: int| 0 <= i < prefix.len() ==> #[trigger] s[i] == prefix[i] {
            assert(head =~= prefix);
        }
        if head == prefix {
            assert forall|i: int| 0 <= i < prefix.len() implies #[trigger] s[i] == prefix[i] by {
                assert(head[i] == prefix[i]);
            }
            assert(s =~= prefix + s.skip(prefix.len() as int));
        }
    }
}

/// The position of a character is that of its first occurrence, or the length
/// where it does not occur.
pub proof fn law_first_position(s: Seq<char>, c: char)
    ensures
        position(s, c) <= s.len(),
        forall|i: int| 0 <= i < position(s, c) ==> #[trigger] s[i] != c,
        position(s, c) < s.len() ==> s[position(s, c) as int] == c,
    decreases s.len(),
{
    if s.len() > 0 && s[0] != c {
        let t = s.drop_first();
        law_first_position(t, c);
        assert forall|i: int| 0 <= i < position(s, c) implies #[trigger] s[i] != c by {
            if i > 0 {
                assert(t[i - 1] == s[i]);
            }
        }
    }
}

/// How often a character occurs is how many characters of the text it is.
pub proof fn law_counting(s: Seq<char>, c: char)
    ensures
        occurrences(s, c) == s.filter(|x: char| x == c).len(),
    decreases s.len(),
{
    reveal(Seq::filter);
    if s.len() > 0 {
        law_counting(s.drop_last(), c);
    }
}

/// Padding puts spaces behind a text, aligning puts them before it, up to the
/// width; a text that is as wide or wider stays as it is.
pub proof fn law_padding(s: Seq<char>, n: nat)
    ensures
        padded(s, n).len() == if s.len() < n {
            n
        } else {
            s.len()
        },
        aligned(s, n).len() == padded(s, n).len(),
        forall|i: int| 0 <= i < s.len() ==> #[trigger] padded(s, n)[i] == s[i],
        forall|i: int| s.len() <= i < padded(s, n).len() ==> #[trigger] padded(s, n)[i] == ' ',
        forall|i: int|
            0 <= i < aligned(s, n).len() - s.len() ==> #[trigger] aligned(s, n)[i] == ' ',
        forall|i: int|
            0 <= i < s.len() ==> #[trigger] s[i] == aligned(s, n)[aligned(s, n).len() - s.len()
                + i],
{
}

/// Lower case changes the letters A to Z, each to its small one, and nothing
/// else.
pub proof fn law_lower_case(s: Seq<char>)
    ensures
        lowered(s).len() == s.len(),
        forall|i: int|
            0 <= i < s.len() ==> if 65 <= #[trigger] s[i] as u32 <= 90 {
                lowered(s)[i] as u32 == s[i] as u32 + 32
            } else {
                lowered(s)[i] == s[i]
            },
        lowered(lowered(s)) == lowered(s),
{
    assert forall|i: int| 0 <= i < s.len() implies if 65 <= #[trigger] s[i] as u32 <= 90 {
        lowered(s)[i] as u32 == s[i] as u32 + 32
    } else {
        lowered(s)[i] == s[i]
    } by {
        assert(lowered(s)[i] == lower_char(s[i]));
        let u = s[i] as u32;
        if 65 <= u && u <= 90 {
            let v = (u + 32) as u8;
            assert(v as int == u as int + 32);
        }
    }
    assert(lowered(lowered(s)) =~= lowered(s));
}

/// The texts that were joined stand one behind the other, with the separator
/// between, from the first character to the last: text `i` at `at[i]`.
pub proof fn law_joining(list: Seq<Seq<char>>, sep: Seq<char>) -> (at: Seq<int>)
    ensures
        list.len() == 0 ==> joined(list, sep).len() == 0,
        at.len() == list.len(),
        list.len() > 0 ==> at[0] == 0 && joined(list, sep).len() == at[list.len() - 1] + list[
            list.len() - 1].len(),
        forall|i: int|
            0 <= i < list.len() ==> 0 <= #[trigger] at[i] && at[i] + list[i].len() <= joined(
                list,
                sep,
            ).len() && joined(list, sep).subrange(at[i], at[i] + list[i].len()) == list[i],
        forall|i: int|
            1 <= i < list.len() ==> #[trigger] at[i] == at[i - 1] + list[i - 1].len() + sep.len()
                && joined(list, sep).subrange(at[i] - sep.len(), at[i]) == sep,
    decreases list.len(),
{
    let all = joined(list, sep);
    if list.len() == 0 {
        Seq::empty()
    } else if list.len() == 1 {
        assert(all.subrange(0, all.len() as int) =~= all);
        seq![0]
    } else {
        let init = list.drop_last();
        let before = law_joining(init, sep);
        let front = joined(init, sep);
        let place = (front.len() + sep.len()) as int;
        let at = before.push(place);
        assert(all =~= front + sep + list.last());
        assert forall|i: int| 0 <= i < list.len() implies 0 <= #[trigger] at[i] && at[i]
            + list[i].len() <= all.len() && all.subrange(at[i], at[i] + list[i].len())
            == list[i] by {
            if i < init.len() {
                assert(at[i] == before[i]);
                assert(init[i] == list[i]);
                assert(all.subrange(at[i], at[i] + list[i].len()) =~= front.subrange(
                    at[i],
                    at[i] + list[i].len(),
                ));
            } else {
                assert(all.subrange(place, place + list[i].len()) =~= list.last());
            }
        }
        assert forall|i: int| 1 <= i < list.len() implies #[trigger] at[i] == at[i - 1] + list[i
            - 1].len() + sep.len() && all.subrange(at[i] - sep.len(), at[i]) == sep by {
            if i < init.len() {
                assert(at[i] == before[i] && at[i - 1] == before[i - 1]);
                assert(init[i - 1] == list[i - 1] && init[i] == list[i]);
                assert(before[i] + init[i].len() <= front.len());
                assert(all.subrange(at[i] - sep.len(), at[i]) =~= front.subrange(
                    at[i] - sep.len(),
                    at[i],
                ));
            } else {
                assert(at[i - 1] == before[i - 1]);
                assert(init[init.len() - 1] == list[i - 1]);
                assert(all.subrange(place - sep.len(), place) =~= sep);
            }
        }
        at
    }
}

/// The pieces of a text hold no separator, and joined by it they are the text.
pub proof fn law_splitting(s: Seq<char>, sep: char)
    ensures
        pieces(s, sep).len() > 0,
        forall|j: int, i: int|
            0 <= j < pieces(s, sep).len() && 0 <= i < pieces(s, sep)[j].len()
                ==> #[trigger] pieces(s, sep)[j][i] != sep,
        joined(pieces(s, sep), seq![sep]) == s,
    decreases s.len(),
{
    lemma_pieces(s, sep);
    let all = pieces(s, sep);
    assert forall|j: int, i: int|
        0 <= j < all.len() && 0 <= i < all[j].len() implies #[trigger] all[j][i] != sep by {
        assert(free_of(all[j], sep));
    }
    if s.len() == 0 {
        assert(joined(all, seq![sep]) =~= s);
    } else {
        let init = s.drop_last();
        law_splitting(init, sep);
        let before = pieces(init, sep);
        if s.last() == sep {
            assert(all.drop_last() =~= before);
            assert(joined(all, seq![sep]) =~= s);
        } else {
            assert(all.drop_last() =~= before.drop_last());
            if all.len() == 1 {
                assert(joined(before, seq![sep]) == before[0]);
                assert(joined(all, seq![sep]) =~= s);
            } else {
                let front = joined(before.drop_last(), seq![sep]) + seq![sep];
                assert(init == front + before.last());
                assert(all.last() == before.last().push(s.last()));
                assert(joined(all, seq![sep]) == front + all.last());
                assert(front + all.last() =~= init.push(s.last()));
                assert(init.push(s.last()) =~= s);
            }
        }
    }
}

/// Texts that hold no separator are read back from what they are joined to.
pub proof fn law_joined_texts_are_read_back(list: Seq<Seq<char>>, sep: char)
    requires
        list.len() > 0,
        forall|j: int, i: int|
            0 <= j < list.len() && 0 <= i < list[j].len() ==> #[trigger] list[j][i] != sep,
    ensures
        pieces(joined(list, seq![sep]), sep) == list,
    decreases list.len(),
{
    let last = list.last();
    assert(free_of(last, sep)) by {
        assert forall|i: int| 0 <= i < last.len() implies #[trigger] last[i] != sep by {
            assert(list[list.len() - 1][i] != sep);
        }
    }
    lemma_one_piece(last, sep);
    if list.len() == 1 {
        assert(list =~= seq![last]);
    } else {
        let init = list.drop_last();
        assert forall|j: int, i: int|
            0 <= j < init.len() && 0 <= i < init[j].len() implies #[trigger] init[j][i] != sep by {
            assert(list[j][i] != sep);
        }
        law_joined_texts_are_read_back(init, sep);
        lemma_pieces_parted(joined(init, seq![sep]), last, sep);
        assert(init + seq![last] =~= list);
    }
}

/// A text without a character at its end is its part up to the last other one.
pub proof fn law_without_tail(s: Seq<char>, c: char) -> (end: int)
    ensures
        0 <= end <= s.len(),
        without_tail(s, c) == s.take(end),
        forall|i: int| end <= i < s.len() ==> #[trigger] s[i] == c,
        end > 0 ==> s[end - 1] != c,
    decreases s.len(),
{
    if s.len() > 0 && s.last() == c {
        let init = s.drop_last();
        let end = law_without_tail(init, c);
        assert(init.take(end) =~= s.take(end));
        assert forall|i: int| end <= i < s.len() implies #[trigger] s[i] == c by {
            if i < init.len() {
                assert(init[i] == s[i]);
            }
        }
        if end > 0 {
            assert(init[end - 1] == s[end - 1]);
        }
        end
    } else {
        assert(s.take(s.len() as int) =~= s);
        s.len() as int
    }
}

/// A part occurs in what it was put into, wherever that was, and what occurs
/// can be cut out.
pub proof fn law_occurring(before: Seq<char>, part: Seq<char>, behind: Seq<char>)
    ensures
        occurs(before + part + behind, part),
        occurs(before, part) ==> exists|i: int|
            0 <= i && i + part.len() <= before.len() && #[trigger] before.subrange(
                i,
                i + part.len(),
            ) == part,
{
    let all = before + part + behind;
    let i = before.len() as int;
    assert(all.subrange(i, i + part.len()) =~= part);
    assert(stands_at(all, part, i));
    if occurs(before, part) {
        let i = choose|i: int| stands_at(before, part, i);
        assert(before.subrange(i, i + part.len()) == part);
    }
}

} // verus!
