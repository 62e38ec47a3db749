//! The wire form of the messages: postcard, field after field.
//!
//! The scalars and strings are written and read by postcard itself. A struct
//! is its fields in order, a list its length and its items, an option a flag
//! and its value, a variant its number and its fields.

use crate::proto::{GraphReport, ListenAddr, NodeInfo, RadiiMessage, RelayedMessage, RouteHop};
use vstd::prelude::*;
use vstd::utf8::*;

verus! {

// ---------------------------------------------------------------------------
// Scalars and strings, as postcard writes and reads them
// ---------------------------------------------------------------------------

/// The reasons for which postcard refuses bytes.
#[verifier::external_type_specification]
#[verifier::external_body]
pub struct ExPostcardError(postcard::Error);

/// `n` in groups of seven bits, lowest first; all but the last group carry the
/// top bit.
pub open spec fn varint(n: nat) -> Seq<u8>
    decreases n,
{
    if n < 128 {
        seq![n as u8]
    } else {
        seq![(n % 128 + 128) as u8] + varint(n / 128)
    }
}

/// Why bytes are refused.
#[derive(Debug, Clone, Copy, PartialEq, Eq)]
pub enum DecodeFault {
    /// They end within a value.
    UnexpectedEnd,
    /// A number is longer than its type allows.
    BadVarint,
    /// A flag is neither 0 nor 1.
    BadBool,
    /// A string is not UTF-8.
    BadUtf8,
    /// The flag of an option is neither 0 nor 1.
    BadOption,
    /// No variant has that number.
    BadVariant,
}

impl DecodeFault {
    /// The fault in words, which are postcard's own.
    pub open spec fn words(self) -> Seq<char> {
        match self {
            DecodeFault::UnexpectedEnd => "Hit the end of buffer, expected more data"@,
            DecodeFault::BadVarint =>
                "Found a varint that didn't terminate. Is the usize too big for this platform?"@,
            DecodeFault::BadBool => "Found a bool that wasn't 0 or 1"@,
            DecodeFault::BadUtf8 => "Tried to parse invalid utf-8"@,
            DecodeFault::BadOption => "Found an Option discriminant that wasn't 0 or 1"@,
            DecodeFault::BadVariant => "Serde Deserialization Error"@,
        }
    }

    /// The fault in words.
    pub fn describe(&self) -> (r: &'static str)
        ensures
            r@ == self.words(),
    {
        match *self {
            DecodeFault::UnexpectedEnd => "Hit the end of buffer, expected more data",
            DecodeFault::BadVarint =>
                "Found a varint that didn't terminate. Is the usize too big for this platform?",
            DecodeFault::BadBool => "Found a bool that wasn't 0 or 1",
            DecodeFault::BadUtf8 => "Tried to parse invalid utf-8",
            DecodeFault::BadOption => "Found an Option discriminant that wasn't 0 or 1",
            DecodeFault::BadVariant => "Serde Deserialization Error",
        }
    }
}

/// Reads back a number from at most `left` bytes, the last of which may hold
/// at most `top`; what follows it is left over.
pub open spec fn unvarint(bytes: Seq<u8>, left: nat, top: nat) -> Result<
    (nat, Seq<u8>),
    DecodeFault,
>
    decreases left,
{
    if left == 0 {
        Err(DecodeFault::BadVarint)
    } else if bytes.len() == 0 {
        Err(DecodeFault::UnexpectedEnd)
    } else if bytes[0] < 128 {
        if left == 1 && bytes[0] > top {
            Err(DecodeFault::BadVarint)
        } else {
            Ok((bytes[0] as nat, bytes.skip(1)))
        }
    } else {
        match unvarint(bytes.skip(1), (left - 1) as nat, top) {
            Err(e) => Err(e),
            Ok((high, rest)) => Ok(((bytes[0] - 128) as nat + 128 * high, rest)),
        }
    }
}

/// A length prefix takes as many bytes as a machine word of seven-bit groups.
pub open spec fn read_len(bytes: Seq<u8>) -> Result<(nat, Seq<u8>), DecodeFault> {
    if usize::BITS == 64 {
        unvarint(bytes, 10, 1)
    } else {
        unvarint(bytes, 5, 15)
    }
}

/// A string: the number of its bytes, then the bytes.
pub open spec fn text_bytes(s: Seq<char>) -> Seq<u8> {
    varint(encode_utf8(s).len()) + encode_utf8(s)
}

/// Reads back a string.
pub open spec fn read_text(bytes: Seq<u8>) -> Result<(Seq<char>, Seq<u8>), DecodeFault> {
    match read_len(bytes) {
        Err(e) => Err(e),
        Ok((n, rest)) => if n > rest.len() {
            Err(DecodeFault::UnexpectedEnd)
        } else if !valid_utf8(rest.take(n as int)) {
            Err(DecodeFault::BadUtf8)
        } else {
            Ok((decode_utf8(rest.take(n as int)), rest.skip(n as int)))
        },
    }
}

/// Reads back a flag.
pub open spec fn read_flag(bytes: Seq<u8>) -> Result<(bool, Seq<u8>), DecodeFault> {
    if bytes.len() == 0 {
        Err(DecodeFault::UnexpectedEnd)
    } else if bytes[0] > 1 {
        Err(DecodeFault::BadBool)
    } else {
        Ok((bytes[0] == 1, bytes.skip(1)))
    }
}

/// `postcard::to_allocvec` on a `u32`: it grows its buffer as needed, so it
/// always succeeds, and it writes the number in seven-bit groups.
#[verifier::external_body]
fn postcard_put_u32(v: u32) -> (r: Result<Vec<u8>, postcard::Error>)
    ensures
        r is Ok,
        r->Ok_0@ == varint(v as nat),
{
    postcard::to_allocvec(&v)
}

/// `postcard::to_allocvec` on a `u64`, as on a `u32`. A list length is
/// written the same way.
#[verifier::external_body]
fn postcard_put_u64(v: u64) -> (r: Result<Vec<u8>, postcard::Error>)
    ensures
        r is Ok,
        r->Ok_0@ == varint(v as nat),
{
    postcard::to_allocvec(&v)
}

/// `postcard::to_allocvec` on a `bool`: one byte, 1 for true. An option is
/// flagged the same way.
#[verifier::external_body]
fn postcard_put_bool(v: bool) -> (r: Result<Vec<u8>, postcard::Error>)
    ensures
        r is Ok,
        r->Ok_0@ == seq![if v { 1u8 } else { 0u8 }],
{
    postcard::to_allocvec(&v)
}

/// `postcard::to_allocvec` on a `str`: the length in bytes, then the bytes.
#[verifier::external_body]
fn postcard_put_str(v: &str) -> (r: Result<Vec<u8>, postcard::Error>)
    ensures
        r is Ok,
        r->Ok_0@ == text_bytes(v@),
{
    postcard::to_allocvec(v)
}

/// `postcard::take_from_bytes` for a `u32`: at most five groups, the fifth at
/// most 15; the unread bytes come back. It refuses bytes that end too early
/// and a number that is too long, and nothing else.
#[verifier::external_body]
fn postcard_take_u32(bytes: &[u8]) -> (r: Result<(u32, &[u8]), DecodeFault>)
    ensures
        match r {
            Ok((v, rest)) => unvarint(bytes@, 5, 15) == Ok::<_, DecodeFault>((v as nat, rest@)),
            Err(e) => (unvarint(bytes@, 5, 15) matches Err(fault) && fault == e),
        },
{
    match postcard::take_from_bytes(bytes) {
        Ok(read) => Ok(read),
        Err(postcard::Error::DeserializeUnexpectedEnd) => Err(DecodeFault::UnexpectedEnd),
        Err(postcard::Error::DeserializeBadVarint) => Err(DecodeFault::BadVarint),
        Err(_) => Err(DecodeFault::BadVariant),
    }
}

/// `postcard::take_from_bytes` for a `u64`: at most ten groups, the tenth at
/// most 1; the unread bytes come back. It refuses as it does for a `u32`.
#[verifier::external_body]
fn postcard_take_u64(bytes: &[u8]) -> (r: Result<(u64, &[u8]), DecodeFault>)
    ensures
        match r {
            Ok((v, rest)) => unvarint(bytes@, 10, 1) == Ok::<_, DecodeFault>((v as nat, rest@)),
            Err(e) => (unvarint(bytes@, 10, 1) matches Err(fault) && fault == e),
        },
{
    match postcard::take_from_bytes(bytes) {
        Ok(read) => Ok(read),
        Err(postcard::Error::DeserializeUnexpectedEnd) => Err(DecodeFault::UnexpectedEnd),
        Err(postcard::Error::DeserializeBadVarint) => Err(DecodeFault::BadVarint),
        Err(_) => Err(DecodeFault::BadVariant),
    }
}

/// `postcard::take_from_bytes` for a `bool`: one byte that is 0 or 1; the
/// unread bytes come back. It refuses the end of the bytes and any other byte.
#[verifier::external_body]
fn postcard_take_bool(bytes: &[u8]) -> (r: Result<(bool, &[u8]), DecodeFault>)
    ensures
        match r {
            Ok((v, rest)) => read_flag(bytes@) == Ok::<_, DecodeFault>((v, rest@)),
            Err(e) => (read_flag(bytes@) matches Err(fault) && fault == e),
        },
{
    match postcard::take_from_bytes(bytes) {
        Ok(read) => Ok(read),
        Err(postcard::Error::DeserializeUnexpectedEnd) => Err(DecodeFault::UnexpectedEnd),
        Err(postcard::Error::DeserializeBadBool) => Err(DecodeFault::BadBool),
        Err(_) => Err(DecodeFault::BadVariant),
    }
}

/// `postcard::take_from_bytes` for a `String`: a length, then as many bytes,
/// which must be UTF-8; the unread bytes come back. It refuses a length that is
/// too long, bytes that end too early, and text that is not UTF-8.
#[verifier::external_body]
fn postcard_take_string(bytes: &[u8]) -> (r: Result<(String, &[u8]), DecodeFault>)
    ensures
        match r {
            Ok((v, rest)) => read_text(bytes@) == Ok::<_, DecodeFault>((v@, rest@)),
            Err(e) => (read_text(bytes@) matches Err(fault) && fault == e),
        },
{
    match postcard::take_from_bytes(bytes) {
        Ok(read) => Ok(read),
        Err(postcard::Error::DeserializeUnexpectedEnd) => Err(DecodeFault::UnexpectedEnd),
        Err(postcard::Error::DeserializeBadVarint) => Err(DecodeFault::BadVarint),
        Err(postcard::Error::DeserializeBadUtf8) => Err(DecodeFault::BadUtf8),
        Err(_) => Err(DecodeFault::BadVariant),
    }
}

// ---------------------------------------------------------------------------
// Reading back what was written
// ---------------------------------------------------------------------------

/// How many numbers fit into `left` groups whose last holds at most `top`.
spec fn capacity(left: nat, top: nat) -> nat
    decreases left,
{
    if left == 0 {
        0
    } else if left == 1 {
        top + 1
    } else {
        128 * capacity((left - 1) as nat, top)
    }
}

proof fn lemma_varint(n: nat, left: nat, top: nat, rest: Seq<u8>)
    requires
        n < capacity(left, top),
        top < 128,
    ensures
        unvarint(varint(n) + rest, left, top) == Ok::<_, DecodeFault>((n, rest)),
        varint(n).len() > 0,
        varint(n).len() <= left,
    decreases left,
{
    let bytes = varint(n) + rest;
    if n < 128 {
        assert(bytes.skip(1) =~= rest);
        assert(bytes[0] == n);
    } else {
        let high = n / 128;
        assert(left > 1);
        assert(high < capacity((left - 1) as nat, top));
        lemma_varint(high, (left - 1) as nat, top, rest);
        assert(bytes[0] == n % 128 + 128);
        assert(bytes.skip(1) =~= varint(high) + rest);
    }
}

proof fn lemma_capacity()
    ensures
        capacity(5, 15) == 0x1_0000_0000,
        capacity(10, 1) == 0x1_0000_0000_0000_0000,
{
    reveal_with_fuel(capacity, 11);
}

/// A number below 2^35 takes at most five bytes.
pub proof fn lemma_short_varint(n: nat)
    requires
        n < 0x8_0000_0000,
    ensures
        varint(n).len() <= 5,
{
    reveal_with_fuel(capacity, 6);
    lemma_varint(n, 5, 127, Seq::empty());
}

/// A `u32` is read back whatever follows it.
pub proof fn lemma_u32(v: u32, rest: Seq<u8>)
    ensures
        u32::read(u32::bytes(v) + rest) == Ok::<_, DecodeFault>((v, rest)),
{
    lemma_capacity();
    lemma_varint(v as nat, 5, 15, rest);
}

/// What is written of a small string is read back.
proof fn lemma_text(s: Seq<char>, rest: Seq<u8>)
    requires
        encode_utf8(s).len() < 0x1_0000_0000,
    ensures
        read_text(text_bytes(s) + rest) == Ok::<_, DecodeFault>((s, rest)),
        text_bytes(s).len() > 0,
{
    let n = encode_utf8(s).len();
    let tail = encode_utf8(s) + rest;
    lemma_capacity();
    lemma_varint(n, 10, 1, tail);
    lemma_varint(n, 5, 15, tail);
    assert(text_bytes(s) + rest =~= varint(n) + tail);
    assert(tail.take(n as int) =~= encode_utf8(s));
    assert(tail.skip(n as int) =~= rest);
    encode_utf8_valid_utf8(s);
    encode_utf8_decode_utf8(s);
}

// ---------------------------------------------------------------------------
// Values on the wire
// ---------------------------------------------------------------------------

/// A value with a wire form.
pub trait Wire: Sized {
    /// What the value says.
    type Seen;

    spec fn seen(&self) -> Self::Seen;

    /// The bytes of a value.
    spec fn bytes(v: Self::Seen) -> Seq<u8>;

    /// The value that `b` starts with, and what follows it.
    spec fn read(b: Seq<u8>) -> Result<(Self::Seen, Seq<u8>), DecodeFault>;

    /// Appends the bytes of the value.
    fn put(&self, out: &mut Vec<u8>)
        ensures
            final(out)@ == old(out)@ + Self::bytes(self.seen()),
    ;

    /// Takes a value off the front.
    fn take(b: &[u8]) -> (r: Result<(Self, &[u8]), DecodeFault>)
        ensures
            match r {
                Err(e) => Self::read(b@) == Err::<(Self::Seen, Seq<u8>), DecodeFault>(e),
                Ok((v, rest)) => Self::read(b@) == Ok::<_, DecodeFault>((v.seen(), rest@)),
            },
    ;

    /// What was written is read back, and nothing else is consumed.
    proof fn round_trip(v: Self::Seen, rest: Seq<u8>)
        requires
            Self::bytes(v).len() < 0x1_0000_0000,
        ensures
            Self::read(Self::bytes(v) + rest) == Ok::<_, DecodeFault>((v, rest)),
            Self::bytes(v).len() > 0,
    ;

    /// No value is written as nothing.
    proof fn never_empty(v: Self::Seen)
        ensures
            Self::bytes(v).len() > 0,
    ;
}

/// Appends all of `more`.
fn extend(out: &mut Vec<u8>, more: Result<Vec<u8>, postcard::Error>)
    requires
        more is Ok,
    ensures
        final(out)@ == old(out)@ + more->Ok_0@,
{
    match more {
        Ok(mut b) => {
            out.append(&mut b);
        },
        Err(_) => {},
    }
}

proof fn lemma_varint_nonempty(n: nat)
    ensures
        varint(n).len() > 0,
{
}

impl Wire for u32 {
    type Seen = u32;

    open spec fn seen(&self) -> u32 {
        *self
    }

    open spec fn bytes(v: u32) -> Seq<u8> {
        varint(v as nat)
    }

    open spec fn read(b: Seq<u8>) -> Result<(u32, Seq<u8>), DecodeFault> {
        match unvarint(b, 5, 15) {
            Err(e) => Err(e),
            Ok((n, rest)) => Ok((n as u32, rest)),
        }
    }

    fn put(&self, out: &mut Vec<u8>) {
        extend(out, postcard_put_u32(*self));
    }

    fn take(b: &[u8]) -> (r: Result<(u32, &[u8]), DecodeFault>) {
        postcard_take_u32(b)
    }

    proof fn round_trip(v: u32, rest: Seq<u8>) {
        lemma_u32(v, rest);
        lemma_varint_nonempty(v as nat);
    }

    proof fn never_empty(v: u32) {
        lemma_varint_nonempty(v as nat);
    }
}

impl Wire for u64 {
    type Seen = u64;

    open spec fn seen(&self) -> u64 {
        *self
    }

    open spec fn bytes(v: u64) -> Seq<u8> {
        varint(v as nat)
    }

    open spec fn read(b: Seq<u8>) -> Result<(u64, Seq<u8>), DecodeFault> {
        match unvarint(b, 10, 1) {
            Err(e) => Err(e),
            Ok((n, rest)) => Ok((n as u64, rest)),
        }
    }

    fn put(&self, out: &mut Vec<u8>) {
        extend(out, postcard_put_u64(*self));
    }

    fn take(b: &[u8]) -> (r: Result<(u64, &[u8]), DecodeFault>) {
        postcard_take_u64(b)
    }

    proof fn round_trip(v: u64, rest: Seq<u8>) {
        lemma_capacity();
        lemma_varint(v as nat, 10, 1, rest);
    }

    proof fn never_empty(v: u64) {
        lemma_varint_nonempty(v as nat);
    }
}

impl Wire for bool {
    type Seen = bool;

    open spec fn seen(&self) -> bool {
        *self
    }

    open spec fn bytes(v: bool) -> Seq<u8> {
        seq![if v { 1u8 } else { 0u8 }]
    }

    open spec fn read(b: Seq<u8>) -> Result<(bool, Seq<u8>), DecodeFault> {
        read_flag(b)
    }

    fn put(&self, out: &mut Vec<u8>) {
        extend(out, postcard_put_bool(*self));
    }

    fn take(b: &[u8]) -> (r: Result<(bool, &[u8]), DecodeFault>) {
        postcard_take_bool(b)
    }

    proof fn round_trip(v: bool, rest: Seq<u8>) {
        assert((Self::bytes(v) + rest).skip(1) =~= rest);
    }

    proof fn never_empty(v: bool) {
    }
}

impl Wire for String {
    type Seen = Seq<char>;

    open spec fn seen(&self) -> Seq<char> {
        self@
    }

    open spec fn bytes(v: Seq<char>) -> Seq<u8> {
        text_bytes(v)
    }

    open spec fn read(b: Seq<u8>) -> Result<(Seq<char>, Seq<u8>), DecodeFault> {
        read_text(b)
    }

    fn put(&self, out: &mut Vec<u8>) {
        extend(out, postcard_put_str(self.as_str()));
    }

    fn take(b: &[u8]) -> (r: Result<(String, &[u8]), DecodeFault>) {
        postcard_take_string(b)
    }

    proof fn round_trip(v: Seq<char>, rest: Seq<u8>) {
        lemma_text(v, rest);
    }

    proof fn never_empty(v: Seq<char>) {
        lemma_varint_nonempty(encode_utf8(v).len());
    }
}

/// What is wrong with an option whose flag has this fault.
pub open spec fn option_fault(e: DecodeFault) -> DecodeFault {
    match e {
        DecodeFault::BadBool => DecodeFault::BadOption,
        _ => e,
    }
}

/// The view of an optional value.
pub open spec fn opt_seen<T: Wire>(v: Option<T>) -> Option<T::Seen> {
    match v {
        None => None,
        Some(x) => Some(x.seen()),
    }
}

impl<T: Wire> Wire for Option<T> {
    type Seen = Option<T::Seen>;

    open spec fn seen(&self) -> Option<T::Seen> {
        opt_seen(*self)
    }

    open spec fn bytes(v: Option<T::Seen>) -> Seq<u8> {
        match v {
            None => bool::bytes(false),
            Some(x) => bool::bytes(true) + T::bytes(x),
        }
    }

    open spec fn read(b: Seq<u8>) -> Result<(Option<T::Seen>, Seq<u8>), DecodeFault> {
        match bool::read(b) {
            Err(e) => Err(option_fault(e)),
            Ok((flag, rest)) => if flag {
                match T::read(rest) {
                    Err(e) => Err(e),
                    Ok((x, rest)) => Ok((Some(x), rest)),
                }
            } else {
                Ok((None, rest))
            },
        }
    }

    fn put(&self, out: &mut Vec<u8>) {
        let ghost before = out@;
        match self {
            None => {
                false.put(out);
            },
            Some(x) => {
                true.put(out);
                x.put(out);
                assert(out@ =~= before + (bool::bytes(true) + T::bytes(x.seen())));
            },
        }
    }

    fn take(b: &[u8]) -> (r: Result<(Option<T>, &[u8]), DecodeFault>) {
        match bool::take(b) {
            Err(e) => match e {
                DecodeFault::BadBool => Err(DecodeFault::BadOption),
                _ => Err(e),
            },
            Ok((flag, rest)) => {
                if flag {
                    match T::take(rest) {
                        Err(e) => Err(e),
                        Ok((x, rest)) => Ok((Some(x), rest)),
                    }
                } else {
                    Ok((None, rest))
                }
            },
        }
    }

    proof fn round_trip(v: Option<T::Seen>, rest: Seq<u8>) {
        match v {
            None => {
                bool::round_trip(false, rest);
            },
            Some(x) => {
                bool::round_trip(true, T::bytes(x) + rest);
                T::round_trip(x, rest);
                assert(Self::bytes(v) + rest =~= bool::bytes(true) + (T::bytes(x) + rest));
            },
        }
    }

    proof fn never_empty(v: Option<T::Seen>) {
    }
}

/// The views of a list.
pub open spec fn all_seen<T: Wire>(list: Seq<T>) -> Seq<T::Seen> {
    list.map_values(|x: T| x.seen())
}

/// The bytes of the items of a list, one after the other.
pub open spec fn items_bytes<T: Wire>(items: Seq<T::Seen>) -> Seq<u8>
    decreases items.len(),
{
    if items.len() == 0 {
        Seq::empty()
    } else {
        items_bytes::<T>(items.drop_last()) + T::bytes(items.last())
    }
}

/// Reads back `n` items.
pub open spec fn read_items<T: Wire>(n: nat, b: Seq<u8>) -> Result<(Seq<T::Seen>, Seq<u8>), DecodeFault>
    decreases n,
{
    if n == 0 {
        Ok((Seq::empty(), b))
    } else {
        match T::read(b) {
            Err(e) => Err(e),
            Ok((x, rest)) => match read_items::<T>((n - 1) as nat, rest) {
                Err(e) => Err(e),
                Ok((xs, rest)) => Ok((seq![x] + xs, rest)),
            },
        }
    }
}

/// The items read so far, followed by those of `more`.
spec fn joined<S>(done: Seq<S>, more: Result<(Seq<S>, Seq<u8>), DecodeFault>) -> Result<
    (Seq<S>, Seq<u8>),
    DecodeFault,
> {
    match more {
        Err(e) => Err(e),
        Ok((xs, rest)) => Ok((done + xs, rest)),
    }
}

proof fn lemma_items_front<T: Wire>(items: Seq<T::Seen>)
    requires
        items.len() > 0,
    ensures
        items_bytes::<T>(items) == T::bytes(items[0]) + items_bytes::<T>(items.drop_first()),
    decreases items.len(),
{
    if items.len() == 1 {
        assert(items.drop_last() =~= Seq::empty());
        assert(items.drop_first() =~= Seq::empty());
        assert(items_bytes::<T>(items) =~= T::bytes(items[0]) + items_bytes::<T>(
            items.drop_first(),
        ));
    } else {
        let init = items.drop_last();
        lemma_items_front::<T>(init);
        let tail = items.drop_first();
        assert(tail.drop_last() =~= init.drop_first());
        assert(tail.last() == items.last());
        assert(items_bytes::<T>(items) =~= T::bytes(items[0]) + items_bytes::<T>(tail));
    }
}

proof fn lemma_items_round_trip<T: Wire>(items: Seq<T::Seen>, rest: Seq<u8>)
    requires
        items_bytes::<T>(items).len() < 0x1_0000_0000,
    ensures
        read_items::<T>(items.len(), items_bytes::<T>(items) + rest) == Ok::<_, DecodeFault>((items, rest)),
        items.len() <= items_bytes::<T>(items).len(),
    decreases items.len(),
{
    if items.len() == 0 {
        assert(items_bytes::<T>(items) + rest =~= rest);
        assert(items =~= Seq::<T::Seen>::empty());
    } else {
        let tail = items.drop_first();
        lemma_items_front::<T>(items);
        T::never_empty(items[0]);
        lemma_items_round_trip::<T>(tail, rest);
        T::round_trip(items[0], items_bytes::<T>(tail) + rest);
        assert(items_bytes::<T>(items) + rest =~= T::bytes(items[0]) + (items_bytes::<T>(tail)
            + rest));
        assert(seq![items[0]] + tail =~= items);
    }
}

/// Takes a length prefix.
fn take_len(b: &[u8]) -> (r: Result<(u64, &[u8]), DecodeFault>)
    ensures
        match r {
            Ok((n, rest)) => read_len(b@) == Ok::<_, DecodeFault>((n as nat, rest@)),
            Err(e) => (read_len(b@) matches Err(fault) && fault == e),
        },
{
    if usize::BITS == 64 {
        postcard_take_u64(b)
    } else {
        match postcard_take_u32(b) {
            Ok((n, rest)) => Ok((n as u64, rest)),
            Err(e) => Err(e),
        }
    }
}

impl<T: Wire> Wire for Vec<T> {
    type Seen = Seq<T::Seen>;

    open spec fn seen(&self) -> Seq<T::Seen> {
        all_seen(self@)
    }

    open spec fn bytes(v: Seq<T::Seen>) -> Seq<u8> {
        varint(v.len()) + items_bytes::<T>(v)
    }

    open spec fn read(b: Seq<u8>) -> Result<(Seq<T::Seen>, Seq<u8>), DecodeFault> {
        match read_len(b) {
            Err(e) => Err(e),
            Ok((n, rest)) => read_items::<T>(n, rest),
        }
    }

    fn put(&self, out: &mut Vec<u8>) {
        let ghost before = out@;
        let n: usize = self.len();
        (n as u64).put(out);
        let mut i: usize = 0;
        assert(all_seen(self@).take(0) =~= Seq::empty());
        assert(out@ =~= before + varint(n as nat) + items_bytes::<T>(all_seen(self@).take(0)));
        while i < n
            invariant
                i <= n,
                n == self@.len(),
                out@ == before + varint(n as nat) + items_bytes::<T>(
                    all_seen(self@).take(i as int),
                ),
            decreases n - i,
        {
            let ghost seen = all_seen(self@);
            self[i].put(out);
            proof {
                assert(seen.take(i + 1).drop_last() =~= seen.take(i as int));
                assert(seen.take(i + 1).last() == self@[i as int].seen());
                assert(out@ =~= before + varint(n as nat) + items_bytes::<T>(seen.take(i + 1)));
            }
            i += 1;
        }
        assert(all_seen(self@).take(n as int) =~= all_seen(self@));
        assert(out@ =~= before + (varint(n as nat) + items_bytes::<T>(all_seen(self@))));
    }

    fn take(b: &[u8]) -> (r: Result<(Vec<T>, &[u8]), DecodeFault>) {
        match take_len(b) {
            Err(e) => Err(e),
            Ok((n, start)) => {
                let mut items: Vec<T> = Vec::new();
                let mut rest: &[u8] = start;
                let mut i: u64 = 0;
                proof {
                    let whole = read_items::<T>(n as nat, start@);
                    assert(all_seen(items@) =~= Seq::empty());
                    if whole is Ok {
                        assert(Seq::<T::Seen>::empty() + (whole->Ok_0).0 =~= (whole->Ok_0).0);
                    }
                    assert(whole == joined(all_seen(items@), whole));
                }
                while i < n
                    invariant
                        i <= n,
                        read_len(b@) == Ok::<_, DecodeFault>((n as nat, start@)),
                        read_items::<T>(n as nat, start@) == joined(
                            all_seen(items@),
                            read_items::<T>((n - i) as nat, rest@),
                        ),
                    decreases n - i,
                {
                    let ghost before = all_seen(items@);
                    match T::take(rest) {
                        Err(e) => {
                            return Err(e);
                        },
                        Ok((item, after)) => {
                            items.push(item);
                            proof {
                                let more = read_items::<T>((n - i - 1) as nat, after@);
                                assert(all_seen(items@) =~= before.push(item.seen()));
                                if more is Ok {
                                    assert(before + (seq![item.seen()] + (more->Ok_0).0)
                                        =~= all_seen(items@) + (more->Ok_0).0);
                                }
                            }
                            rest = after;
                        },
                    }
                    i += 1;
                }
                assert(all_seen(items@) + Seq::<T::Seen>::empty() =~= all_seen(items@));
                Ok((items, rest))
            },
        }
    }

    proof fn round_trip(v: Seq<T::Seen>, rest: Seq<u8>) {
        let tail = items_bytes::<T>(v) + rest;
        lemma_items_round_trip::<T>(v, rest);
        lemma_capacity();
        lemma_varint(v.len(), 10, 1, tail);
        lemma_varint(v.len(), 5, 15, tail);
        assert(Self::bytes(v) + rest =~= varint(v.len()) + tail);
    }

    proof fn never_empty(v: Seq<T::Seen>) {
        lemma_varint_nonempty(v.len());
    }
}

impl<A: Wire, B: Wire> Wire for (A, B) {
    type Seen = (A::Seen, B::Seen);

    open spec fn seen(&self) -> (A::Seen, B::Seen) {
        (self.0.seen(), self.1.seen())
    }

    open spec fn bytes(v: (A::Seen, B::Seen)) -> Seq<u8> {
        A::bytes(v.0) + B::bytes(v.1)
    }

    open spec fn read(b: Seq<u8>) -> Result<((A::Seen, B::Seen), Seq<u8>), DecodeFault> {
        match A::read(b) {
            Err(e) => Err(e),
            Ok((x, rest)) => match B::read(rest) {
                Err(e) => Err(e),
                Ok((y, rest)) => Ok(((x, y), rest)),
            },
        }
    }

    fn put(&self, out: &mut Vec<u8>) {
        let ghost before = out@;
        self.0.put(out);
        self.1.put(out);
        assert(out@ =~= before + (A::bytes(self.0.seen()) + B::bytes(self.1.seen())));
    }

    fn take(b: &[u8]) -> (r: Result<((A, B), &[u8]), DecodeFault>) {
        match A::take(b) {
            Err(e) => Err(e),
            Ok((x, rest)) => match B::take(rest) {
                Err(e) => Err(e),
                Ok((y, rest)) => Ok(((x, y), rest)),
            },
        }
    }

    proof fn round_trip(v: (A::Seen, B::Seen), rest: Seq<u8>) {
        A::round_trip(v.0, B::bytes(v.1) + rest);
        B::round_trip(v.1, rest);
        assert(Self::bytes(v) + rest =~= A::bytes(v.0) + (B::bytes(v.1) + rest));
    }

    proof fn never_empty(v: (A::Seen, B::Seen)) {
        A::never_empty(v.0);
    }
}

// ---------------------------------------------------------------------------
// Structs
// ---------------------------------------------------------------------------

impl Wire for RouteHop {
    type Seen = crate::proto::HopAddrView;

    open spec fn seen(&self) -> crate::proto::HopAddrView {
        self@
    }

    open spec fn bytes(v: crate::proto::HopAddrView) -> Seq<u8> {
        <(String, String)>::bytes((v.node_id, v.addr))
    }

    open spec fn read(b: Seq<u8>) -> Result<(crate::proto::HopAddrView, Seq<u8>), DecodeFault> {
        match <(String, String)>::read(b) {
            Err(e) => Err(e),
            Ok(((node_id, addr), rest)) => Ok(
                (crate::proto::HopAddrView { node_id, addr }, rest),
            ),
        }
    }

    fn put(&self, out: &mut Vec<u8>) {
        let ghost before = out@;
        self.node_id.put(out);
        self.addr.put(out);
        assert(out@ =~= before + Self::bytes(self@));
    }

    fn take(b: &[u8]) -> (r: Result<(RouteHop, &[u8]), DecodeFault>) {
        match <(String, String)>::take(b) {
            Err(e) => Err(e),
            Ok(((node_id, addr), rest)) => Ok((RouteHop { node_id, addr }, rest)),
        }
    }

    proof fn round_trip(v: crate::proto::HopAddrView, rest: Seq<u8>) {
        <(String, String)>::round_trip((v.node_id, v.addr), rest);
    }

    proof fn never_empty(v: crate::proto::HopAddrView) {
        <(String, String)>::never_empty((v.node_id, v.addr));
    }
}

impl Wire for ListenAddr {
    type Seen = crate::proto::ListenAddrView;

    open spec fn seen(&self) -> crate::proto::ListenAddrView {
        self@
    }

    open spec fn bytes(v: crate::proto::ListenAddrView) -> Seq<u8> {
        <(String, String)>::bytes((v.addr, v.role))
    }

    open spec fn read(b: Seq<u8>) -> Result<(crate::proto::ListenAddrView, Seq<u8>), DecodeFault> {
        match <(String, String)>::read(b) {
            Err(e) => Err(e),
            Ok(((addr, role), rest)) => Ok(
                (crate::proto::ListenAddrView { addr, role }, rest),
            ),
        }
    }

    fn put(&self, out: &mut Vec<u8>) {
        let ghost before = out@;
        self.addr.put(out);
        self.role.put(out);
        assert(out@ =~= before + Self::bytes(self@));
    }

    fn take(b: &[u8]) -> (r: Result<(ListenAddr, &[u8]), DecodeFault>) {
        match <(String, String)>::take(b) {
            Err(e) => Err(e),
            Ok(((addr, role), rest)) => Ok((ListenAddr { addr, role }, rest)),
        }
    }

    proof fn round_trip(v: crate::proto::ListenAddrView, rest: Seq<u8>) {
        <(String, String)>::round_trip((v.addr, v.role), rest);
    }

    proof fn never_empty(v: crate::proto::ListenAddrView) {
        <(String, String)>::never_empty((v.addr, v.role));
    }
}

impl Wire for NodeInfo {
    type Seen = crate::proto::NodeInfoView;

    open spec fn seen(&self) -> crate::proto::NodeInfoView {
        self@
    }

    open spec fn bytes(v: crate::proto::NodeInfoView) -> Seq<u8> {
        <(String, (Vec<ListenAddr>, Vec<String>))>::bytes((v.node_id, (v.listen_addrs, v.roles)))
    }

    open spec fn read(b: Seq<u8>) -> Result<(crate::proto::NodeInfoView, Seq<u8>), DecodeFault> {
        match <(String, (Vec<ListenAddr>, Vec<String>))>::read(b) {
            Err(e) => Err(e),
            Ok(((node_id, (listen_addrs, roles)), rest)) => Ok(
                (crate::proto::NodeInfoView { node_id, listen_addrs, roles }, rest),
            ),
        }
    }

    fn put(&self, out: &mut Vec<u8>) {
        let ghost before = out@;
        self.node_id.put(out);
        self.listen_addrs.put(out);
        self.roles.put(out);
        proof {
            lemma_listeners_seen(self.listen_addrs@);
            lemma_texts_seen(self.roles@);
            assert(out@ =~= before + Self::bytes(self@));
        }
    }

    fn take(b: &[u8]) -> (r: Result<(NodeInfo, &[u8]), DecodeFault>) {
        match <(String, (Vec<ListenAddr>, Vec<String>))>::take(b) {
            Err(e) => Err(e),
            Ok(((node_id, (listen_addrs, roles)), rest)) => {
                proof {
                    lemma_listeners_seen(listen_addrs@);
                    lemma_texts_seen(roles@);
                }
                Ok((NodeInfo { node_id, listen_addrs, roles }, rest))
            },
        }
    }

    proof fn round_trip(v: crate::proto::NodeInfoView, rest: Seq<u8>) {
        <(String, (Vec<ListenAddr>, Vec<String>))>::round_trip(
            (v.node_id, (v.listen_addrs, v.roles)),
            rest,
        );
    }

    proof fn never_empty(v: crate::proto::NodeInfoView) {
        String::never_empty(v.node_id);
    }
}

proof fn lemma_texts_seen(list: Seq<String>)
    ensures
        all_seen(list) == crate::proto::texts(list),
{
    assert(all_seen(list) =~= crate::proto::texts(list));
}

proof fn lemma_listeners_seen(list: Seq<ListenAddr>)
    ensures
        all_seen(list) == crate::proto::listen_views(list),
{
    assert(all_seen(list) =~= crate::proto::listen_views(list));
}

impl Wire for GraphReport {
    type Seen = crate::proto::GraphReportView;

    open spec fn seen(&self) -> crate::proto::GraphReportView {
        self@
    }

    open spec fn bytes(v: crate::proto::GraphReportView) -> Seq<u8> {
        <(String, (String, (String, (bool, Option<u32>))))>::bytes(
            (v.from, (v.target, (v.protocol, (v.reachable, v.rtt_ms)))),
        )
    }

    open spec fn read(b: Seq<u8>) -> Result<(crate::proto::GraphReportView, Seq<u8>), DecodeFault> {
        match <(String, (String, (String, (bool, Option<u32>))))>::read(b) {
            Err(e) => Err(e),
            Ok(((from, (target, (protocol, (reachable, rtt_ms)))), rest)) => Ok(
                (
                    crate::proto::GraphReportView { from, target, protocol, reachable, rtt_ms },
                    rest,
                ),
            ),
        }
    }

    fn put(&self, out: &mut Vec<u8>) {
        let ghost before = out@;
        self.from.put(out);
        self.target.put(out);
        self.protocol.put(out);
        self.reachable.put(out);
        self.rtt_ms.put(out);
        assert(opt_seen(self.rtt_ms) == self.rtt_ms);
        assert(out@ =~= before + Self::bytes(self@));
    }

    fn take(b: &[u8]) -> (r: Result<(GraphReport, &[u8]), DecodeFault>) {
        match <(String, (String, (String, (bool, Option<u32>))))>::take(b) {
            Err(e) => Err(e),
            Ok(((from, (target, (protocol, (reachable, rtt_ms)))), rest)) => {
                assert(opt_seen(rtt_ms) == rtt_ms);
                Ok((GraphReport { from, target, protocol, reachable, rtt_ms }, rest))
            },
        }
    }

    proof fn round_trip(v: crate::proto::GraphReportView, rest: Seq<u8>) {
        <(String, (String, (String, (bool, Option<u32>))))>::round_trip(
            (v.from, (v.target, (v.protocol, (v.reachable, v.rtt_ms)))),
            rest,
        );
    }

    proof fn never_empty(v: crate::proto::GraphReportView) {
        String::never_empty(v.from);
    }
}

// ---------------------------------------------------------------------------
// Messages
// ---------------------------------------------------------------------------

/// The fields of a hello: node id, roles, listen addresses.
type HelloFields = (String, (Vec<String>, Vec<ListenAddr>));

/// The fields of a probe: from, to, time of sending.
type ProbeFields = (String, (String, u64));

/// The fields of a report: from, target, protocol, reachable, round trip,
/// observed address.
type ReportFields = (String, (String, (String, (bool, (Option<u32>, Option<String>)))));

/// Appends the fields of a hello.
fn put_hello(
    node_id: &String,
    roles: &Vec<String>,
    listen_addrs: &Vec<ListenAddr>,
    out: &mut Vec<u8>,
)
    ensures
        final(out)@ == old(out)@ + HelloFields::bytes(
            (
                node_id@,
                (crate::proto::texts(roles@), crate::proto::listen_views(listen_addrs@)),
            ),
        ),
{
    let ghost before = out@;
    node_id.put(out);
    roles.put(out);
    listen_addrs.put(out);
    proof {
        lemma_texts_seen(roles@);
        lemma_listeners_seen(listen_addrs@);
    }
    assert(out@ =~= before + HelloFields::bytes(
        (node_id@, (crate::proto::texts(roles@), crate::proto::listen_views(listen_addrs@))),
    ));
}

/// Appends the fields of a probe.
fn put_probe(from: &String, to: &String, sent_at_unix_ms: u64, out: &mut Vec<u8>)
    ensures
        final(out)@ == old(out)@ + ProbeFields::bytes((from@, (to@, sent_at_unix_ms))),
{
    let ghost before = out@;
    from.put(out);
    to.put(out);
    sent_at_unix_ms.put(out);
    assert(out@ =~= before + ProbeFields::bytes((from@, (to@, sent_at_unix_ms))));
}

/// Appends the fields of a report.
fn put_report(
    from: &String,
    target: &String,
    protocol: &String,
    reachable: bool,
    rtt_ms: &Option<u32>,
    observed_addr: &Option<String>,
    out: &mut Vec<u8>,
)
    ensures
        final(out)@ == old(out)@ + ReportFields::bytes(
            (
                from@,
                (
                    target@,
                    (
                        protocol@,
                        (reachable, (*rtt_ms, crate::proto::opt_text(*observed_addr))),
                    ),
                ),
            ),
        ),
{
    let ghost before = out@;
    let ghost f = (
        from@,
        (
            target@,
            (protocol@, (reachable, (*rtt_ms, crate::proto::opt_text(*observed_addr)))),
        ),
    );
    from.put(out);
    target.put(out);
    protocol.put(out);
    reachable.put(out);
    rtt_ms.put(out);
    observed_addr.put(out);
    assert(opt_seen(*rtt_ms) == *rtt_ms);
    assert(opt_seen(*observed_addr) == crate::proto::opt_text(*observed_addr));
    assert(out@ =~= before + ReportFields::bytes(f));
}

/// `wrap` applied to what was read.
pub open spec fn then_wrap<A, B>(
    read: Result<(A, Seq<u8>), DecodeFault>,
    wrap: spec_fn(A) -> B,
) -> Result<(B, Seq<u8>), DecodeFault> {
    match read {
        Err(e) => Err(e),
        Ok((a, rest)) => Ok((wrap(a), rest)),
    }
}

/// The number of a relayed variant on the wire.
pub open spec fn relayed_tag(v: crate::proto::RelayedView) -> u32 {
    match v {
        crate::proto::RelayedView::NodeHello { .. } => 0,
        crate::proto::RelayedView::ReachabilityProbe { .. } => 1,
        crate::proto::RelayedView::ReachabilityReport { .. } => 2,
    }
}

/// The bytes of the fields of a relayed message.
pub open spec fn relayed_body_bytes(v: crate::proto::RelayedView) -> Seq<u8> {
    match v {
        crate::proto::RelayedView::NodeHello { node_id, roles, listen_addrs } =>
            HelloFields::bytes((node_id, (roles, listen_addrs))),
        crate::proto::RelayedView::ReachabilityProbe { from, to, sent_at_unix_ms } =>
            ProbeFields::bytes((from, (to, sent_at_unix_ms))),
        crate::proto::RelayedView::ReachabilityReport {
            from,
            target,
            protocol,
            reachable,
            rtt_ms,
            observed_addr,
        } => ReportFields::bytes(
            (from, (target, (protocol, (reachable, (rtt_ms, observed_addr))))),
        ),
    }
}

/// Reads back the fields of the relayed variant with this number.
pub open spec fn read_relayed_body(tag: u32, b: Seq<u8>) -> Result<
    (crate::proto::RelayedView, Seq<u8>),
    DecodeFault,
> {
    if tag == 0 {
        then_wrap(
            HelloFields::read(b),
            |f: (Seq<char>, (Seq<Seq<char>>, Seq<crate::proto::ListenAddrView>))|
                crate::proto::RelayedView::NodeHello {
                    node_id: f.0,
                    roles: (f.1).0,
                    listen_addrs: (f.1).1,
                },
        )
    } else if tag == 1 {
        then_wrap(
            ProbeFields::read(b),
            |f: (Seq<char>, (Seq<char>, u64))|
                crate::proto::RelayedView::ReachabilityProbe {
                    from: f.0,
                    to: (f.1).0,
                    sent_at_unix_ms: (f.1).1,
                },
        )
    } else if tag == 2 {
        then_wrap(
            ReportFields::read(b),
            |
                f: (
                    Seq<char>,
                    (Seq<char>, (Seq<char>, (bool, (Option<u32>, Option<Seq<char>>)))),
                ),
            |
                crate::proto::RelayedView::ReachabilityReport {
                    from: f.0,
                    target: (f.1).0,
                    protocol: ((f.1).1).0,
                    reachable: (((f.1).1).1).0,
                    rtt_ms: ((((f.1).1).1).1).0,
                    observed_addr: ((((f.1).1).1).1).1,
                },
        )
    } else {
        Err(DecodeFault::BadVariant)
    }
}

proof fn lemma_relayed_round_trip(v: crate::proto::RelayedView, rest: Seq<u8>)
    requires
        relayed_body_bytes(v).len() < 0x1_0000_0000,
    ensures
        read_relayed_body(relayed_tag(v), relayed_body_bytes(v) + rest) == Ok::<_, DecodeFault>((v, rest)),
{
    match v {
        crate::proto::RelayedView::NodeHello { node_id, roles, listen_addrs } => {
            HelloFields::round_trip((node_id, (roles, listen_addrs)), rest);
        },
        crate::proto::RelayedView::ReachabilityProbe { from, to, sent_at_unix_ms } => {
            ProbeFields::round_trip((from, (to, sent_at_unix_ms)), rest);
        },
        crate::proto::RelayedView::ReachabilityReport {
            from,
            target,
            protocol,
            reachable,
            rtt_ms,
            observed_addr,
        } => {
            ReportFields::round_trip(
                (from, (target, (protocol, (reachable, (rtt_ms, observed_addr))))),
                rest,
            );
        },
    }
}

/// Takes the fields of the relayed variant with this number.
fn take_relayed_body(tag: u32, b: &[u8]) -> (r: Result<(RelayedMessage, &[u8]), DecodeFault>)
    ensures
        match r {
            Err(e) => (read_relayed_body(tag, b@) matches Err(fault) && fault == e),
            Ok((v, rest)) => read_relayed_body(tag, b@) == Ok::<_, DecodeFault>((v@, rest@)),
        },
{
    match tag {
        0 => match HelloFields::take(b) {
            Err(e) => Err(e),
            Ok(((node_id, (roles, listen_addrs)), rest)) => {
                proof {
                    lemma_texts_seen(roles@);
                    lemma_listeners_seen(listen_addrs@);
                }
                Ok((RelayedMessage::NodeHello { node_id, roles, listen_addrs }, rest))
            },
        },
        1 => match ProbeFields::take(b) {
            Err(e) => Err(e),
            Ok(((from, (to, sent_at_unix_ms)), rest)) => Ok(
                (RelayedMessage::ReachabilityProbe { from, to, sent_at_unix_ms }, rest),
            ),
        },
        2 => match ReportFields::take(b) {
            Err(e) => Err(e),
            Ok(((from, (target, (protocol, (reachable, (rtt_ms, observed_addr))))), rest)) => {
                assert(opt_seen(rtt_ms) == rtt_ms);
                assert(opt_seen(observed_addr) == crate::proto::opt_text(observed_addr));
                Ok(
                    (
                        RelayedMessage::ReachabilityReport {
                            from,
                            target,
                            protocol,
                            reachable,
                            rtt_ms,
                            observed_addr,
                        },
                        rest,
                    ),
                )
            },
        },
        _ => Err(DecodeFault::BadVariant),
    }
}

impl Wire for RelayedMessage {
    type Seen = crate::proto::RelayedView;

    open spec fn seen(&self) -> crate::proto::RelayedView {
        self@
    }

    open spec fn bytes(v: crate::proto::RelayedView) -> Seq<u8> {
        u32::bytes(relayed_tag(v)) + relayed_body_bytes(v)
    }

    open spec fn read(b: Seq<u8>) -> Result<(crate::proto::RelayedView, Seq<u8>), DecodeFault> {
        match u32::read(b) {
            Err(e) => Err(e),
            Ok((tag, rest)) => read_relayed_body(tag, rest),
        }
    }

    fn put(&self, out: &mut Vec<u8>) {
        let ghost before = out@;
        match self {
            RelayedMessage::NodeHello { node_id, roles, listen_addrs } => {
                0u32.put(out);
                put_hello(node_id, roles, listen_addrs, out);
            },
            RelayedMessage::ReachabilityProbe { from, to, sent_at_unix_ms } => {
                1u32.put(out);
                put_probe(from, to, *sent_at_unix_ms, out);
            },
            RelayedMessage::ReachabilityReport {
                from,
                target,
                protocol,
                reachable,
                rtt_ms,
                observed_addr,
            } => {
                2u32.put(out);
                put_report(from, target, protocol, *reachable, rtt_ms, observed_addr, out);
            },
        }
        assert(out@ =~= before + (u32::bytes(relayed_tag(self@)) + relayed_body_bytes(self@)));
    }

    fn take(b: &[u8]) -> (r: Result<(RelayedMessage, &[u8]), DecodeFault>) {
        match u32::take(b) {
            Err(e) => Err(e),
            Ok((tag, rest)) => take_relayed_body(tag, rest),
        }
    }

    proof fn round_trip(v: crate::proto::RelayedView, rest: Seq<u8>) {
        Self::never_empty(v);
        u32::round_trip(relayed_tag(v), relayed_body_bytes(v) + rest);
        lemma_relayed_round_trip(v, rest);
        assert(Self::bytes(v) + rest =~= u32::bytes(relayed_tag(v)) + (relayed_body_bytes(v)
            + rest));
    }

    proof fn never_empty(v: crate::proto::RelayedView) {
        lemma_varint_nonempty(relayed_tag(v) as nat);
    }
}

/// The fields of an envelope: source, client identity, message.
type EnvelopeFields = (String, (Option<String>, RelayedMessage));

/// The fields of a snapshot: nodes, reports.
type SnapshotFields = (Vec<NodeInfo>, Vec<GraphReport>);

proof fn lemma_snapshot_seen(nodes: Seq<NodeInfo>, reports: Seq<GraphReport>)
    ensures
        all_seen(nodes) == nodes.map_values(|n: NodeInfo| n@),
        all_seen(reports) == reports.map_values(|r: GraphReport| r@),
{
    assert(all_seen(nodes) =~= nodes.map_values(|n: NodeInfo| n@));
    assert(all_seen(reports) =~= reports.map_values(|r: GraphReport| r@));
}

proof fn lemma_hops_seen(hops: Seq<RouteHop>)
    ensures
        all_seen(hops) == hops.map_values(|h: RouteHop| h@),
{
    assert(all_seen(hops) =~= hops.map_values(|h: RouteHop| h@));
}

/// The number of a variant on the wire.
pub open spec fn tag_of(v: crate::proto::MessageView) -> u32 {
    match v {
        crate::proto::MessageView::NodeHello { .. } => 0,
        crate::proto::MessageView::ReachabilityProbe { .. } => 1,
        crate::proto::MessageView::ReachabilityReport { .. } => 2,
        crate::proto::MessageView::FromHead { .. } => 3,
        crate::proto::MessageView::GraphQuery => 4,
        crate::proto::MessageView::GraphSnapshot { .. } => 5,
        crate::proto::MessageView::Ack { .. } => 6,
        crate::proto::MessageView::TunnelOpen { .. } => 7,
    }
}

/// The bytes of the fields of a message.
pub open spec fn body_bytes(v: crate::proto::MessageView) -> Seq<u8> {
    match v {
        crate::proto::MessageView::NodeHello { node_id, roles, listen_addrs } =>
            HelloFields::bytes((node_id, (roles, listen_addrs))),
        crate::proto::MessageView::ReachabilityProbe { from, to, sent_at_unix_ms } =>
            ProbeFields::bytes((from, (to, sent_at_unix_ms))),
        crate::proto::MessageView::ReachabilityReport {
            from,
            target,
            protocol,
            reachable,
            rtt_ms,
            observed_addr,
        } => ReportFields::bytes(
            (from, (target, (protocol, (reachable, (rtt_ms, observed_addr))))),
        ),
        crate::proto::MessageView::FromHead { source, client_identity, message } =>
            EnvelopeFields::bytes((source, (client_identity, message))),
        crate::proto::MessageView::GraphQuery => Seq::empty(),
        crate::proto::MessageView::GraphSnapshot { nodes, reports } => SnapshotFields::bytes(
            (nodes, reports),
        ),
        crate::proto::MessageView::Ack { status } => String::bytes(status),
        crate::proto::MessageView::TunnelOpen { hops } => Vec::<RouteHop>::bytes(hops),
    }
}

/// Reads back the fields of the variant with this number.
pub open spec fn read_body(tag: u32, b: Seq<u8>) -> Result<(crate::proto::MessageView, Seq<u8>), DecodeFault> {
    if tag == 0 {
        then_wrap(
            HelloFields::read(b),
            |f: (Seq<char>, (Seq<Seq<char>>, Seq<crate::proto::ListenAddrView>))|
                crate::proto::MessageView::NodeHello {
                    node_id: f.0,
                    roles: (f.1).0,
                    listen_addrs: (f.1).1,
                },
        )
    } else if tag == 1 {
        then_wrap(
            ProbeFields::read(b),
            |f: (Seq<char>, (Seq<char>, u64))|
                crate::proto::MessageView::ReachabilityProbe {
                    from: f.0,
                    to: (f.1).0,
                    sent_at_unix_ms: (f.1).1,
                },
        )
    } else if tag == 2 {
        then_wrap(
            ReportFields::read(b),
            |
                f: (
                    Seq<char>,
                    (Seq<char>, (Seq<char>, (bool, (Option<u32>, Option<Seq<char>>)))),
                ),
            |
                crate::proto::MessageView::ReachabilityReport {
                    from: f.0,
                    target: (f.1).0,
                    protocol: ((f.1).1).0,
                    reachable: (((f.1).1).1).0,
                    rtt_ms: ((((f.1).1).1).1).0,
                    observed_addr: ((((f.1).1).1).1).1,
                },
        )
    } else if tag == 3 {
        then_wrap(
            EnvelopeFields::read(b),
            |f: (Seq<char>, (Option<Seq<char>>, crate::proto::RelayedView))|
                crate::proto::MessageView::FromHead {
                    source: f.0,
                    client_identity: (f.1).0,
                    message: (f.1).1,
                },
        )
    } else if tag == 4 {
        Ok((crate::proto::MessageView::GraphQuery, b))
    } else if tag == 5 {
        then_wrap(
            SnapshotFields::read(b),
            |f: (Seq<crate::proto::NodeInfoView>, Seq<crate::proto::GraphReportView>)|
                crate::proto::MessageView::GraphSnapshot { nodes: f.0, reports: f.1 },
        )
    } else if tag == 6 {
        then_wrap(
            String::read(b),
            |f: Seq<char>| crate::proto::MessageView::Ack { status: f },
        )
    } else if tag == 7 {
        then_wrap(
            Vec::<RouteHop>::read(b),
            |f: Seq<crate::proto::HopAddrView>| crate::proto::MessageView::TunnelOpen { hops: f },
        )
    } else {
        Err(DecodeFault::BadVariant)
    }
}

/// Appends the fields of an envelope.
fn put_envelope(
    source: &String,
    client_identity: &Option<String>,
    message: &RelayedMessage,
    out: &mut Vec<u8>,
)
    ensures
        final(out)@ == old(out)@ + EnvelopeFields::bytes(
            (source@, (crate::proto::opt_text(*client_identity), message@)),
        ),
{
    let ghost before = out@;
    source.put(out);
    client_identity.put(out);
    message.put(out);
    assert(opt_seen(*client_identity) == crate::proto::opt_text(*client_identity));
    assert(out@ =~= before + EnvelopeFields::bytes(
        (source@, (crate::proto::opt_text(*client_identity), message@)),
    ));
}

/// Appends the fields of a snapshot.
fn put_snapshot(nodes: &Vec<NodeInfo>, reports: &Vec<GraphReport>, out: &mut Vec<u8>)
    ensures
        final(out)@ == old(out)@ + SnapshotFields::bytes(
            (
                nodes@.map_values(|n: NodeInfo| n@),
                reports@.map_values(|r: GraphReport| r@),
            ),
        ),
{
    let ghost before = out@;
    nodes.put(out);
    reports.put(out);
    proof {
        lemma_snapshot_seen(nodes@, reports@);
    }
    assert(out@ =~= before + SnapshotFields::bytes((all_seen(nodes@), all_seen(reports@))));
}

/// Appends the fields of a message.
fn put_body(message: &RadiiMessage, out: &mut Vec<u8>)
    ensures
        final(out)@ == old(out)@ + body_bytes(message@),
{
    match message {
        RadiiMessage::NodeHello { node_id, roles, listen_addrs } => {
            put_hello(node_id, roles, listen_addrs, out);
        },
        RadiiMessage::ReachabilityProbe { from, to, sent_at_unix_ms } => {
            put_probe(from, to, *sent_at_unix_ms, out);
        },
        RadiiMessage::ReachabilityReport {
            from,
            target,
            protocol,
            reachable,
            rtt_ms,
            observed_addr,
        } => {
            put_report(from, target, protocol, *reachable, rtt_ms, observed_addr, out);
        },
        RadiiMessage::FromHead { source, client_identity, message } => {
            put_envelope(source, client_identity, message, out);
        },
        RadiiMessage::GraphQuery => {
            assert(out@ =~= out@ + Seq::<u8>::empty());
        },
        RadiiMessage::GraphSnapshot { nodes, reports } => {
            put_snapshot(nodes, reports, out);
        },
        RadiiMessage::Ack { status } => {
            status.put(out);
        },
        RadiiMessage::TunnelOpen { hops } => {
            hops.put(out);
            proof {
                lemma_hops_seen(hops@);
            }
        },
    }
}

/// Takes the fields of the variant with this number.
fn take_body(tag: u32, b: &[u8]) -> (r: Result<(RadiiMessage, &[u8]), DecodeFault>)
    ensures
        match r {
            Err(e) => (read_body(tag, b@) matches Err(fault) && fault == e),
            Ok((v, rest)) => read_body(tag, b@) == Ok::<_, DecodeFault>((v@, rest@)),
        },
{
    match tag {
        0 => match HelloFields::take(b) {
            Err(e) => Err(e),
            Ok(((node_id, (roles, listen_addrs)), rest)) => {
                proof {
                    lemma_texts_seen(roles@);
                    lemma_listeners_seen(listen_addrs@);
                }
                Ok((RadiiMessage::NodeHello { node_id, roles, listen_addrs }, rest))
            },
        },
        1 => match ProbeFields::take(b) {
            Err(e) => Err(e),
            Ok(((from, (to, sent_at_unix_ms)), rest)) => Ok(
                (RadiiMessage::ReachabilityProbe { from, to, sent_at_unix_ms }, rest),
            ),
        },
        2 => match ReportFields::take(b) {
            Err(e) => Err(e),
            Ok(((from, (target, (protocol, (reachable, (rtt_ms, observed_addr))))), rest)) => {
                assert(opt_seen(rtt_ms) == rtt_ms);
                assert(opt_seen(observed_addr) == crate::proto::opt_text(observed_addr));
                Ok(
                    (
                        RadiiMessage::ReachabilityReport {
                            from,
                            target,
                            protocol,
                            reachable,
                            rtt_ms,
                            observed_addr,
                        },
                        rest,
                    ),
                )
            },
        },
        3 => match EnvelopeFields::take(b) {
            Err(e) => Err(e),
            Ok(((source, (client_identity, message)), rest)) => {
                assert(opt_seen(client_identity) == crate::proto::opt_text(client_identity));
                Ok((RadiiMessage::FromHead { source, client_identity, message }, rest))
            },
        },
        4 => Ok((RadiiMessage::GraphQuery, b)),
        5 => match SnapshotFields::take(b) {
            Err(e) => Err(e),
            Ok(((nodes, reports), rest)) => {
                proof {
                    lemma_snapshot_seen(nodes@, reports@);
                }
                Ok((RadiiMessage::GraphSnapshot { nodes, reports }, rest))
            },
        },
        6 => match String::take(b) {
            Err(e) => Err(e),
            Ok((status, rest)) => Ok((RadiiMessage::Ack { status }, rest)),
        },
        7 => match Vec::<RouteHop>::take(b) {
            Err(e) => Err(e),
            Ok((hops, rest)) => {
                proof {
                    lemma_hops_seen(hops@);
                }
                Ok((RadiiMessage::TunnelOpen { hops }, rest))
            },
        },
        _ => Err(DecodeFault::BadVariant),
    }
}

proof fn lemma_body_round_trip(v: crate::proto::MessageView, rest: Seq<u8>)
    requires
        body_bytes(v).len() < 0x1_0000_0000,
    ensures
        read_body(tag_of(v), body_bytes(v) + rest) == Ok::<_, DecodeFault>((v, rest)),
{
    match v {
        crate::proto::MessageView::NodeHello { node_id, roles, listen_addrs } => {
            HelloFields::round_trip((node_id, (roles, listen_addrs)), rest);
        },
        crate::proto::MessageView::ReachabilityProbe { from, to, sent_at_unix_ms } => {
            ProbeFields::round_trip((from, (to, sent_at_unix_ms)), rest);
        },
        crate::proto::MessageView::ReachabilityReport {
            from,
            target,
            protocol,
            reachable,
            rtt_ms,
            observed_addr,
        } => {
            ReportFields::round_trip(
                (from, (target, (protocol, (reachable, (rtt_ms, observed_addr))))),
                rest,
            );
        },
        crate::proto::MessageView::FromHead { source, client_identity, message } => {
            EnvelopeFields::round_trip((source, (client_identity, message)), rest);
        },
        crate::proto::MessageView::GraphQuery => {
            assert(body_bytes(v) + rest =~= rest);
        },
        crate::proto::MessageView::GraphSnapshot { nodes, reports } => {
            SnapshotFields::round_trip((nodes, reports), rest);
        },
        crate::proto::MessageView::Ack { status } => {
            String::round_trip(status, rest);
        },
        crate::proto::MessageView::TunnelOpen { hops } => {
            Vec::<RouteHop>::round_trip(hops, rest);
        },
    }
}

impl Wire for RadiiMessage {
    type Seen = crate::proto::MessageView;

    open spec fn seen(&self) -> crate::proto::MessageView {
        self@
    }

    open spec fn bytes(v: crate::proto::MessageView) -> Seq<u8> {
        u32::bytes(tag_of(v)) + body_bytes(v)
    }

    open spec fn read(b: Seq<u8>) -> Result<(crate::proto::MessageView, Seq<u8>), DecodeFault> {
        match u32::read(b) {
            Err(e) => Err(e),
            Ok((tag, rest)) => read_body(tag, rest),
        }
    }

    fn put(&self, out: &mut Vec<u8>) {
        let ghost before = out@;
        let tag: u32 = match self {
            RadiiMessage::NodeHello { .. } => 0,
            RadiiMessage::ReachabilityProbe { .. } => 1,
            RadiiMessage::ReachabilityReport { .. } => 2,
            RadiiMessage::FromHead { .. } => 3,
            RadiiMessage::GraphQuery => 4,
            RadiiMessage::GraphSnapshot { .. } => 5,
            RadiiMessage::Ack { .. } => 6,
            RadiiMessage::TunnelOpen { .. } => 7,
        };
        tag.put(out);
        put_body(self, out);
        assert(out@ =~= before + Self::bytes(self@));
    }

    fn take(b: &[u8]) -> (r: Result<(RadiiMessage, &[u8]), DecodeFault>) {
        match u32::take(b) {
            Err(e) => Err(e),
            Ok((tag, rest)) => take_body(tag, rest),
        }
    }

    #[verifier::rlimit(40)]
    proof fn round_trip(v: crate::proto::MessageView, rest: Seq<u8>) {
        Self::never_empty(v);
        u32::round_trip(tag_of(v), body_bytes(v) + rest);
        lemma_body_round_trip(v, rest);
        assert(Self::bytes(v) + rest =~= u32::bytes(tag_of(v)) + (body_bytes(v) + rest));
    }

    proof fn never_empty(v: crate::proto::MessageView) {
        lemma_varint_nonempty(tag_of(v) as nat);
    }
}

/// What is told of bytes that are no message.
pub proof fn law_decode_faults_are_told()
    ensures
        DecodeFault::UnexpectedEnd.words() == "Hit the end of buffer, expected more data"@,
        DecodeFault::BadVarint.words()
            == "Found a varint that didn't terminate. Is the usize too big for this platform?"@,
        DecodeFault::BadBool.words() == "Found a bool that wasn't 0 or 1"@,
        DecodeFault::BadUtf8.words() == "Tried to parse invalid utf-8"@,
        DecodeFault::BadOption.words() == "Found an Option discriminant that wasn't 0 or 1"@,
        DecodeFault::BadVariant.words() == "Serde Deserialization Error"@,
{
}

} // verus!
