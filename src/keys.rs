//! Key schema: the ordered binary keys under which a room's rows are stored.
//!
//! Keys are tuples of strings in the store's tuple layer: each string is
//! written as the type code `0x02`, its UTF-8 bytes with every `0x00` followed
//! by `0xff`, and a closing `0x00`.
use vstd::prelude::*;
use vstd::utf8::*;

verus! {

broadcast use {encode_utf8_valid_utf8, encode_utf8_decode_utf8};

/// The UTF-8 bytes of `b` with every `0x00` followed by `0xff`.
pub open spec fn escape_nul(b: Seq<u8>) -> Seq<u8>
    decreases b.len(),
{
    if b.len() == 0 {
        seq![]
    } else if b[0] == 0u8 {
        seq![0u8, 0xffu8] + escape_nul(b.drop_first())
    } else {
        seq![b[0]] + escape_nul(b.drop_first())
    }
}

/// The tuple-layer encoding of one string.
pub open spec fn str_element(s: Seq<char>) -> Seq<u8> {
    seq![0x02u8] + escape_nul(encode_utf8(s)) + seq![0u8]
}

/// The tuple-layer encoding of a tuple of strings.
pub open spec fn str_tuple(parts: Seq<Seq<char>>) -> Seq<u8>
    decreases parts.len(),
{
    if parts.len() == 0 {
        seq![]
    } else {
        str_element(parts[0]) + str_tuple(parts.drop_first())
    }
}

/// Reads escaped bytes up to the first `0x00` that is not followed by `0xff`;
/// gives the unescaped bytes and what follows the terminator.
pub open spec fn unescape_nul(b: Seq<u8>) -> Option<(Seq<u8>, Seq<u8>)>
    decreases b.len(),
{
    if b.len() == 0 {
        None
    } else if b[0] == 0u8 {
        if b.len() > 1 && b[1] == 0xffu8 {
            match unescape_nul(b.subrange(2, b.len() as int)) {
                Some((v, rest)) => Some((seq![0u8] + v, rest)),
                None => None,
            }
        } else {
            Some((seq![], b.drop_first()))
        }
    } else {
        match unescape_nul(b.drop_first()) {
            Some((v, rest)) => Some((seq![b[0]] + v, rest)),
            None => None,
        }
    }
}

/// Reads one string element from the front of `b`.
pub open spec fn parse_str_element(b: Seq<u8>) -> Option<(Seq<char>, Seq<u8>)> {
    if b.len() > 0 && b[0] == 0x02u8 {
        match unescape_nul(b.drop_first()) {
            Some((v, rest)) => if valid_utf8(v) {
                Some((decode_utf8(v), rest))
            } else {
                None
            },
            None => None,
        }
    } else {
        None
    }
}

/// Reads exactly `n` string elements and nothing after them.
pub open spec fn parse_str_tuple(b: Seq<u8>, n: nat) -> Option<Seq<Seq<char>>>
    decreases n,
{
    if n == 0 {
        if b.len() == 0 {
            Some(seq![])
        } else {
            None
        }
    } else {
        match parse_str_element(b) {
            Some((s, rest)) => match parse_str_tuple(rest, (n - 1) as nat) {
                Some(t) => Some(seq![s] + t),
                None => None,
            },
            None => None,
        }
    }
}

/// The tuple-layer encoding of a 128-bit identifier.
pub open spec fn id_element(id: Seq<u8>) -> Seq<u8> {
    seq![0x30u8] + id
}

pub open spec fn rooms_tag() -> Seq<char> {
    seq!['r', 'o', 'o', 'm', 's']
}

pub open spec fn users_tag() -> Seq<char> {
    seq!['u', 's', 'e', 'r', 's']
}

pub open spec fn messages_tag() -> Seq<char> {
    seq!['m', 'e', 's', 's', 'a', 'g', 'e', 's']
}

pub open spec fn recent_tag() -> Seq<char> {
    seq![
        'm', 'o', 's', 't', '_', 'r', 'e', 'c', 'e', 'n', 't', '_', 'm', 'e', 's', 's', 'a', 'g', 'e'
    ]
}

/// Key of the presence record of `username` in `room`.
pub open spec fn spec_user_key(room: Seq<char>, username: Seq<char>) -> Seq<u8> {
    str_tuple(seq![rooms_tag(), room, users_tag(), username])
}

/// Prefix shared by every message record of `room`.
pub open spec fn spec_messages_prefix(room: Seq<char>) -> Seq<u8> {
    str_tuple(seq![rooms_tag(), room, messages_tag()])
}

/// Key of the message record of `room` stamped with the text `ts`.
pub open spec fn spec_message_key(room: Seq<char>, ts: Seq<char>) -> Seq<u8> {
    str_tuple(seq![rooms_tag(), room, messages_tag(), ts])
}

/// Key of the most-recent-message marker of `room`.
pub open spec fn spec_recent_key(room: Seq<char>) -> Seq<u8> {
    str_tuple(seq![rooms_tag(), room, recent_tag()])
}

/// Prefix shared by every key of `room`.
pub open spec fn spec_room_prefix(room: Seq<char>) -> Seq<u8> {
    str_tuple(seq![rooms_tag(), room])
}

/// Names short enough that every key built from them has a length that
/// fits in a `u32`, as the tuple layer demands: at most 256 MiB of UTF-8.
pub open spec fn fits(s: Seq<char>) -> bool {
    encode_utf8(s).len() <= 0x1000_0000
}

/// Whether `s` is short enough to stand in a key.
pub fn name_fits(s: &str) -> (r: bool)
    ensures
        r == fits(s@),
{
    s.as_bytes().len() <= 0x1000_0000
}

/// Relies on foundationdb_tuple::pack of one string: the element encoding
/// `str_element`. It panics when that encoding's length does not fit in a
/// `u32`.
#[verifier::external_body]
fn pack_str(s: &str) -> (r: Vec<u8>)
    requires
        str_element(s@).len() <= u32::MAX,
    ensures
        r@ == str_element(s@),
{
    foundationdb_tuple::pack(&s)
}

/// Relies on foundationdb_tuple::Subspace::from_bytes and Subspace::range:
/// the prefix followed by `0x00`, and by `0xff`. `from_bytes` panics when the
/// prefix's length does not fit in a `u32`.
#[verifier::external_body]
fn subspace_range(prefix: &[u8]) -> (r: (Vec<u8>, Vec<u8>))
    requires
        prefix@.len() <= u32::MAX,
    ensures
        r.0@ == prefix@.push(0u8),
        r.1@ == prefix@.push(0xffu8),
{
    foundationdb_tuple::Subspace::from_bytes(prefix.to_vec()).range()
}

proof fn lemma_escape_len(b: Seq<u8>)
    ensures
        escape_nul(b).len() <= 2 * b.len(),
    decreases b.len(),
{
    if b.len() > 0 {
        lemma_escape_len(b.drop_first());
    }
}

/// The tuple-layer encoding of one string that fits.
pub fn element(s: &str) -> (r: Vec<u8>)
    requires
        fits(s@),
    ensures
        r@ == str_element(s@),
        r@.len() <= 0x2000_0002,
{
    proof {
        lemma_escape_len(encode_utf8(s@));
    }
    pack_str(s)
}

proof fn lemma_str_tuple_unfold(a: Seq<char>, b: Seq<char>, c: Seq<char>, d: Seq<char>)
    ensures
        str_tuple(seq![a, b]) == str_element(a) + str_element(b),
        str_tuple(seq![a, b, c]) == str_element(a) + str_element(b) + str_element(c),
        str_tuple(seq![a, b, c, d]) == str_element(a) + str_element(b) + str_element(c)
            + str_element(d),
{
    reveal_with_fuel(str_tuple, 5);
    assert(seq![a, b].drop_first() =~= seq![b]);
    assert(seq![b].drop_first() =~= Seq::<Seq<char>>::empty());
    assert(seq![a, b, c].drop_first() =~= seq![b, c]);
    assert(seq![b, c].drop_first() =~= seq![c]);
    assert(seq![c].drop_first() =~= Seq::<Seq<char>>::empty());
    assert(seq![a, b, c, d].drop_first() =~= seq![b, c, d]);
    assert(seq![b, c, d].drop_first() =~= seq![c, d]);
    assert(seq![c, d].drop_first() =~= seq![d]);
    assert(seq![d].drop_first() =~= Seq::<Seq<char>>::empty());
    assert(str_element(a) + str_element(b) + str_element(c) + str_element(d) =~= str_element(a)
        + (str_element(b) + (str_element(c) + (str_element(d) + seq![]))));
    assert(str_element(a) + str_element(b) + str_element(c) =~= str_element(a) + (str_element(b)
        + (str_element(c) + seq![])));
    assert(str_element(a) + str_element(b) =~= str_element(a) + (str_element(b) + seq![]));
}

/// `a` followed by `b`.
fn joined(a: Vec<u8>, b: &Vec<u8>) -> (r: Vec<u8>)
    ensures
        r@ == a@ + b@,
{
    let mut r = a;
    r.extend_from_slice(b.as_slice());
    assert(r@ =~= a@ + b@);
    r
}

/// Relies on foundationdb_tuple::unpack into four strings: it succeeds exactly
/// when the bytes are four string elements and nothing more.
#[verifier::external_body]
fn unpack_strs4(key: &[u8]) -> (r: Option<(String, String, String, String)>)
    ensures
        match r {
            Some(t) => parse_str_tuple(key@, 4) == Some(seq![t.0@, t.1@, t.2@, t.3@]),
            None => parse_str_tuple(key@, 4) is None,
        },
{
    foundationdb_tuple::unpack::<(String, String, String, String)>(key).ok()
}

/// Relies on foundationdb_tuple::pack of a `uuid::Uuid`: the code `0x30` and
/// the identifier's sixteen bytes.
#[verifier::external_body]
fn pack_uuid(id: &[u8; 16]) -> (r: Vec<u8>)
    ensures
        r@ == id_element(id@),
{
    foundationdb_tuple::pack(&uuid::Uuid::from_bytes(*id))
}

/// Relies on foundationdb_tuple::unpack into a `uuid::Uuid`: it succeeds
/// exactly on the code `0x30` followed by sixteen bytes.
#[verifier::external_body]
fn unpack_uuid(v: &[u8]) -> (r: Option<[u8; 16]>)
    ensures
        match r {
            Some(id) => v@ == id_element(id@),
            None => !(v@.len() == 17 && v@[0] == 0x30u8),
        },
{
    match foundationdb_tuple::unpack::<uuid::Uuid>(v) {
        Ok(u) => Some(*u.as_bytes()),
        Err(_) => None,
    }
}

proof fn lemma_tags()
    ensures
        "rooms"@ == rooms_tag(),
        "users"@ == users_tag(),
        "messages"@ == messages_tag(),
        "most_recent_message"@ == recent_tag(),
{
    reveal_strlit("rooms");
    reveal_strlit("users");
    reveal_strlit("messages");
    reveal_strlit("most_recent_message");
    assert("rooms"@ =~= rooms_tag());
    assert("users"@ =~= users_tag());
    assert("messages"@ =~= messages_tag());
    assert("most_recent_message"@ =~= recent_tag());
}

/// The encoding of the tuple `(a, b, c)`.
fn tuple3(a: &str, b: &str, c: &str) -> (r: Vec<u8>)
    requires
        fits(a@),
        fits(b@),
        fits(c@),
    ensures
        r@ == str_tuple(seq![a@, b@, c@]),
        r@.len() <= 0x6000_0006,
{
    proof {
        lemma_str_tuple_unfold(a@, b@, c@, c@);
    }
    let ab = joined(element(a), &element(b));
    joined(ab, &element(c))
}

/// The encoding of the tuple `(a, b, c, d)`.
fn tuple4(a: &str, b: &str, c: &str, d: &str) -> (r: Vec<u8>)
    requires
        fits(a@),
        fits(b@),
        fits(c@),
        fits(d@),
    ensures
        r@ == str_tuple(seq![a@, b@, c@, d@]),
{
    proof {
        lemma_str_tuple_unfold(a@, b@, c@, d@);
    }
    let abc = tuple3(a, b, c);
    joined(abc, &element(d))
}

proof fn lemma_tags_fit()
    ensures
        fits("rooms"@),
        fits("users"@),
        fits("messages"@),
        fits("most_recent_message"@),
{
    lemma_tags();
    vstd::utf8::is_ascii_chars_encode_utf8(rooms_tag());
    vstd::utf8::is_ascii_chars_encode_utf8(users_tag());
    vstd::utf8::is_ascii_chars_encode_utf8(messages_tag());
    vstd::utf8::is_ascii_chars_encode_utf8(recent_tag());
}

/// Key of the presence record of `username` in `room`.
pub fn user_key(room: &str, username: &str) -> (r: Vec<u8>)
    requires
        fits(room@),
        fits(username@),
    ensures
        r@ == spec_user_key(room@, username@),
{
    proof {
        lemma_tags();
        lemma_tags_fit();
    }
    tuple4("rooms", room, "users", username)
}

/// Key of the message record of `room` stamped with the text `ts`.
pub fn message_key(room: &str, ts: &str) -> (r: Vec<u8>)
    requires
        fits(room@),
        fits(ts@),
    ensures
        r@ == spec_message_key(room@, ts@),
{
    proof {
        lemma_tags();
        lemma_tags_fit();
    }
    tuple4("rooms", room, "messages", ts)
}

/// Key of the most-recent-message marker of `room`.
pub fn recent_key(room: &str) -> (r: Vec<u8>)
    requires
        fits(room@),
    ensures
        r@ == spec_recent_key(room@),
{
    proof {
        lemma_tags();
        lemma_tags_fit();
    }
    tuple3("rooms", room, "most_recent_message")
}

/// The bounds of the range that holds every message record of `room`.
pub fn messages_range(room: &str) -> (r: (Vec<u8>, Vec<u8>))
    requires
        fits(room@),
    ensures
        r.0@ == spec_messages_prefix(room@).push(0u8),
        r.1@ == spec_messages_prefix(room@).push(0xffu8),
{
    proof {
        lemma_tags();
        lemma_tags_fit();
    }
    let prefix = tuple3("rooms", room, "messages");
    subspace_range(prefix.as_slice())
}

/// The bounds of the range that holds every key of `room`.
pub fn room_range(room: &str) -> (r: (Vec<u8>, Vec<u8>))
    requires
        fits(room@),
    ensures
        r.0@ == spec_room_prefix(room@).push(0u8),
        r.1@ == spec_room_prefix(room@).push(0xffu8),
{
    proof {
        lemma_tags();
        lemma_tags_fit();
        lemma_str_tuple_unfold(rooms_tag(), room@, room@, room@);
    }
    let prefix = joined(element("rooms"), &element(room));
    subspace_range(prefix.as_slice())
}

/// Value of a presence record: the session identifier.
pub fn id_value(id: &[u8; 16]) -> (r: Vec<u8>)
    ensures
        r@ == id_element(id@),
{
    pack_uuid(id)
}

/// Reads a session identifier back from a presence record's value.
pub fn decode_id(v: &[u8]) -> (r: Option<[u8; 16]>)
    ensures
        match r {
            Some(id) => v@ == id_element(id@),
            None => !(v@.len() == 17 && v@[0] == 0x30u8),
        },
{
    unpack_uuid(v)
}

/// Splits a key of four string elements.
pub fn decode_key4(key: &[u8]) -> (r: Option<(String, String, String, String)>)
    ensures
        match r {
            Some(t) => parse_str_tuple(key@, 4) == Some(seq![t.0@, t.1@, t.2@, t.3@]),
            None => parse_str_tuple(key@, 4) is None,
        },
{
    unpack_strs4(key)
}

pub proof fn lemma_unescape_escape(v: Seq<u8>, rest: Seq<u8>)
    requires
        rest.len() == 0 || rest[0] != 0xffu8,
    ensures
        unescape_nul(escape_nul(v) + seq![0u8] + rest) == Some((v, rest)),
    decreases v.len(),
{
    let b = escape_nul(v) + seq![0u8] + rest;
    if v.len() == 0 {
        assert(escape_nul(v) =~= seq![]);
        assert(b =~= seq![0u8] + rest);
        assert(b.drop_first() =~= rest);
    } else {
        lemma_unescape_escape(v.drop_first(), rest);
        let tail = escape_nul(v.drop_first()) + seq![0u8] + rest;
        if v[0] == 0u8 {
            assert(b =~= seq![0u8, 0xffu8] + tail);
            assert(b.subrange(2, b.len() as int) =~= tail);
            assert(seq![0u8] + v.drop_first() =~= v);
        } else {
            assert(b =~= seq![v[0]] + tail);
            assert(b.drop_first() =~= tail);
            assert(seq![v[0]] + v.drop_first() =~= v);
        }
    }
}

/// Reading a tuple of strings back from its encoding gives the same strings.
pub proof fn lemma_str_tuple_round_trip(parts: Seq<Seq<char>>)
    ensures
        parse_str_tuple(str_tuple(parts), parts.len()) == Some(parts),
    decreases parts.len(),
{
    if parts.len() > 0 {
        let s = parts[0];
        let tail = str_tuple(parts.drop_first());
        let b = str_tuple(parts);
        assert(b =~= seq![0x02u8] + (escape_nul(encode_utf8(s)) + seq![0u8] + tail));
        assert(b.drop_first() =~= escape_nul(encode_utf8(s)) + seq![0u8] + tail);
        if parts.len() > 1 {
            assert(tail[0] == 0x02u8);
        }
        lemma_unescape_escape(encode_utf8(s), tail);
        assert(parse_str_element(b) == Some((s, tail)));
        lemma_str_tuple_round_trip(parts.drop_first());
        assert(seq![s] + parts.drop_first() =~= parts);
    }
}

} // verus!
