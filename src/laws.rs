//! What holds of the protocol across operations, over a model of the store
//! as a map from keys to values.
use crate::bytes::bytes_lt;
use crate::keys::{
    id_element, spec_message_key, spec_messages_prefix, spec_recent_key, spec_user_key,
    str_element, str_tuple,
};
use crate::session::{
    apply_ops, commit, entries_of, in_range, spec_init_tx, spec_leave_tx,
    spec_write_ops, AnyErr, AppError, MutationView, StoreView,
};
use crate::stamp::Stamp;
use vstd::prelude::*;
use vstd::utf8::*;

verus! {

/// The value stored at `k`, if any.
pub open spec fn lookup(m: StoreView, k: Seq<u8>) -> Option<Seq<u8>> {
    if m.contains_key(k) {
        Some(m[k])
    } else {
        None
    }
}

/// Once a join of `username` in `room` has committed, every later join of
/// the same name in the same room ends in `UsernameTaken`, until the record
/// is cleared. Joins read the presence record at full isolation, so two
/// concurrent joins are ordered, and the second one sees the first's write.
pub proof fn lemma_join_exclusive(
    m: StoreView,
    room: Seq<char>,
    username: Seq<char>,
    id1: Seq<u8>,
    id2: Seq<u8>,
)
    requires
        spec_init_tx(room, username, lookup(m, spec_user_key(room, username)), id1) is Ok,
    ensures
        ({
            let m1 = commit(
                m,
                spec_init_tx(room, username, lookup(m, spec_user_key(room, username)), id1),
            );
            &&& lookup(m1, spec_user_key(room, username)) == Some(id_element(id1))
            &&& spec_init_tx(room, username, lookup(m1, spec_user_key(room, username)), id2)
                == Err::<Seq<MutationView>, AnyErr>(AnyErr::Any(AppError::UsernameTaken))
        }),
{
    reveal_with_fuel(apply_ops, 2);
    let k = spec_user_key(room, username);
    let ops = seq![MutationView::Put { key: k, value: id_element(id1) }];
    assert(ops.drop_first() =~= seq![]);
    assert(apply_ops(m, ops) == m.insert(k, id_element(id1)));
}

/// A leave by a session whose identifier is no longer the one stored (the
/// name was claimed again by another session) ends in `IdentityMismatch`
/// and leaves the store as it was, presence record included.
pub proof fn lemma_leave_superseded(
    m: StoreView,
    room: Seq<char>,
    username: Seq<char>,
    own: Seq<u8>,
    other: Seq<u8>,
)
    requires
        own.len() == 16,
        other.len() == 16,
        own != other,
        lookup(m, spec_user_key(room, username)) == Some(id_element(other)),
    ensures
        spec_leave_tx(room, username, Some(own), lookup(m, spec_user_key(room, username)))
            == Err::<Seq<MutationView>, AnyErr>(AnyErr::Any(AppError::IdentityMismatch)),
        commit(m, spec_leave_tx(room, username, Some(own), lookup(m, spec_user_key(room, username))))
            == m,
        lookup(
            commit(
                m,
                spec_leave_tx(room, username, Some(own), lookup(m, spec_user_key(room, username))),
            ),
            spec_user_key(room, username),
        ) == Some(id_element(other)),
{
    assert(id_element(other).drop_first() =~= other);
    assert(id_element(own).drop_first() =~= own);
}

proof fn lemma_str_tuple_push(parts: Seq<Seq<char>>, s: Seq<char>)
    ensures
        str_tuple(parts.push(s)) == str_tuple(parts) + str_element(s),
    decreases parts.len(),
{
    if parts.len() == 0 {
        assert(parts.push(s).drop_first() =~= seq![]);
        assert(str_tuple(parts.push(s)) =~= str_element(s) + str_tuple(seq![]));
        assert(str_tuple(parts) + str_element(s) =~= str_element(s));
    } else {
        lemma_str_tuple_push(parts.drop_first(), s);
        assert(parts.push(s).drop_first() =~= parts.drop_first().push(s));
        assert(str_tuple(parts.push(s)) =~= str_element(parts[0]) + (str_tuple(parts.drop_first())
            + str_element(s)));
    }
}

/// Every message key of `room` lies in the range that holds the room's
/// messages.
pub proof fn lemma_message_key_in_range(room: Seq<char>, ts: Seq<char>)
    ensures
        in_range(
            spec_message_key(room, ts),
            spec_messages_prefix(room).push(0u8),
            spec_messages_prefix(room).push(0xffu8),
        ),
{
    let p = spec_messages_prefix(room);
    let parts = seq![crate::keys::rooms_tag(), room, crate::keys::messages_tag()];
    lemma_str_tuple_push(parts, ts);
    assert(parts.push(ts) =~= seq![crate::keys::rooms_tag(), room, crate::keys::messages_tag(), ts]);
    let k = spec_message_key(room, ts);
    assert(k == p + str_element(ts));
    let i = p.len() as int;
    assert(k[i] == 0x02u8);
    assert(k.subrange(0, i) =~= p);
    assert(p.push(0u8).subrange(0, i) =~= p);
    assert(p.push(0xffu8).subrange(0, i) =~= p);
    assert(bytes_lt(p.push(0u8), k));
    assert(bytes_lt(k, p.push(0xffu8)));
}

/// A write sets the very key that an empty poll watches, so the watch fires;
/// and it leaves its message in the range that the next poll reads.
pub proof fn lemma_write_wakes_poll(m: StoreView, room: Seq<char>, t: Stamp, text: Seq<char>)
    requires
        t.wf(),
    ensures
        spec_write_ops(room, t, text)[1] == (MutationView::Put {
            key: spec_recent_key(room),
            value: encode_utf8(t.text()),
        }),
        apply_ops(m, spec_write_ops(room, t, text)).contains_key(spec_message_key(room, t.text())),
        apply_ops(m, spec_write_ops(room, t, text))[spec_message_key(room, t.text())]
            == encode_utf8(text),
        in_range(
            spec_message_key(room, t.text()),
            spec_messages_prefix(room).push(0u8),
            spec_messages_prefix(room).push(0xffu8),
        ),
{
    reveal_with_fuel(apply_ops, 3);
    let ops = spec_write_ops(room, t, text);
    assert(ops.drop_first().drop_first() =~= seq![]);
    lemma_message_key_in_range(room, t.text());
    lemma_keys_differ(room, t.text());
}

proof fn lemma_parse_count(b: Seq<u8>, n: nat)
    requires
        crate::keys::parse_str_tuple(b, n) is Some,
    ensures
        crate::keys::parse_str_tuple(b, n + 1) is None,
    decreases n,
{
    if n > 0 {
        let (s, rest) = crate::keys::parse_str_element(b)->Some_0;
        lemma_parse_count(rest, (n - 1) as nat);
        assert((n + 1 - 1) as nat == n);
    }
}

proof fn lemma_keys_differ(room: Seq<char>, ts: Seq<char>)
    ensures
        spec_message_key(room, ts) != spec_recent_key(room),
{
    let k4 = seq![crate::keys::rooms_tag(), room, crate::keys::messages_tag(), ts];
    let k3 = seq![crate::keys::rooms_tag(), room, crate::keys::recent_tag()];
    crate::keys::lemma_str_tuple_round_trip(k4);
    crate::keys::lemma_str_tuple_round_trip(k3);
    lemma_parse_count(str_tuple(k3), 3);
}

/// The room's messages are `s`: stamps valid and strictly increasing.
pub open spec fn sorted_entries(s: Seq<(Stamp, String)>) -> bool {
    &&& forall|i: int| 0 <= i < s.len() ==> (#[trigger] s[i]).0.wf()
    &&& forall|i: int, j: int| 0 <= i < j < s.len() ==> (#[trigger] s[i]).0.before((#[trigger] s[j]).0)
}

/// `t` comes after the position `last` (every stamp comes after `None`).
pub open spec fn is_after(last: Option<Stamp>, t: Stamp) -> bool {
    match last {
        None => true,
        Some(l) => l.before(t),
    }
}

/// How many of the leading entries of `s` are not after `last`.
pub open spec fn skip_upto(s: Seq<(Stamp, String)>, last: Option<Stamp>) -> nat
    decreases s.len(),
{
    if s.len() == 0 || is_after(last, s[0].0) {
        0
    } else {
        1 + skip_upto(s.drop_first(), last)
    }
}

/// What a poll of a room whose messages are `s` finds after `last`: the
/// first `n` messages after it.
pub open spec fn page_after(s: Seq<(Stamp, String)>, last: Option<Stamp>, n: nat) -> Seq<
    (Stamp, String),
> {
    let k = skip_upto(s, last) as int;
    let e = if k + n < s.len() {
        k + n
    } else {
        s.len() as int
    };
    s.subrange(k, e)
}

/// A cursor that has handed out the first `d` messages of `s` and holds
/// `waiting` in its buffer, with `last` the stamp of the last one it read.
pub open spec fn cursor_at(
    s: Seq<(Stamp, String)>,
    d: int,
    last: Option<Stamp>,
    waiting: Seq<(Stamp, String)>,
) -> bool {
    &&& 0 <= d
    &&& d + waiting.len() <= s.len()
    &&& waiting == s.subrange(d, d + waiting.len())
    &&& last == (if d + waiting.len() == 0 {
        None::<Stamp>
    } else {
        Some(s[d + waiting.len() - 1].0)
    })
}

proof fn lemma_skip_upto(s: Seq<(Stamp, String)>, c: int)
    requires
        sorted_entries(s),
        -1 <= c < s.len(),
    ensures
        skip_upto(s, if c < 0 {
            None::<Stamp>
        } else {
            Some(s[c].0)
        }) == c + 1,
    decreases s.len(),
{
    let last = if c < 0 {
        None::<Stamp>
    } else {
        Some(s[c].0)
    };
    if c >= 0 {
        let t = s.drop_first();
        assert(sorted_entries(t)) by {
            assert forall|i: int, j: int| 0 <= i < j < t.len() implies (#[trigger] t[i]).0.before(
                (#[trigger] t[j]).0,
            ) by {
                assert(t[i] == s[i + 1] && t[j] == s[j + 1]);
            }
        }
        if c > 0 {
            assert(s[0].0.before(s[c].0));
        }
        assert(!is_after(last, s[0].0));
        assert(skip_upto(s, last) == 1 + skip_upto(t, last));
        if c > 0 {
            lemma_skip_upto(t, c - 1);
            assert(t[c - 1] == s[c]);
        } else if t.len() > 0 {
            assert(t[0] == s[1]);
            assert(s[0].0.before(s[1].0));
            assert(is_after(last, t[0].0));
            assert(skip_upto(t, last) == 0);
        } else {
            assert(skip_upto(t, last) == 0);
        }
    }
}

/// A cursor over a room whose messages `s` have strictly increasing stamps
/// hands them out one by one in that order: a buffered message is the next
/// one of `s`; an empty buffer polls and finds the next page, which starts
/// with the next message; once all of `s` is out the poll finds nothing,
/// and the cursor waits.
pub proof fn lemma_cursor_step(
    s: Seq<(Stamp, String)>,
    d: int,
    last: Option<Stamp>,
    waiting: Seq<(Stamp, String)>,
)
    requires
        sorted_entries(s),
        cursor_at(s, d, last, waiting),
    ensures
        waiting.len() > 0 ==> waiting[0] == s[d] && cursor_at(s, d + 1, last, waiting.drop_first()),
        waiting.len() == 0 && d < s.len() ==> ({
            let p = page_after(s, last, crate::iter::PAGE_SIZE as nat);
            &&& p.len() > 0
            &&& p[0] == s[d]
            &&& cursor_at(s, d + 1, Some(p[p.len() - 1].0), p.drop_first())
        }),
        waiting.len() == 0 && d == s.len() ==> page_after(
            s,
            last,
            crate::iter::PAGE_SIZE as nat,
        ).len() == 0,
{
    if waiting.len() > 0 {
        assert(waiting.drop_first() =~= s.subrange(d + 1, d + waiting.len()));
    } else {
        lemma_skip_upto(s, d - 1);
        let p = page_after(s, last, crate::iter::PAGE_SIZE as nat);
        if d < s.len() {
            assert(p.drop_first() =~= s.subrange(d + 1, d + p.len()));
        }
    }
}

proof fn lemma_escape_plain(b: Seq<u8>)
    requires
        forall|i: int| 0 <= i < b.len() ==> #[trigger] b[i] != 0u8,
    ensures
        crate::keys::escape_nul(b) == b,
    decreases b.len(),
{
    if b.len() > 0 {
        lemma_escape_plain(b.drop_first());
        assert(seq![b[0]] + b.drop_first() =~= b);
    }
}

proof fn lemma_message_key_split(room: Seq<char>, ts: Seq<char>)
    ensures
        spec_message_key(room, ts) == spec_messages_prefix(room) + str_element(ts),
{
    let parts = seq![crate::keys::rooms_tag(), room, crate::keys::messages_tag()];
    lemma_str_tuple_push(parts, ts);
    assert(parts.push(ts) =~= seq![crate::keys::rooms_tag(), room, crate::keys::messages_tag(), ts]);
}

/// Reading a message key back gives the instant it was made from: two
/// instants with the same key in a room are the same instant.
pub proof fn lemma_message_key_round_trip(room: Seq<char>, t: Stamp, u: Stamp)
    requires
        t.wf(),
        u.wf(),
        spec_message_key(room, u.text()) == spec_message_key(room, t.text()),
    ensures
        u == t,
{
    let pt = seq![crate::keys::rooms_tag(), room, crate::keys::messages_tag(), t.text()];
    let pu = seq![crate::keys::rooms_tag(), room, crate::keys::messages_tag(), u.text()];
    crate::keys::lemma_str_tuple_round_trip(pt);
    crate::keys::lemma_str_tuple_round_trip(pu);
    assert(pt[3] == pu[3]);
    crate::stamp::lemma_text_injective(t, u);
}

/// Key order is time order: the key of an earlier message sorts first.
pub proof fn lemma_message_key_order(room: Seq<char>, t1: Stamp, t2: Stamp)
    requires
        t1.wf(),
        t2.wf(),
        t1.before(t2),
    ensures
        bytes_lt(spec_message_key(room, t1.text()), spec_message_key(room, t2.text())),
{
    let a = t1.text();
    let b = t2.text();
    crate::stamp::lemma_text_order(t1, t2);
    crate::stamp::lemma_text_shape(t1, t2);
    crate::stamp::lemma_text_shape(t2, t1);
    assert(is_ascii_chars(a));
    assert(is_ascii_chars(b));
    is_ascii_chars_encode_utf8(a);
    is_ascii_chars_encode_utf8(b);
    let ea = encode_utf8(a);
    let eb = encode_utf8(b);
    assert forall|i: int| 0 <= i < ea.len() implies #[trigger] ea[i] != 0u8 by {
        assert(ea[i] == a[i] as u8);
    }
    assert forall|i: int| 0 <= i < eb.len() implies #[trigger] eb[i] != 0u8 by {
        assert(eb[i] == b[i] as u8);
    }
    lemma_escape_plain(ea);
    lemma_escape_plain(eb);
    lemma_message_key_split(room, a);
    lemma_message_key_split(room, b);
    let p = spec_messages_prefix(room);
    let k1 = spec_message_key(room, a);
    let k2 = spec_message_key(room, b);
    assert(k1 == p + seq![0x02u8] + ea + seq![0u8]);
    assert(k2 == p + seq![0x02u8] + eb + seq![0u8]);
    let i = choose|i: int|
        0 <= i < a.len() && i < b.len() && a.subrange(0, i) == b.subrange(0, i) && (a[i] as u32)
            < (b[i] as u32);
    assert forall|k: int| 0 <= k < i implies ea[k] == eb[k] by {
        assert(a[k] == a.subrange(0, i)[k]);
        assert(b[k] == b.subrange(0, i)[k]);
    }
    let j = p.len() + 1 + i;
    assert(k1.subrange(0, j) =~= p + seq![0x02u8] + ea.subrange(0, i));
    assert(k2.subrange(0, j) =~= p + seq![0x02u8] + eb.subrange(0, i));
    assert(ea.subrange(0, i) =~= eb.subrange(0, i));
    assert(k1[j] == ea[i]);
    assert(k2[j] == eb[i]);
    assert(ea[i] < eb[i]);
}

proof fn lemma_bytes_lt_asym(a: Seq<u8>, b: Seq<u8>)
    requires
        bytes_lt(a, b),
    ensures
        !bytes_lt(b, a),
        a != b,
{
    if bytes_lt(b, a) {
        if exists|i: int|
            0 <= i < a.len() && i < b.len() && a.subrange(0, i) == b.subrange(0, i) && a[i] < b[i] {
            let i = choose|i: int|
                0 <= i < a.len() && i < b.len() && a.subrange(0, i) == b.subrange(0, i) && a[i]
                    < b[i];
            if exists|j: int|
                0 <= j < b.len() && j < a.len() && b.subrange(0, j) == a.subrange(0, j) && b[j]
                    < a[j] {
                let j = choose|j: int|
                    0 <= j < b.len() && j < a.len() && b.subrange(0, j) == a.subrange(0, j) && b[j]
                        < a[j];
                if i < j {
                    assert(a[i] == a.subrange(0, j)[i]);
                    assert(b[i] == b.subrange(0, j)[i]);
                } else if j < i {
                    assert(a[j] == a.subrange(0, i)[j]);
                    assert(b[j] == b.subrange(0, i)[j]);
                }
            } else {
                assert(a[i] == b.subrange(0, b.len() as int)[i]);
            }
        } else {
            if exists|j: int|
                0 <= j < b.len() && j < a.len() && b.subrange(0, j) == a.subrange(0, j) && b[j]
                    < a[j] {
                let j = choose|j: int|
                    0 <= j < b.len() && j < a.len() && b.subrange(0, j) == a.subrange(0, j) && b[j]
                        < a[j];
                assert(a[j] == b.subrange(0, a.len() as int)[j]);
            }
        }
    }
    if a == b {
        if exists|i: int|
            0 <= i < a.len() && i < b.len() && a.subrange(0, i) == b.subrange(0, i) && a[i] < b[i] {
        }
    }
}

/// `kvs` is what a read of `m` from `begin` to `end` with no limit returns:
/// every key in the range, in key order, each with its value.
pub open spec fn is_full_scan(
    m: StoreView,
    begin: Seq<u8>,
    end: Seq<u8>,
    kvs: Seq<(Vec<u8>, Vec<u8>)>,
) -> bool {
    &&& forall|i: int|
        0 <= i < kvs.len() ==> in_range((#[trigger] kvs[i]).0@, begin, end) && m.contains_key(
            kvs[i].0@,
        ) && m[kvs[i].0@] == kvs[i].1@
    &&& forall|i: int, j: int|
        0 <= i < j < kvs.len() ==> bytes_lt((#[trigger] kvs[i]).0@, (#[trigger] kvs[j]).0@)
    &&& forall|k: Seq<u8>|
        m.contains_key(k) && in_range(k, begin, end) ==> exists|i: int|
            0 <= i < kvs.len() && (#[trigger] kvs[i]).0@ == k
}

/// After a write of `text` at `t`, with no message of the room at a later
/// stamp, reading all of the room's messages ends with `(t, text)`.
pub proof fn lemma_read_after_write(
    m: StoreView,
    room: Seq<char>,
    t: Stamp,
    text: Seq<char>,
    kvs: Seq<(Vec<u8>, Vec<u8>)>,
    entries: Seq<(Stamp, String)>,
)
    requires
        t.wf(),
        forall|u: Stamp|
            u.wf() && apply_ops(m, spec_write_ops(room, t, text)).contains_key(
                #[trigger] spec_message_key(room, u.text()),
            ) ==> !t.before(u),
        is_full_scan(
            apply_ops(m, spec_write_ops(room, t, text)),
            spec_messages_prefix(room).push(0u8),
            spec_messages_prefix(room).push(0xffu8),
            kvs,
        ),
        entries_of(room, kvs, entries),
    ensures
        entries.len() > 0,
        entries[entries.len() - 1].0 == t,
        entries[entries.len() - 1].1@ == text,
{
    let m1 = apply_ops(m, spec_write_ops(room, t, text));
    let kt = spec_message_key(room, t.text());
    lemma_write_wakes_poll(m, room, t, text);
    assert(m1.contains_key(kt));
    let idx = choose|i: int| 0 <= i < kvs.len() && (#[trigger] kvs[i]).0@ == kt;
    let n = kvs.len() as int;
    let u = entries[n - 1].0;
    assert(crate::session::is_message_record(room, kvs[n - 1].0@, kvs[n - 1].1@, u, entries[n - 1].1@));
    assert(m1.contains_key(spec_message_key(room, u.text())));
    assert(!t.before(u));
    if idx < n - 1 {
        assert(bytes_lt(kvs[idx].0@, kvs[n - 1].0@));
        lemma_bytes_lt_asym(kt, spec_message_key(room, u.text()));
        if u.before(t) {
            lemma_message_key_order(room, u, t);
        } else {
            assert(u == t);
        }
    }
    assert(kvs[n - 1].0@ == kt);
    lemma_message_key_round_trip(room, t, u);
    assert(encode_utf8(entries[n - 1].1@) == encode_utf8(text));
    assert(decode_utf8(encode_utf8(entries[n - 1].1@)) == entries[n - 1].1@) by {
        encode_utf8_decode_utf8(entries[n - 1].1@);
    }
    assert(decode_utf8(encode_utf8(text)) == text) by {
        encode_utf8_decode_utf8(text);
    }
}

} // verus!
