//! The session protocol: claiming a name in a room, appending messages, and
//! reading them back or arming a watch.
//!
//! Each operation is one store transaction. The library decides, from what
//! the transaction read, which mutations it must make (or which error ends
//! it); the caller performs the reads and writes against the store.
use crate::bytes::{bytes_eq, bytes_le, bytes_lt};
use crate::keys::{
    fits, decode_id, decode_key4, id_element, id_value, lemma_str_tuple_round_trip, message_key,
    messages_range, messages_tag, recent_key, room_range, rooms_tag, spec_message_key,
    spec_messages_prefix, spec_recent_key, spec_room_prefix, spec_user_key, user_key,
};
use crate::stamp::Stamp;
use vstd::prelude::*;
use vstd::utf8::*;

verus! {

broadcast use {encode_utf8_valid_utf8, encode_utf8_decode_utf8};

/// Application errors: they end a transaction at once, without a retry.
#[derive(Clone, Copy, Debug, PartialEq, Eq, Structural)]
pub enum AppError {
    /// The name is already held in the room.
    UsernameTaken,
    /// The presence record holds another session's identifier.
    IdentityMismatch,
    /// The presence record of a live session is gone.
    PresenceMissing,
    /// A stored key or identifier is not in this library's schema.
    MalformedKey,
    /// A stored message is not UTF-8.
    MalformedText,
    /// The line input failed.
    InputFailure,
}

/// Every error of a transaction: an application error, or a store error with
/// its code, which the store may classify as worth a retry.
#[derive(Clone, Copy, Debug, PartialEq, Eq, Structural)]
pub enum AnyErr {
    Any(AppError),
    Fdb(i32),
}

impl AnyErr {
    /// The store error inside, if this is one.
    pub fn try_into_fdb_error(self) -> (r: Result<i32, AnyErr>)
        ensures
            match self {
                AnyErr::Fdb(code) => r == Ok::<i32, AnyErr>(code),
                AnyErr::Any(_) => r == Err::<i32, AnyErr>(self),
            },
    {
        match self {
            AnyErr::Any(_) => Err(self),
            AnyErr::Fdb(code) => Ok(code),
        }
    }
}

/// How a transaction is retried.
#[derive(Clone, Copy, Debug, PartialEq, Eq, Structural)]
pub struct TransactOption {
    /// The most retries after the first attempt; `None` for no bound.
    pub retry_limit: Option<u32>,
    /// A bound on the whole transaction in milliseconds; `None` for none.
    pub time_out: Option<u32>,
    /// Whether the body may be run again after a commit of unknown outcome.
    pub is_idempotent: bool,
}

impl TransactOption {
    /// The policy of every chat transaction: three retries, no time-out, not
    /// idempotent.
    pub fn chat() -> (r: TransactOption)
        ensures
            r.retry_limit == Some(3u32),
            r.time_out is None,
            !r.is_idempotent,
    {
        TransactOption { retry_limit: Some(3), time_out: None, is_idempotent: false }
    }

    pub open spec fn spec_can_retry(
        self,
        err: AnyErr,
        failures: u32,
        maybe_committed: bool,
        timed_out: bool,
    ) -> bool {
        &&& err is Fdb
        &&& (self.is_idempotent || !maybe_committed)
        &&& !timed_out
        &&& match self.retry_limit {
            Some(l) => failures <= l,
            None => true,
        }
    }

    /// Whether to run the body again after its `failures`-th failed attempt
    /// ended in `err`. Only store errors are retried; a commit of unknown
    /// outcome only when the body is idempotent.
    pub fn can_retry(&self, err: &AnyErr, failures: u32, maybe_committed: bool, timed_out: bool) -> (r:
        bool)
        requires
            failures >= 1,
        ensures
            r == self.spec_can_retry(*err, failures, maybe_committed, timed_out),
    {
        let store_error = match err {
            AnyErr::Fdb(_) => true,
            AnyErr::Any(_) => false,
        };
        let within = match self.retry_limit {
            Some(l) => failures <= l,
            None => true,
        };
        store_error && (self.is_idempotent || !maybe_committed) && !timed_out && within
    }
}

/// A write that a transaction makes.
#[derive(Clone, Debug)]
pub enum Mutation {
    Put { key: Vec<u8>, value: Vec<u8> },
    Clear { key: Vec<u8> },
    /// Clears every key `k` with `begin <= k < end`.
    ClearRange { begin: Vec<u8>, end: Vec<u8> },
}

pub enum MutationView {
    Put { key: Seq<u8>, value: Seq<u8> },
    Clear { key: Seq<u8> },
    ClearRange { begin: Seq<u8>, end: Seq<u8> },
}

impl View for Mutation {
    type V = MutationView;

    open spec fn view(&self) -> MutationView {
        match self {
            Mutation::Put { key, value } => MutationView::Put { key: key@, value: value@ },
            Mutation::Clear { key } => MutationView::Clear { key: key@ },
            Mutation::ClearRange { begin, end } => MutationView::ClearRange {
                begin: begin@,
                end: end@,
            },
        }
    }
}

pub open spec fn ops_view(v: Seq<Mutation>) -> Seq<MutationView> {
    v.map_values(|m: Mutation| m@)
}

/// The store as a map from keys to values.
pub type StoreView = Map<Seq<u8>, Seq<u8>>;

pub open spec fn in_range(k: Seq<u8>, begin: Seq<u8>, end: Seq<u8>) -> bool {
    bytes_le(begin, k) && bytes_lt(k, end)
}

pub open spec fn apply_op(m: StoreView, op: MutationView) -> StoreView {
    match op {
        MutationView::Put { key, value } => m.insert(key, value),
        MutationView::Clear { key } => m.remove(key),
        MutationView::ClearRange { begin, end } => m.restrict(
            m.dom().filter(|k: Seq<u8>| !in_range(k, begin, end)),
        ),
    }
}

pub open spec fn apply_ops(m: StoreView, ops: Seq<MutationView>) -> StoreView
    decreases ops.len(),
{
    if ops.len() == 0 {
        m
    } else {
        apply_ops(apply_op(m, ops[0]), ops.drop_first())
    }
}

/// The store after a transaction that ended in `r`: its mutations on
/// success, nothing on an error.
pub open spec fn commit(m: StoreView, r: Result<Seq<MutationView>, AnyErr>) -> StoreView {
    match r {
        Ok(ops) => apply_ops(m, ops),
        Err(_) => m,
    }
}

pub open spec fn result_view(r: Result<Vec<Mutation>, AnyErr>) -> Result<
    Seq<MutationView>,
    AnyErr,
> {
    match r {
        Ok(v) => Ok(ops_view(v@)),
        Err(e) => Err(e),
    }
}

/// What a join decides, given the presence record it read.
pub open spec fn spec_init_tx(
    room: Seq<char>,
    username: Seq<char>,
    existing: Option<Seq<u8>>,
    id: Seq<u8>,
) -> Result<Seq<MutationView>, AnyErr> {
    match existing {
        Some(_) => Err(AnyErr::Any(AppError::UsernameTaken)),
        None => Ok(
            seq![MutationView::Put { key: spec_user_key(room, username), value: id_element(id) }],
        ),
    }
}

/// What a leave decides, given the presence record it read.
pub open spec fn spec_leave_tx(
    room: Seq<char>,
    username: Seq<char>,
    id: Option<Seq<u8>>,
    stored: Option<Seq<u8>>,
) -> Result<Seq<MutationView>, AnyErr> {
    match id {
        None => Ok(seq![]),
        Some(own) => match stored {
            None => Err(AnyErr::Any(AppError::PresenceMissing)),
            Some(v) => if v == id_element(own) {
                Ok(seq![MutationView::Clear { key: spec_user_key(room, username) }])
            } else if v.len() == 17 && v[0] == 0x30u8 {
                Err(AnyErr::Any(AppError::IdentityMismatch))
            } else {
                Err(AnyErr::Any(AppError::MalformedKey))
            },
        },
    }
}

/// What a write of `text` at `t` sets: the message record and the marker.
pub open spec fn spec_write_ops(room: Seq<char>, t: Stamp, text: Seq<char>) -> Seq<MutationView> {
    seq![
        MutationView::Put { key: spec_message_key(room, t.text()), value: encode_utf8(text) },
        MutationView::Put { key: spec_recent_key(room), value: encode_utf8(t.text()) },
    ]
}

/// `key` and `value` are the record of a message of `room` at `t` with
/// text `text`.
pub open spec fn is_message_record(
    room: Seq<char>,
    key: Seq<u8>,
    value: Seq<u8>,
    t: Stamp,
    text: Seq<char>,
) -> bool {
    t.wf() && key == spec_message_key(room, t.text()) && value == encode_utf8(text)
}

pub open spec fn is_message_key(room: Seq<char>, key: Seq<u8>) -> bool {
    exists|t: Stamp| t.wf() && #[trigger] spec_message_key(room, t.text()) == key
}

/// The error that reading `key` and `value` as a message record of `room`
/// ends in, if any.
pub open spec fn record_error(room: Seq<char>, key: Seq<u8>, value: Seq<u8>) -> Option<AnyErr> {
    if !is_message_key(room, key) {
        Some(AnyErr::Any(AppError::MalformedKey))
    } else if !valid_utf8(value) {
        Some(AnyErr::Any(AppError::MalformedText))
    } else {
        None
    }
}

/// `entries` are the records `kvs` read as messages of `room`, one for one.
pub open spec fn entries_of(
    room: Seq<char>,
    kvs: Seq<(Vec<u8>, Vec<u8>)>,
    entries: Seq<(Stamp, String)>,
) -> bool {
    &&& entries.len() == kvs.len()
    &&& forall|i: int|
        0 <= i < kvs.len() ==> is_message_record(
            room,
            (#[trigger] kvs[i]).0@,
            kvs[i].1@,
            entries[i].0,
            entries[i].1@,
        )
}

/// Reading `kvs` as messages of `room` ends in `e` at record `i`: the
/// records before it are messages.
pub open spec fn fails_at(room: Seq<char>, kvs: Seq<(Vec<u8>, Vec<u8>)>, i: int, e: AnyErr) -> bool {
    &&& 0 <= i < kvs.len()
    &&& record_error(room, kvs[i].0@, kvs[i].1@) == Some(e)
    &&& forall|j: int|
        0 <= j < i ==> record_error(room, (#[trigger] kvs[j]).0@, kvs[j].1@) is None
}

pub open spec fn all_records(room: Seq<char>, kvs: Seq<(Vec<u8>, Vec<u8>)>) -> bool {
    forall|j: int| 0 <= j < kvs.len() ==> record_error(room, (#[trigger] kvs[j]).0@, kvs[j].1@) is None
}

/// A range read: the keys after `begin` (strictly when `after`) and before
/// `end`, at most `limit` of them.
#[derive(Clone, Debug)]
pub struct RangeRead {
    pub begin: Vec<u8>,
    pub after: bool,
    pub end: Vec<u8>,
    pub limit: Option<usize>,
}

/// What a poll for new messages found: messages, or the key to watch.
#[derive(Clone, Debug)]
pub enum Polled {
    Messages(Vec<(Stamp, String)>),
    Watch(Vec<u8>),
}

/// Relies on std::str::from_utf8: it succeeds exactly on valid UTF-8.
#[verifier::external_body]
fn text_from_utf8(b: &[u8]) -> (r: Option<String>)
    ensures
        match r {
            Some(s) => valid_utf8(b@) && s@ == decode_utf8(b@),
            None => !valid_utf8(b@),
        },
{
    match std::str::from_utf8(b) {
        Ok(s) => Some(s.to_string()),
        Err(_) => None,
    }
}

/// Relies on uuid::Uuid::new_v4: sixteen bytes drawn at random.
#[verifier::external_body]
fn fresh_uuid() -> (r: [u8; 16]) {
    uuid::Uuid::new_v4().into_bytes()
}

/// A live or departed member of a room.
pub struct Session {
    pub room: String,
    pub username: String,
    /// The identifier written in the presence record; `None` after leaving.
    pub id: Option<[u8; 16]>,
}

pub open spec fn id_view(id: Option<[u8; 16]>) -> Option<Seq<u8>> {
    match id {
        Some(v) => Some(v@),
        None => None,
    }
}

impl Session {
    /// The room and the name are short enough to stand in keys.
    pub open spec fn wf(&self) -> bool {
        fits(self.room@) && fits(self.username@)
    }

    /// Key of the presence record of `username` in `room`.
    pub fn user_key(room: &str, username: &str) -> (r: Vec<u8>)
        requires
            fits(room@),
            fits(username@),

        ensures
            r@ == spec_user_key(room@, username@),
    {
        user_key(room, username)
    }

    /// The text of a timestamp, as message keys hold it.
    pub fn date_string(dt: &Stamp) -> (r: String)
        requires
            dt.wf(),
        ensures
            r@ == dt.text(),
    {
        dt.to_text()
    }

    /// Key of the message record of `room` at `dt`.
    pub fn message_key(room: &str, dt: &Stamp) -> (r: Vec<u8>)
        requires
            fits(room@),
            dt.wf(),
        ensures
            r@ == spec_message_key(room@, dt.text()),
    {
        let s = dt.to_text();
        proof {
            crate::stamp::lemma_text_fits(*dt);
        }
        message_key(room, s.as_str())
    }

    /// Key of the most-recent-message marker of `room`.
    pub fn message_recent_key(room: &str) -> (r: Vec<u8>)
        requires
            fits(room@),

        ensures
            r@ == spec_recent_key(room@),
    {
        recent_key(room)
    }

    /// A fresh identifier for a join.
    pub fn new_id() -> (r: [u8; 16]) {
        fresh_uuid()
    }

    /// The join transaction's decision, given the presence record it read
    /// (at full isolation, so that a concurrent join conflicts): a record
    /// already there ends it with `UsernameTaken`; else it writes `id`.
    pub fn init_tx(room: &str, username: &str, existing: Option<&[u8]>, id: &[u8; 16]) -> (r:
        Result<Vec<Mutation>, AnyErr>)
        requires
            fits(room@),
            fits(username@),

        ensures
            result_view(r) == spec_init_tx(
                room@,
                username@,
                match existing {
                    Some(v) => Some(v@),
                    None => None,
                },
                id@,
            ),
    {
        match existing {
            Some(_) => Err(AnyErr::Any(AppError::UsernameTaken)),
            None => {
                let key = user_key(room, username);
                let value = id_value(id);
                let mut ops: Vec<Mutation> = Vec::new();
                ops.push(Mutation::Put { key, value });
                assert(ops_view(ops@) =~= seq![
                    MutationView::Put { key: spec_user_key(room@, username@), value: id_element(id@) },
                ]);
                Ok(ops)
            },
        }
    }

    /// The session that a committed join opened.
    pub fn init(room: String, username: String, id: [u8; 16]) -> (r: Session)
        requires
            fits(room@),
            fits(username@),

        ensures
            r.room@ == room@,
            r.username@ == username@,
            r.id == Some(id),
            r.wf(),
    {
        Session { room, username, id: Some(id) }
    }

    /// Clearing the room: every key under it, presence records, messages and
    /// the marker.
    pub fn clear(&self) -> (r: Vec<Mutation>)
        requires
            self.wf(),

        ensures
            ops_view(r@) == seq![
                MutationView::ClearRange {
                    begin: spec_room_prefix(self.room@).push(0u8),
                    end: spec_room_prefix(self.room@).push(0xffu8),
                },
            ],
    {
        let (begin, end) = room_range(self.room.as_str());
        let mut ops: Vec<Mutation> = Vec::new();
        ops.push(Mutation::ClearRange { begin, end });
        assert(ops_view(ops@) =~= seq![
            MutationView::ClearRange {
                begin: spec_room_prefix(self.room@).push(0u8),
                end: spec_room_prefix(self.room@).push(0xffu8),
            },
        ]);
        ops
    }

    /// The leave transaction's decision, given the presence record it read:
    /// nothing after a leave; the record is cleared only when it holds this
    /// session's identifier.
    pub fn leave_tx(&self, stored: Option<&[u8]>) -> (r: Result<Vec<Mutation>, AnyErr>)
        requires
            self.wf(),

        ensures
            result_view(r) == spec_leave_tx(
                self.room@,
                self.username@,
                id_view(self.id),
                match stored {
                    Some(v) => Some(v@),
                    None => None,
                },
            ),
    {
        let own = match &self.id {
            None => {
                let ops: Vec<Mutation> = Vec::new();
                assert(ops_view(ops@) =~= seq![]);
                return Ok(ops);
            },
            Some(v) => v,
        };
        let v = match stored {
            None => return Err(AnyErr::Any(AppError::PresenceMissing)),
            Some(v) => v,
        };
        let dbid = match decode_id(v) {
            None => {
                assert(v@ != id_element(own@));
                return Err(AnyErr::Any(AppError::MalformedKey));
            },
            Some(d) => d,
        };
        let mine = id_value(own);
        let theirs = id_value(&dbid);
        if !bytes_eq(mine.as_slice(), theirs.as_slice()) {
            return Err(AnyErr::Any(AppError::IdentityMismatch));
        }
        let key = user_key(self.room.as_str(), self.username.as_str());
        let mut ops: Vec<Mutation> = Vec::new();
        ops.push(Mutation::Clear { key });
        assert(ops_view(ops@) =~= seq![
            MutationView::Clear { key: spec_user_key(self.room@, self.username@) },
        ]);
        Ok(ops)
    }

    /// Leaving: the leave transaction's decision; once it is taken the
    /// session holds no identifier.
    pub fn leave(&mut self, stored: Option<&[u8]>) -> (r: Result<Vec<Mutation>, AnyErr>)
        requires
            old(self).wf(),

        ensures
            result_view(r) == spec_leave_tx(
                old(self).room@,
                old(self).username@,
                id_view(old(self).id),
                match stored {
                    Some(v) => Some(v@),
                    None => None,
                },
            ),
            final(self).wf(),
            final(self).room == old(self).room,
            final(self).username == old(self).username,
            final(self).id == (if r is Ok {
                None
            } else {
                old(self).id
            }),
    {
        let r = self.leave_tx(stored);
        if r.is_ok() {
            self.id = None;
        }
        r
    }

    /// Writing `message` at `dt`: the message record and, in the same
    /// transaction, the marker set to `dt`'s text.
    pub fn write(&self, dt: &Stamp, message: &str) -> (r: Vec<Mutation>)
        requires
            self.wf(),
            dt.wf(),
        ensures
            ops_view(r@) == spec_write_ops(self.room@, *dt, message@),
    {
        let ts = dt.to_text();
        proof {
            crate::stamp::lemma_text_fits(*dt);
        }
        let key = message_key(self.room.as_str(), ts.as_str());
        let recent = recent_key(self.room.as_str());
        let value = vstd::slice::slice_to_vec(message.as_bytes());
        let stamp = vstd::slice::slice_to_vec(ts.as_str().as_bytes());
        let mut ops: Vec<Mutation> = Vec::new();
        ops.push(Mutation::Put { key, value });
        ops.push(Mutation::Put { key: recent, value: stamp });
        assert(ops_view(ops@) =~= spec_write_ops(self.room@, *dt, message@));
        ops
    }

    /// The range of the room's messages after `last` (all of them for
    /// `None`), at most `limit` of them.
    pub fn message_range(&self, last: Option<Stamp>, limit: Option<usize>) -> (r: RangeRead)
        requires
            self.wf(),
            last matches Some(t) ==> t.wf(),
        ensures
            r.end@ == spec_messages_prefix(self.room@).push(0xffu8),
            r.limit == limit,
            match last {
                None => !r.after && r.begin@ == spec_messages_prefix(self.room@).push(0u8),
                Some(t) => r.after && r.begin@ == spec_message_key(self.room@, t.text()),
            },
    {
        let (first, end) = messages_range(self.room.as_str());
        match last {
            None => RangeRead { begin: first, after: false, end, limit },
            Some(t) => {
                let key = Session::message_key(self.room.as_str(), &t);
                RangeRead { begin: key, after: true, end, limit }
            },
        }
    }

    /// Reads one stored record as a message of `room`: a key in the message
    /// schema of this room, and UTF-8 text.
    pub fn parse_kv(room: &str, key: &[u8], value: &[u8]) -> (r: Result<(Stamp, String), AnyErr>)
        requires
            fits(room@),

        ensures
            match r {
                Ok(e) => is_message_record(room@, key@, value@, e.0, e.1@),
                Err(e) => record_error(room@, key@, value@) == Some(e),
            },
    {
        let parts = decode_key4(key);
        proof {
            if is_message_key(room@, key@) {
                let t = choose|t: Stamp| t.wf() && #[trigger] spec_message_key(room@, t.text()) == key@;
                lemma_str_tuple_round_trip(seq![rooms_tag(), room@, messages_tag(), t.text()]);
            }
        }
        let ts = match parts {
            None => return Err(AnyErr::Any(AppError::MalformedKey)),
            Some((_, _, _, ts)) => ts,
        };
        let t = match Stamp::from_text(ts.as_str()) {
            None => return Err(AnyErr::Any(AppError::MalformedKey)),
            Some(t) => t,
        };
        let expected = Session::message_key(room, &t);
        if !bytes_eq(expected.as_slice(), key) {
            return Err(AnyErr::Any(AppError::MalformedKey));
        }
        match text_from_utf8(value) {
            None => Err(AnyErr::Any(AppError::MalformedText)),
            Some(s) => {
                assert(encode_utf8(decode_utf8(value@)) == value@) by {
                    decode_utf8_encode_utf8(value@);
                }
                Ok((t, s))
            },
        }
    }

    /// Reads the records of a range read of this room as messages, in order;
    /// the first record that is not a message ends it in an error.
    pub fn parse_kvs(&self, kvs: &Vec<(Vec<u8>, Vec<u8>)>) -> (r: Result<Vec<(Stamp, String)>, AnyErr>)
        requires
            self.wf(),

        ensures
            match r {
                Ok(v) => entries_of(self.room@, kvs@, v@),
                Err(e) => exists|i: int| fails_at(self.room@, kvs@, i, e),
            },
    {
        let mut out: Vec<(Stamp, String)> = Vec::new();
        let mut i: usize = 0;
        while i < kvs.len()
            invariant
                self.wf(),
                0 <= i <= kvs@.len(),
                out@.len() == i,
                forall|j: int|
                    0 <= j < i ==> is_message_record(
                        self.room@,
                        (#[trigger] kvs@[j]).0@,
                        kvs@[j].1@,
                        out@[j].0,
                        out@[j].1@,
                    ),
            decreases kvs@.len() - i,
        {
            let kv = &kvs[i];
            match Session::parse_kv(self.room.as_str(), kv.0.as_slice(), kv.1.as_slice()) {
                Ok(e) => {
                    out.push(e);
                },
                Err(e) => {
                    assert forall|j: int| 0 <= j < i implies record_error(
                        self.room@,
                        (#[trigger] kvs@[j]).0@,
                        kvs@[j].1@,
                    ) is None by {
                        let t = out@[j].0;
                        assert(t.wf() && spec_message_key(self.room@, t.text()) == kvs@[j].0@);
                    }
                    assert(fails_at(self.room@, kvs@, i as int, e));
                    return Err(e);
                },
            }
            i = i + 1;
        }
        Ok(out)
    }

    /// Every message of a range read of this room, in key order.
    pub fn read_all(&self, kvs: &Vec<(Vec<u8>, Vec<u8>)>) -> (r: Result<Vec<(Stamp, String)>, AnyErr>)
        requires
            self.wf(),

        ensures
            match r {
                Ok(v) => entries_of(self.room@, kvs@, v@),
                Err(e) => exists|i: int| fails_at(self.room@, kvs@, i, e),
            },
    {
        self.parse_kvs(kvs)
    }

    /// The messages of a range read of this room, and the key of the marker
    /// to watch for the next one.
    pub fn read_all_and_watch(&self, kvs: &Vec<(Vec<u8>, Vec<u8>)>) -> (r: Result<
        (Vec<(Stamp, String)>, Vec<u8>),
        AnyErr,
    >)
        requires
            self.wf(),

        ensures
            match r {
                Ok((v, w)) => entries_of(self.room@, kvs@, v@) && w@ == spec_recent_key(self.room@),
                Err(e) => exists|i: int| fails_at(self.room@, kvs@, i, e),
            },
    {
        let messages = self.parse_kvs(kvs)?;
        Ok((messages, recent_key(self.room.as_str())))
    }

    /// The poll's decision, given what its range read found: the messages when
    /// there are any; else the marker, which the same transaction must watch
    /// so that no write after the read goes unseen.
    pub fn messages_or_watch(&self, kvs: &Vec<(Vec<u8>, Vec<u8>)>) -> (r: Result<Polled, AnyErr>)
        requires
            self.wf(),

        ensures
            kvs@.len() == 0 ==> (r matches Ok(Polled::Watch(w)) && w@ == spec_recent_key(
                self.room@,
            )),
            kvs@.len() > 0 ==> match r {
                Ok(Polled::Messages(v)) => entries_of(self.room@, kvs@, v@),
                Ok(Polled::Watch(_)) => false,
                Err(e) => exists|i: int| fails_at(self.room@, kvs@, i, e),
            },
    {
        if kvs.len() == 0 {
            return Ok(Polled::Watch(recent_key(self.room.as_str())));
        }
        let messages = self.parse_kvs(kvs)?;
        Ok(Polled::Messages(messages))
    }
}

} // verus!
