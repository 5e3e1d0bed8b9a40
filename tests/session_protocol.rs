use std::collections::BTreeMap;

use fdb_chat::iter::{IterStep, MessageIter};
use fdb_chat::keys::{id_value, message_key, recent_key, user_key};
use fdb_chat::session::{AnyErr, AppError, Mutation, Polled, RangeRead, Session, TransactOption};
use fdb_chat::stamp::Stamp;

/// An ordered key-value store in memory, standing in for the real one.
struct Store {
    rows: BTreeMap<Vec<u8>, Vec<u8>>,
}

impl Store {
    fn new() -> Store {
        Store { rows: BTreeMap::new() }
    }

    fn get(&self, key: &[u8]) -> Option<Vec<u8>> {
        self.rows.get(key).cloned()
    }

    fn apply(&mut self, ops: &[Mutation]) {
        for op in ops {
            match op {
                Mutation::Put { key, value } => {
                    self.rows.insert(key.clone(), value.clone());
                }
                Mutation::Clear { key } => {
                    self.rows.remove(key);
                }
                Mutation::ClearRange { begin, end } => {
                    let doomed: Vec<Vec<u8>> = self
                        .rows
                        .keys()
                        .filter(|k| *k >= begin && *k < end)
                        .cloned()
                        .collect();
                    for k in doomed {
                        self.rows.remove(&k);
                    }
                }
            }
        }
    }

    fn scan(&self, r: &RangeRead) -> Vec<(Vec<u8>, Vec<u8>)> {
        let mut out = Vec::new();
        for (k, v) in &self.rows {
            let above = if r.after { *k > r.begin } else { *k >= r.begin };
            if above && *k < r.end {
                if let Some(l) = r.limit {
                    if out.len() == l {
                        break;
                    }
                }
                out.push((k.clone(), v.clone()));
            }
        }
        out
    }

    fn join(&mut self, room: &str, username: &str, id: [u8; 16]) -> Result<Session, AnyErr> {
        let existing = self.get(&Session::user_key(room, username));
        let ops = Session::init_tx(room, username, existing.as_deref(), &id)?;
        self.apply(&ops);
        Ok(Session::init(room.to_string(), username.to_string(), id))
    }

    fn leave(&mut self, s: &mut Session) -> Result<(), AnyErr> {
        let stored = self.get(&Session::user_key(&s.room, &s.username));
        let ops = s.leave(stored.as_deref())?;
        self.apply(&ops);
        Ok(())
    }

    fn read_all(&self, s: &Session) -> Result<Vec<(Stamp, String)>, AnyErr> {
        let kvs = self.scan(&s.message_range(None, None));
        s.read_all(&kvs)
    }
}

fn at(second: u32, milli: u32) -> Stamp {
    Stamp::new(2024, 5, 6, 7, 8, second, milli).unwrap()
}

#[test]
fn chat_opts_policy() {
    let o = TransactOption::chat();
    assert_eq!(o.retry_limit, Some(3));
    assert_eq!(o.time_out, None);
    assert!(!o.is_idempotent);
}

#[test]
fn only_store_errors_are_retried_up_to_the_limit() {
    let o = TransactOption::chat();
    let store = AnyErr::Fdb(1020);
    assert!(o.can_retry(&store, 1, false, false));
    assert!(o.can_retry(&store, 3, false, false));
    assert!(!o.can_retry(&store, 4, false, false));
    assert!(!o.can_retry(&store, 1, true, false));
    assert!(!o.can_retry(&store, 1, false, true));
    assert!(!o.can_retry(&AnyErr::Any(AppError::UsernameTaken), 1, false, false));
    let idem = TransactOption { retry_limit: None, time_out: None, is_idempotent: true };
    assert!(idem.can_retry(&store, 1000, true, false));
}

#[test]
fn store_error_code_is_taken_out() {
    assert_eq!(AnyErr::Fdb(1007).try_into_fdb_error(), Ok(1007));
    let app = AnyErr::Any(AppError::MalformedKey);
    assert_eq!(app.try_into_fdb_error(), Err(app));
}

#[test]
fn join_writes_the_presence_record() {
    let id = [3u8; 16];
    let ops = Session::init_tx("r1", "alice", None, &id).unwrap();
    assert_eq!(ops.len(), 1);
    match &ops[0] {
        Mutation::Put { key, value } => {
            assert_eq!(*key, user_key("r1", "alice"));
            assert_eq!(*value, id_value(&id));
        }
        other => panic!("unexpected {:?}", other),
    }
}

#[test]
fn join_of_a_taken_name_fails() {
    let r = Session::init_tx("r1", "alice", Some(&[0x30u8; 17][..]), &[1u8; 16]);
    assert_eq!(r.unwrap_err(), AnyErr::Any(AppError::UsernameTaken));
}

#[test]
fn second_join_of_a_live_name_fails() {
    let mut store = Store::new();
    let a = store.join("r1", "alice", [1u8; 16]).unwrap();
    assert_eq!(a.id, Some([1u8; 16]));
    let second = store.join("r1", "alice", [2u8; 16]);
    assert_eq!(second.err(), Some(AnyErr::Any(AppError::UsernameTaken)));
    assert!(store.join("r1", "bob", [2u8; 16]).is_ok());
    assert!(store.join("r2", "alice", [2u8; 16]).is_ok());
}

#[test]
fn leave_of_a_superseded_session_fails_and_keeps_the_record() {
    let mut store = Store::new();
    let mut stale = store.join("r1", "alice", [1u8; 16]).unwrap();
    // someone cleared the record and the name was claimed again
    store.apply(&[Mutation::Clear { key: user_key("r1", "alice") }]);
    let _fresh = store.join("r1", "alice", [9u8; 16]).unwrap();
    let r = store.leave(&mut stale);
    assert_eq!(r, Err(AnyErr::Any(AppError::IdentityMismatch)));
    assert_eq!(store.get(&user_key("r1", "alice")), Some(id_value(&[9u8; 16])));
    assert_eq!(stale.id, Some([1u8; 16]));
}

#[test]
fn leave_decisions() {
    let s = Session::init("r1".to_string(), "alice".to_string(), [5u8; 16]);
    let mine = id_value(&[5u8; 16]);
    let ops = s.leave_tx(Some(&mine)).unwrap();
    assert_eq!(ops.len(), 1);
    assert!(matches!(&ops[0], Mutation::Clear { key } if *key == user_key("r1", "alice")));
    assert_eq!(s.leave_tx(None).unwrap_err(), AnyErr::Any(AppError::PresenceMissing));
    assert_eq!(s.leave_tx(Some(&[1, 2, 3])).unwrap_err(), AnyErr::Any(AppError::MalformedKey));
    let theirs = id_value(&[6u8; 16]);
    assert_eq!(s.leave_tx(Some(&theirs)).unwrap_err(), AnyErr::Any(AppError::IdentityMismatch));
    let gone = Session { room: "r1".to_string(), username: "alice".to_string(), id: None };
    assert!(gone.leave_tx(Some(&theirs)).unwrap().is_empty());
}

#[test]
fn leave_twice_is_a_no_op() {
    let mut store = Store::new();
    let mut s = store.join("r1", "alice", [1u8; 16]).unwrap();
    assert_eq!(store.leave(&mut s), Ok(()));
    assert_eq!(s.id, None);
    assert_eq!(store.leave(&mut s), Ok(()));
}

#[test]
fn write_sets_message_and_marker() {
    let s = Session::init("r1".to_string(), "alice".to_string(), [5u8; 16]);
    let t = at(1, 2);
    let ops = s.write(&t, "hello");
    assert_eq!(ops.len(), 2);
    match (&ops[0], &ops[1]) {
        (Mutation::Put { key: k1, value: v1 }, Mutation::Put { key: k2, value: v2 }) => {
            assert_eq!(*k1, message_key("r1", "2024-05-06T07:08:01.002Z"));
            assert_eq!(*v1, b"hello".to_vec());
            assert_eq!(*k2, recent_key("r1"));
            assert_eq!(*v2, b"2024-05-06T07:08:01.002Z".to_vec());
        }
        other => panic!("unexpected {:?}", other),
    }
}

#[test]
fn read_after_write_ends_with_the_message() {
    let mut store = Store::new();
    let s = store.join("r1", "alice", [1u8; 16]).unwrap();
    store.apply(&s.write(&at(1, 0), "first"));
    store.apply(&s.write(&at(2, 0), "hello"));
    let all = store.read_all(&s).unwrap();
    assert_eq!(all.len(), 2);
    assert_eq!(all[1], (at(2, 0), "hello".to_string()));
    let after = store.scan(&s.message_range(Some(at(1, 0)), None));
    assert_eq!(s.read_all(&after).unwrap(), vec![(at(2, 0), "hello".to_string())]);
}

#[test]
fn parse_kv_errors() {
    let key = message_key("r1", "2024-05-06T07:08:01.002Z");
    assert_eq!(
        Session::parse_kv("r1", &key, b"hi"),
        Ok((at(1, 2), "hi".to_string()))
    );
    assert_eq!(
        Session::parse_kv("r1", &key, &[0xff, 0xfe]),
        Err(AnyErr::Any(AppError::MalformedText))
    );
    assert_eq!(
        Session::parse_kv("r2", &key, b"hi"),
        Err(AnyErr::Any(AppError::MalformedKey))
    );
    let odd = message_key("r1", "2024-05-06T07:08:01.002+00:00");
    assert_eq!(
        Session::parse_kv("r1", &odd, b"hi"),
        Err(AnyErr::Any(AppError::MalformedKey))
    );
    assert_eq!(
        Session::parse_kv("r1", &recent_key("r1"), b"hi"),
        Err(AnyErr::Any(AppError::MalformedKey))
    );
}

#[test]
fn a_malformed_record_fails_the_read() {
    let mut store = Store::new();
    let s = store.join("r1", "alice", [1u8; 16]).unwrap();
    store.apply(&s.write(&at(1, 0), "fine"));
    store.apply(&[Mutation::Put {
        key: message_key("r1", "garbage"),
        value: b"x".to_vec(),
    }]);
    assert_eq!(store.read_all(&s), Err(AnyErr::Any(AppError::MalformedKey)));
}

#[test]
fn empty_poll_watches_and_a_write_wakes_it() {
    let mut store = Store::new();
    let s = store.join("r1", "alice", [1u8; 16]).unwrap();
    let range = s.message_range(None, Some(1));
    let first = s.messages_or_watch(&store.scan(&range)).unwrap();
    let watched = match first {
        Polled::Watch(k) => k,
        other => panic!("expected a watch, got {:?}", other),
    };
    assert_eq!(watched, recent_key("r1"));
    let before = store.get(&watched);
    store.apply(&s.write(&at(3, 0), "new"));
    assert_ne!(store.get(&watched), before);
    match s.messages_or_watch(&store.scan(&range)).unwrap() {
        Polled::Messages(v) => assert_eq!(v, vec![(at(3, 0), "new".to_string())]),
        other => panic!("expected messages, got {:?}", other),
    }
}

#[test]
fn read_all_and_watch_gives_the_marker() {
    let mut store = Store::new();
    let s = store.join("r1", "alice", [1u8; 16]).unwrap();
    store.apply(&s.write(&at(1, 0), "a"));
    let kvs = store.scan(&s.message_range(None, None));
    let (msgs, watch) = s.read_all_and_watch(&kvs).unwrap();
    assert_eq!(msgs, vec![(at(1, 0), "a".to_string())]);
    assert_eq!(watch, recent_key("r1"));
}

fn drain(store: &Store, s: &Session, it: &mut MessageIter) -> Option<(Stamp, String)> {
    match it.next(s) {
        IterStep::Ready(m) => Some(m),
        IterStep::Poll(range) => match s.messages_or_watch(&store.scan(&range)).unwrap() {
            Polled::Messages(v) => Some(it.refill(v)),
            Polled::Watch(_) => None,
        },
    }
}

#[test]
fn cursor_yields_every_message_in_order_then_waits() {
    let mut store = Store::new();
    let s = store.join("r1", "alice", [1u8; 16]).unwrap();
    let n: u32 = 7;
    for i in 0..n {
        store.apply(&s.write(&at(i, 10 * i), &format!("m{}", i)));
    }
    let mut it = MessageIter::new(None);
    for i in 0..n {
        assert_eq!(drain(&store, &s, &mut it), Some((at(i, 10 * i), format!("m{}", i))));
    }
    assert_eq!(drain(&store, &s, &mut it), None);
    store.apply(&s.write(&at(30, 0), "late"));
    assert_eq!(drain(&store, &s, &mut it), Some((at(30, 0), "late".to_string())));
    assert_eq!(drain(&store, &s, &mut it), None);
}

#[test]
fn cursor_starts_after_the_given_stamp() {
    let mut store = Store::new();
    let s = store.join("r1", "alice", [1u8; 16]).unwrap();
    store.apply(&s.write(&at(1, 0), "old"));
    store.apply(&s.write(&at(2, 0), "new"));
    let mut it = MessageIter::new(Some(at(1, 0)));
    assert_eq!(drain(&store, &s, &mut it), Some((at(2, 0), "new".to_string())));
    assert_eq!(drain(&store, &s, &mut it), None);
}

#[test]
fn room_scenario_join_write_leave_clear() {
    let mut store = Store::new();
    let mut alice = store.join("r1", "alice", [1u8; 16]).unwrap();
    assert_eq!(
        store.join("r1", "alice", [2u8; 16]).err(),
        Some(AnyErr::Any(AppError::UsernameTaken))
    );
    let t1 = at(1, 0);
    store.apply(&alice.write(&t1, "hi"));
    assert_eq!(store.read_all(&alice).unwrap(), vec![(t1, "hi".to_string())]);
    store.leave(&mut alice).unwrap();
    assert_eq!(store.get(&user_key("r1", "alice")), None);
    store.apply(&alice.clear());
    assert_eq!(store.read_all(&alice).unwrap(), vec![]);
    assert_eq!(store.get(&recent_key("r1")), None);
}

#[test]
fn clear_leaves_other_rooms_alone() {
    let mut store = Store::new();
    let a = store.join("r1", "alice", [1u8; 16]).unwrap();
    let b = store.join("r10", "bob", [2u8; 16]).unwrap();
    store.apply(&a.write(&at(1, 0), "x"));
    store.apply(&b.write(&at(1, 0), "y"));
    store.apply(&a.clear());
    assert_eq!(store.read_all(&a).unwrap(), vec![]);
    assert_eq!(store.read_all(&b).unwrap(), vec![(at(1, 0), "y".to_string())]);
    assert!(store.get(&user_key("r10", "bob")).is_some());
    assert!(store.get(&user_key("r1", "alice")).is_none());
}
