//! A cursor over a room's messages: it hands out a buffered page one message
//! at a time, and when the page is spent asks for a poll after the last
//! message it has seen.
use crate::session::{RangeRead, Session};
use crate::stamp::Stamp;
use std::collections::VecDeque;
use vstd::prelude::*;

verus! {

/// How many messages one poll asks for.
pub const PAGE_SIZE: usize = 3;

/// What the cursor needs next: nothing (a message is ready), or a poll of
/// this range.
#[derive(Debug)]
pub enum IterStep {
    Ready((Stamp, String)),
    Poll(RangeRead),
}

/// `r` reads the messages of `room` after `last`, at most `limit` of them.
pub open spec fn is_range_after(
    room: Seq<char>,
    last: Option<Stamp>,
    limit: Option<usize>,
    r: RangeRead,
) -> bool {
    &&& r.end@ == crate::keys::spec_messages_prefix(room).push(0xffu8)
    &&& r.limit == limit
    &&& match last {
        None => !r.after && r.begin@ == crate::keys::spec_messages_prefix(room).push(0u8),
        Some(t) => r.after && r.begin@ == crate::keys::spec_message_key(room, t.text()),
    }
}

pub struct MessageIter {
    /// The stamp of the last message taken into the buffer.
    pub last: Option<Stamp>,
    /// Messages read and not yet handed out, earliest first.
    pub waiting: VecDeque<(Stamp, String)>,
}

impl MessageIter {
    pub open spec fn wf(&self) -> bool {
        &&& self.last matches Some(t) ==> t.wf()
        &&& forall|i: int| 0 <= i < self.waiting@.len() ==> (#[trigger] self.waiting@[i]).0.wf()
    }

    /// A cursor that starts after `last` (at the first message for `None`).
    pub fn new(last: Option<Stamp>) -> (r: MessageIter)
        requires
            last matches Some(t) ==> t.wf(),
        ensures
            r.wf(),
            r.last == last,
            r.waiting@.len() == 0,
    {
        MessageIter { last, waiting: VecDeque::new() }
    }

    /// The next step: the earliest buffered message, or, with the buffer
    /// empty, a poll for a page after the last message seen.
    pub fn next(&mut self, session: &Session) -> (r: IterStep)
        requires
            old(self).wf(),
            session.wf(),
        ensures
            final(self).wf(),
            old(self).waiting@.len() > 0 ==> r == IterStep::Ready(old(self).waiting@[0])
                && final(self).waiting@ == old(self).waiting@.drop_first() && final(self).last
                == old(self).last,
            old(self).waiting@.len() == 0 ==> (r matches IterStep::Poll(rr) && is_range_after(
                session.room@,
                old(self).last,
                Some(PAGE_SIZE),
                rr,
            )) && final(self).waiting@ == old(self).waiting@ && final(self).last == old(self).last,
    {
        match self.waiting.pop_front() {
            Some(m) => {
                assert(self.waiting@ =~= old(self).waiting@.drop_first());
                IterStep::Ready(m)
            },
            None => IterStep::Poll(session.message_range(self.last, Some(PAGE_SIZE))),
        }
    }

    /// Takes a non-empty page from a poll: buffers it, remembers its last
    /// stamp, and hands out its first message.
    pub fn refill(&mut self, messages: Vec<(Stamp, String)>) -> (r: (Stamp, String))
        requires
            old(self).wf(),
            old(self).waiting@.len() == 0,
            messages@.len() > 0,
            forall|i: int| 0 <= i < messages@.len() ==> (#[trigger] messages@[i]).0.wf(),
        ensures
            final(self).wf(),
            r == messages@[0],
            final(self).waiting@ == messages@.drop_first(),
            final(self).last == Some(messages@[messages@.len() - 1].0),
    {
        let n = messages.len();
        self.last = Some(messages[n - 1].0);
        let mut rest = messages;
        let first = rest.remove(0);
        while rest.len() > 0
            invariant
                self.waiting@ + rest@ == messages@.drop_first(),
                self.last == Some(messages@[messages@.len() - 1].0),
            decreases rest@.len(),
        {
            let ghost before = self.waiting@;
            let e = rest.remove(0);
            self.waiting.push_back(e);
            assert(self.waiting@ + rest@ =~= before + (seq![e] + rest@));
        }
        assert(self.waiting@ =~= messages@.drop_first());
        assert forall|j: int| 0 <= j < self.waiting@.len() implies (#[trigger] self.waiting@[j]).0.wf() by {
            assert(self.waiting@[j] == messages@[j + 1]);
        }
        first
    }
}

} // verus!
