//! The foreground handle's bookkeeping.
//!
//! The handle mirrors the worker's connection status in a flag that is
//! updated only while events are drained, so it may lag the worker by one
//! drain.  Draining hands back the message texts in order; the
//! connect/disconnect notifications are consumed internally.

use vstd::prelude::*;

verus! {

use crate::framing::texts_view;
use crate::proto::Event;
use crate::proto::EventV;
use crate::proto::events_view;

/// The connection flag after one event is applied to `flag`.
pub open spec fn next_flag(flag: bool, e: EventV) -> bool {
    match e {
        EventV::PeerConnected => true,
        EventV::PeerDisconnected => false,
        EventV::Message(_) => flag,
    }
}

/// The connection flag after all of `evs` are applied to `flag`, in order.
pub open spec fn flag_after(flag: bool, evs: Seq<EventV>) -> bool
    decreases evs.len(),
{
    if evs.len() == 0 {
        flag
    } else {
        flag_after(next_flag(flag, evs[0]), evs.drop_first())
    }
}

/// The texts of the message events among `evs`, in order.
pub open spec fn message_texts(evs: Seq<EventV>) -> Seq<Seq<char>>
    decreases evs.len(),
{
    if evs.len() == 0 {
        seq![]
    } else {
        let rest = message_texts(evs.drop_first());
        match evs[0] {
            EventV::Message(t) => seq![t] + rest,
            EventV::PeerConnected => rest,
            EventV::PeerDisconnected => rest,
        }
    }
}

/// Every text that draining surfaces comes from a message event of the
/// drained batch: draining invents nothing.
pub proof fn lemma_drained_texts_are_event_messages(evs: Seq<EventV>)
    ensures
        forall|j: int|
            0 <= j < message_texts(evs).len() ==> exists|i: int|
                0 <= i < evs.len() && evs[i] == EventV::Message(#[trigger] message_texts(evs)[j]),
    decreases evs.len(),
{
    if evs.len() == 0 {
    } else {
        let rest = message_texts(evs.drop_first());
        lemma_drained_texts_are_event_messages(evs.drop_first());
        assert forall|j: int| 0 <= j < message_texts(evs).len() implies exists|i: int|
            0 <= i < evs.len() && evs[i] == EventV::Message(#[trigger] message_texts(evs)[j]) by {
            match evs[0] {
                EventV::Message(t) => {
                    if j == 0 {
                        assert(message_texts(evs)[0] == t);
                        assert(evs[0] == EventV::Message(message_texts(evs)[0]));
                    } else {
                        assert(message_texts(evs)[j] == rest[j - 1]);
                        let i = choose|i: int|
                            0 <= i < evs.drop_first().len() && evs.drop_first()[i]
                                == EventV::Message(rest[j - 1]);
                        assert(evs[i + 1] == EventV::Message(message_texts(evs)[j]));
                    }
                },
                EventV::PeerConnected => {
                    assert(message_texts(evs)[j] == rest[j]);
                    let i = choose|i: int|
                        0 <= i < evs.drop_first().len() && evs.drop_first()[i] == EventV::Message(
                            rest[j],
                        );
                    assert(evs[i + 1] == EventV::Message(message_texts(evs)[j]));
                },
                EventV::PeerDisconnected => {
                    assert(message_texts(evs)[j] == rest[j]);
                    let i = choose|i: int|
                        0 <= i < evs.drop_first().len() && evs.drop_first()[i] == EventV::Message(
                            rest[j],
                        );
                    assert(evs[i + 1] == EventV::Message(message_texts(evs)[j]));
                },
            }
        }
    }
}

/// The foreground side of the bridge: a best-effort mirror of the worker's
/// connection status.
#[derive(Debug)]
pub struct ConnectionState {
    connected: bool,
}

impl ConnectionState {
    /// The mirrored flag, as contracts see it.
    pub closed spec fn flag(&self) -> bool {
        self.connected
    }

    /// A fresh mirror: no peer has connected yet.
    pub fn new() -> (r: Self)
        ensures
            !r.flag(),
    {
        ConnectionState { connected: false }
    }

    /// The last-known connection status; it may be stale by one drain cycle.
    pub fn is_connected(&self) -> (b: bool)
        ensures
            b == self.flag(),
    {
        self.connected
    }

    /// Notes one event seen while blocking for the first connection, and says
    /// whether it is the awaited connect notification.  Message and
    /// disconnect events seen during this startup wait are discarded.
    pub fn note_connect_probe(&mut self, e: &Event) -> (done: bool)
        ensures
            done == (e@ is PeerConnected),
            final(self).flag() == (old(self).flag() || done),
    {
        match e {
            Event::PeerConnected => {
                self.connected = true;
                true
            },
            Event::Message(_) => false,
            Event::PeerDisconnected => false,
        }
    }

    /// Applies one drained event: connect and disconnect move the mirror,
    /// and a message is handed back to the caller.
    pub fn apply_event(&mut self, e: Event) -> (r: Option<String>)
        ensures
            final(self).flag() == next_flag(old(self).flag(), e@),
            match e@ {
                EventV::Message(t) => r matches Some(s) && s@ == t,
                EventV::PeerConnected => r is None,
                EventV::PeerDisconnected => r is None,
            },
    {
        match e {
            Event::Message(t) => Some(t),
            Event::PeerConnected => {
                self.connected = true;
                None
            },
            Event::PeerDisconnected => {
                self.connected = false;
                None
            },
        }
    }

    /// Drains a batch of events in order: the mirror follows every connect
    /// and disconnect, and the message texts come back in order.
    pub fn drain(&mut self, events: Vec<Event>) -> (msgs: Vec<String>)
        ensures
            final(self).flag() == flag_after(old(self).flag(), events_view(events@)),
            texts_view(msgs@) == message_texts(events_view(events@)),
    {
        let ghost evs0 = events_view(events@);
        let ghost flag0 = self.connected;
        let mut events = events;
        let mut msgs: Vec<String> = Vec::new();
        while events.len() > 0
            invariant
                flag_after(flag0, evs0) == flag_after(self.flag(), events_view(events@)),
                message_texts(evs0) == texts_view(msgs@) + message_texts(events_view(events@)),
            decreases events.len(),
        {
            let ghost before = events_view(events@);
            let e = events.remove(0);
            proof {
                assert(before[0] == e@);
                assert(before.drop_first() =~= events_view(events@));
            }
            match self.apply_event(e) {
                Some(t) => {
                    msgs.push(t);
                    proof {
                        assert(texts_view(msgs@) =~= texts_view(msgs@.drop_last()) + seq![t@]);
                        assert(texts_view(msgs@.drop_last()) + (seq![t@] + message_texts(
                            events_view(events@),
                        )) =~= texts_view(msgs@) + message_texts(events_view(events@)));
                    }
                },
                None => {},
            }
        }
        proof {
            assert(events_view(events@) =~= Seq::<EventV>::empty());
            assert(texts_view(msgs@) + message_texts(Seq::<EventV>::empty()) =~= texts_view(
                msgs@,
            ));
        }
        msgs
    }
}

} // verus!
