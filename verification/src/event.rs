//! Events and their ids.

use vstd::prelude::*;

use crate::digest::{ripemd256_digest, DIGEST_LIMIT};

verus! {

/// Identifier of an event: the digest of its encoding.
pub type EventId = [u8; 32];

/// What an event says, apart from where it stands in the chain.
pub enum EventAction {
    PrivMsg(PrivMsgEvent),
}

/// A message sent by `nick`.
pub struct PrivMsgEvent {
    pub nick: String,
    pub msg: String,
}

/// One entry of the event chain.
pub struct Event {
    pub previous_event_hash: EventId,
    pub action: EventAction,
    pub timestamp: u64,
}

/// The contents of a [`PrivMsgEvent`].
#[verifier::ext_equal]
pub struct PrivMsgV {
    pub nick: Seq<char>,
    pub msg: Seq<char>,
}

/// The contents of an [`EventAction`].
#[verifier::ext_equal]
pub enum ActionV {
    PrivMsg(PrivMsgV),
}

/// The contents of an [`Event`].
#[verifier::ext_equal]
pub struct EventV {
    pub previous_event_hash: EventId,
    pub action: ActionV,
    pub timestamp: u64,
}

impl View for PrivMsgEvent {
    type V = PrivMsgV;

    open spec fn view(&self) -> PrivMsgV {
        PrivMsgV { nick: self.nick@, msg: self.msg@ }
    }
}

impl View for EventAction {
    type V = ActionV;

    open spec fn view(&self) -> ActionV {
        match self {
            EventAction::PrivMsg(m) => ActionV::PrivMsg(m@),
        }
    }
}

impl View for Event {
    type V = EventV;

    open spec fn view(&self) -> EventV {
        EventV {
            previous_event_hash: self.previous_event_hash,
            action: self.action@,
            timestamp: self.timestamp,
        }
    }
}

/// The event is short enough to be digested.
pub open spec fn hashable(e: EventV) -> bool {
    crate::serial::event_bytes(e).len() < DIGEST_LIMIT
}

/// The id of an event: the digest of the bytes it is written as.
pub open spec fn event_id(e: EventV) -> EventId {
    crate::digest::ripemd256(crate::serial::event_bytes(e))
}

impl Event {
    /// The id of the event.
    pub fn hash(&self) -> (r: EventId)
        requires
            hashable(self@),
        ensures
            r == event_id(self@),
    {
        let mut bytes: Vec<u8> = Vec::new();
        let _ = self.encode(&mut bytes);
        proof {
            assert(bytes@ =~= crate::serial::event_bytes(self@));
        }
        ripemd256_digest(bytes.as_slice())
    }

    /// Whether the event is short enough for [`Event::hash`].
    pub fn is_hashable(&self) -> (r: bool)
        ensures
            r == hashable(self@),
    {
        let mut bytes: Vec<u8> = Vec::new();
        let len: usize = self.encode(&mut bytes);
        (len as u64) < DIGEST_LIMIT
    }

    /// Another event with the same contents.
    pub fn duplicate(&self) -> (r: Event)
        ensures
            r@ == self@,
    {
        let action = match &self.action {
            EventAction::PrivMsg(m) => EventAction::PrivMsg(
                PrivMsgEvent { nick: m.nick.clone(), msg: m.msg.clone() },
            ),
        };
        Event {
            previous_event_hash: self.previous_event_hash,
            action,
            timestamp: self.timestamp,
        }
    }
}

/// The event of `nick` saying `msg` at `timestamp`, after the event `previous_event_hash`.
pub fn create_message(
    previous_event_hash: EventId,
    nick: &str,
    msg: &str,
    timestamp: u64,
) -> (r: Event)
    ensures
        r@ == (EventV {
            previous_event_hash,
            action: ActionV::PrivMsg(PrivMsgV { nick: nick@, msg: msg@ }),
            timestamp,
        }),
        r.previous_event_hash == previous_event_hash,
        r.timestamp == timestamp,
        r.action matches EventAction::PrivMsg(m) ==> m.nick@ == nick@ && m.msg@ == msg@,
{
    Event {
        previous_event_hash,
        action: EventAction::PrivMsg(
            PrivMsgEvent { nick: nick.to_string(), msg: msg.to_string() },
        ),
        timestamp,
    }
}

} // verus!
