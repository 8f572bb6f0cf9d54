//! One connection seen from the host: its id, and its name once the
//! handshake frame has arrived.

use vstd::prelude::*;

use crate::host::HostEvent;

verus! {

/// The per-connection handshake state.
pub struct Session {
    id: u32,
    name: Option<String>,
}

/// A session as a value: its id, and its name once known.
pub type SessionView = (u32, Option<Seq<char>>);

impl View for Session {
    type V = SessionView;

    closed spec fn view(&self) -> SessionView {
        (
            self.id,
            match self.name {
                Some(n) => Some(n@),
                None => None,
            },
        )
    }
}

/// The event of one frame with text `text` on a session in state `s`, and the
/// state after it: the first frame is the name, every later one chat text.
pub open spec fn on_frame_spec(s: SessionView, text: Seq<char>) -> (SessionView, (u32, Seq<char>, Option<Seq<char>>)) {
    match s.1 {
        None => ((s.0, Some(text)), (s.0, text, None)),
        Some(name) => (s, (s.0, name, Some(text))),
    }
}

/// The fields of an event as values: its id, the name it carries, and the
/// chat text of a `SentMessage`.
pub open spec fn frame_event_view(e: HostEvent) -> (u32, Seq<char>, Option<Seq<char>>) {
    match e {
        HostEvent::Connected { id } => (id, Seq::empty(), None),
        HostEvent::Joined { id, name } => (id, name@, None),
        HostEvent::SentMessage { id, name, text } => (id, name@, Some(text@)),
        HostEvent::Exited { id, name } => (id, name@, None),
    }
}

impl Session {
    /// A fresh connection with id `id`.
    pub fn new(id: u32) -> (r: Session)
        ensures
            r@ == (id, None::<Seq<char>>),
    {
        Session { id, name: None }
    }

    /// The connection's id.
    pub fn id(&self) -> (r: u32)
        ensures
            r == self@.0,
    {
        self.id
    }

    /// Turns one received text into the event for the host: `Joined` for the
    /// first, `SentMessage` for every later one.
    pub fn on_frame(&mut self, text: String) -> (r: HostEvent)
        ensures
            (final(self)@, frame_event_view(r)) == on_frame_spec(old(self)@, text@),
            old(self)@.1 is None ==> r is Joined,
            old(self)@.1 is Some ==> r is SentMessage,
    {
        match &self.name {
            None => {
                self.name = Some(text.clone());
                HostEvent::Joined { id: self.id, name: text }
            },
            Some(name) => HostEvent::SentMessage { id: self.id, name: name.clone(), text },
        }
    }

    /// The event for the host when the connection ends: `Exited` once the
    /// name is known, nothing before the handshake.
    pub fn on_closed(&self) -> (r: Option<HostEvent>)
        ensures
            match r {
                None => self@.1 is None,
                Some(e) => e is Exited && self@.1 == Some(frame_event_view(e).1) && frame_event_view(e).0
                    == self@.0,
            },
    {
        match &self.name {
            None => None,
            Some(name) => Some(HostEvent::Exited { id: self.id, name: name.clone() }),
        }
    }
}

/// Hands out connection ids: 0, 1, 2, and so on, each once.
pub struct IdSource {
    next: u64,
}

impl View for IdSource {
    type V = nat;

    /// The next id to hand out; past `u32::MAX` none is left.
    closed spec fn view(&self) -> nat {
        self.next as nat
    }
}

impl IdSource {
    /// Whether the counter is within the id range, or just past it.
    pub closed spec fn wf(&self) -> bool {
        self.next <= u32::MAX as u64 + 1
    }

    /// A source whose first id is 0.
    pub fn new() -> (r: IdSource)
        ensures
            r@ == 0,
            r.wf(),
    {
        IdSource { next: 0 }
    }

    /// The next id, or `None` once every 32-bit id has been handed out.
    pub fn next_id(&mut self) -> (r: Option<u32>)
        requires
            old(self).wf(),
        ensures
            final(self).wf(),
            old(self)@ <= u32::MAX ==> r == Some(old(self)@ as u32) && final(self)@ == old(self)@ + 1,
            old(self)@ > u32::MAX ==> r is None && final(self)@ == old(self)@,
    {
        if self.next > u32::MAX as u64 {
            None
        } else {
            let id = self.next as u32;
            self.next = self.next + 1;
            Some(id)
        }
    }
}

} // verus!
