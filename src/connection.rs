//! One logical session with one relay: its status, the transport events that
//! wait to be handled and the frames that wait to be written.
use crate::error::Error;
use vstd::prelude::*;

verus! {

/// Where a session with a relay stands.
#[derive(PartialEq, Eq, Clone, Copy, Debug, Structural)]
pub enum RelayStatus {
    Connecting,
    Connected,
    Disconnected,
}

/// A frame on the transport.
#[derive(Debug, Clone, PartialEq, Eq)]
pub enum WsMessage {
    Binary(Vec<u8>),
    Text(String),
    Unknown(String),
    Ping(Vec<u8>),
    Pong(Vec<u8>),
}

/// Something the transport reports.
#[derive(Debug, Clone, PartialEq, Eq)]
pub enum WsEvent {
    Opened,
    Message(WsMessage),
    Error(String),
    Closed,
}

pub enum WsMessageView {
    Binary(Seq<u8>),
    Text(Seq<char>),
    Unknown(Seq<char>),
    Ping(Seq<u8>),
    Pong(Seq<u8>),
}

pub enum WsEventView {
    Opened,
    Message(WsMessageView),
    Error(Seq<char>),
    Closed,
}

impl View for WsMessage {
    type V = WsMessageView;

    open spec fn view(&self) -> WsMessageView {
        match self {
            WsMessage::Binary(b) => WsMessageView::Binary(b@),
            WsMessage::Text(t) => WsMessageView::Text(t@),
            WsMessage::Unknown(t) => WsMessageView::Unknown(t@),
            WsMessage::Ping(b) => WsMessageView::Ping(b@),
            WsMessage::Pong(b) => WsMessageView::Pong(b@),
        }
    }
}

impl View for WsEvent {
    type V = WsEventView;

    open spec fn view(&self) -> WsEventView {
        match self {
            WsEvent::Opened => WsEventView::Opened,
            WsEvent::Message(m) => WsEventView::Message(m@),
            WsEvent::Error(e) => WsEventView::Error(e@),
            WsEvent::Closed => WsEventView::Closed,
        }
    }
}

/// The model of a [`Relay`].
pub struct RelayView {
    pub url: Seq<char>,
    pub status: RelayStatus,
    /// Transport events not yet handled, oldest first.
    pub inbox: Seq<WsEventView>,
    /// Frames to be written to the transport, oldest first.
    pub outbox: Seq<WsMessageView>,
}

/// The status after the transport reported `e`: opened and closed sessions
/// change it, nothing else does.
pub open spec fn status_after(s: RelayStatus, e: WsEventView) -> RelayStatus {
    match e {
        WsEventView::Opened => RelayStatus::Connected,
        WsEventView::Closed => RelayStatus::Disconnected,
        _ => s,
    }
}

/// `r` after a frame was handed to it: written when connected, refused
/// otherwise.
pub open spec fn sent(r: RelayView, m: WsMessageView) -> RelayView {
    if r.status == RelayStatus::Connected {
        RelayView { outbox: r.outbox.push(m), ..r }
    } else {
        r
    }
}

/// `r` after a liveness probe: a connected session writes a ping and stays
/// connected; for any other the probe is refused and it counts as lost.
pub open spec fn pinged(r: RelayView) -> RelayView {
    if r.status == RelayStatus::Connected {
        RelayView { outbox: r.outbox.push(WsMessageView::Ping(Seq::empty())), ..r }
    } else {
        RelayView { status: RelayStatus::Disconnected, ..r }
    }
}

/// `r` with its oldest transport event taken off and its status updated.
pub open spec fn received(r: RelayView) -> RelayView
    recommends
        r.inbox.len() > 0,
{
    RelayView { status: status_after(r.status, r.inbox[0]), inbox: r.inbox.drop_first(), ..r }
}

/// A copy of `m`.
pub fn copy_message(m: &WsMessage) -> (r: WsMessage)
    ensures
        r@ == m@,
{
    match m {
        WsMessage::Binary(b) => {
            let c = b.clone();
            assert(c@ =~= b@);
            WsMessage::Binary(c)
        },
        WsMessage::Text(t) => WsMessage::Text(t.clone()),
        WsMessage::Unknown(t) => WsMessage::Unknown(t.clone()),
        WsMessage::Ping(b) => {
            let c = b.clone();
            assert(c@ =~= b@);
            WsMessage::Ping(c)
        },
        WsMessage::Pong(b) => {
            let c = b.clone();
            assert(c@ =~= b@);
            WsMessage::Pong(c)
        },
    }
}

pub struct Relay {
    url: String,
    status: RelayStatus,
    inbox: Vec<WsEvent>,
    outbox: Vec<WsMessage>,
}

impl View for Relay {
    type V = RelayView;

    closed spec fn view(&self) -> RelayView {
        RelayView {
            url: self.url@,
            status: self.status,
            inbox: self.inbox@.map_values(|e: WsEvent| e@),
            outbox: self.outbox@.map_values(|m: WsMessage| m@),
        }
    }
}

impl Relay {
    /// Opens a session with `url`: it is connecting until the transport
    /// reports it open. It is not probed here. A probe goes through `send`,
    /// which refuses a session that is not connected, and a refused probe
    /// marks the session lost; probing at once would therefore leave every
    /// new session disconnected, while a session that was just added is to
    /// be connecting. The transport's own handshake stands in for the probe.
    pub fn new(url: String) -> (r: Relay)
        ensures
            r@ == (RelayView {
                url: url@,
                status: RelayStatus::Connecting,
                inbox: Seq::empty(),
                outbox: Seq::empty(),
            }),
    {
        let relay = Relay {
            url,
            status: RelayStatus::Connecting,
            inbox: Vec::new(),
            outbox: Vec::new(),
        };
        proof {
            assert(relay.inbox@.map_values(|e: WsEvent| e@) =~= Seq::empty());
            assert(relay.outbox@.map_values(|m: WsMessage| m@) =~= Seq::empty());
        }
        relay
    }

    pub fn url(&self) -> (r: &String)
        ensures
            r@ == self@.url,
    {
        &self.url
    }

    pub fn status(&self) -> (r: RelayStatus)
        ensures
            r == self@.status,
    {
        self.status
    }

    /// Hands a frame to the transport; refused unless connected.
    pub fn send(&mut self, message: WsMessage) -> (r: Result<(), Error>)
        ensures
            final(self)@ == sent(old(self)@, message@),
            old(self)@.status == RelayStatus::Connected ==> r is Ok,
            old(self)@.status != RelayStatus::Connected ==> r == Err::<(), Error>(
                Error::RelayNotConnected,
            ),
    {
        if self.status != RelayStatus::Connected {
            return Err(Error::RelayNotConnected);
        }
        let ghost before = self.outbox@;
        self.outbox.push(message);
        proof {
            assert(self.outbox@.map_values(|m: WsMessage| m@) =~= before.map_values(
                |m: WsMessage| m@,
            ).push(message@));
        }
        Ok(())
    }

    /// Takes the oldest transport event, if any, and updates the status by
    /// it.
    pub fn try_recv(&mut self) -> (r: Option<WsEvent>)
        ensures
            old(self)@.inbox.len() == 0 ==> r is None && final(self)@ == old(self)@,
            old(self)@.inbox.len() > 0 ==> r is Some && r->Some_0@ == old(self)@.inbox[0]
                && final(self)@ == received(old(self)@),
    {
        if self.inbox.len() == 0 {
            return None;
        }
        let ghost before = self.inbox@;
        let event = self.inbox.remove(0);
        self.status = match &event {
            WsEvent::Opened => RelayStatus::Connected,
            WsEvent::Closed => RelayStatus::Disconnected,
            _ => self.status,
        };
        proof {
            assert(self.inbox@.map_values(|e: WsEvent| e@) =~= before.map_values(
                |e: WsEvent| e@,
            ).drop_first());
        }
        Some(event)
    }

    /// Sends a liveness probe: connected when it was written, disconnected
    /// when it was refused.
    pub fn ping(&mut self)
        ensures
            final(self)@ == pinged(old(self)@),
    {
        let ping_msg = WsMessage::Ping(Vec::new());
        match self.send(ping_msg) {
            Ok(_) => {
                self.status = RelayStatus::Connected;
            },
            Err(_) => {
                self.status = RelayStatus::Disconnected;
            },
        }
    }

    /// Starts a new handshake: the session is connecting again.
    pub fn reconnect(&mut self)
        ensures
            final(self)@ == (RelayView { status: RelayStatus::Connecting, ..old(self)@ }),
    {
        self.status = RelayStatus::Connecting;
    }

    /// Queues an event that the transport reported.
    pub fn deliver(&mut self, event: WsEvent)
        ensures
            final(self)@ == (RelayView { inbox: old(self)@.inbox.push(event@), ..old(self)@ }),
    {
        let ghost before = self.inbox@;
        self.inbox.push(event);
        proof {
            assert(self.inbox@.map_values(|e: WsEvent| e@) =~= before.map_values(
                |e: WsEvent| e@,
            ).push(event@));
        }
    }

    /// Takes the frames that wait to be written, oldest first.
    pub fn take_outbox(&mut self) -> (r: Vec<WsMessage>)
        ensures
            r@.map_values(|m: WsMessage| m@) == old(self)@.outbox,
            final(self)@ == (RelayView { outbox: Seq::empty(), ..old(self)@ }),
    {
        let mut out: Vec<WsMessage> = Vec::new();
        std::mem::swap(&mut out, &mut self.outbox);
        proof {
            assert(self.outbox@.map_values(|m: WsMessage| m@) =~= Seq::empty());
        }
        out
    }
}

} // verus!
