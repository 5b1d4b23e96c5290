//! The pool of relay sessions and the registry of subscriptions that every
//! session is kept subscribed to.
use crate::client::{lemma_req_for_one_id, req_for_id, req_json, req_text};
use crate::connection::{
    copy_message, pinged, received, sent, Relay, RelayStatus, RelayView, WsEvent, WsEventView,
    WsMessage, WsMessageView,
};
use crate::error::Error;
use crate::message::{decode, RelayMessage, RelayMessageView};
use crate::subscription::Subscription;
use vstd::prelude::*;

verus! {

/// Seconds between two sweeps that reconnect lost sessions.
pub const RELAY_RECONNECT_SECONDS: u64 = 5;

/// Seconds between two sweeps that probe live sessions.
pub const RELAY_PING_SECONDS: u64 = 30;

/// The model of a registered subscription: its identifier and the text of
/// its request frame, absent when its filters could not be serialized.
pub struct SubView {
    pub id: Seq<char>,
    pub req: Option<Seq<char>>,
}

/// The model of a [`RelayPool`]. Times are milliseconds on a monotonic clock.
pub struct PoolView {
    pub relays: Seq<RelayView>,
    pub subs: Seq<SubView>,
    pub last_reconnect_attempt: u64,
    pub last_ping: u64,
}

pub open spec fn urls_unique(rs: Seq<RelayView>) -> bool {
    forall|i: int, j: int|
        0 <= i < rs.len() && 0 <= j < rs.len() && i != j ==> rs[i].url != rs[j].url
}

pub open spec fn ids_unique(ss: Seq<SubView>) -> bool {
    forall|i: int, j: int| 0 <= i < ss.len() && 0 <= j < ss.len() && i != j ==> ss[i].id != ss[j].id
}

/// Each registered subscription has its request frame, a request for
/// itself.
pub open spec fn reqs_match(ss: Seq<SubView>) -> bool {
    forall|k: int|
        0 <= k < ss.len() ==> (#[trigger] ss[k]).req is Some && req_for_id(
            ss[k].req->Some_0,
            ss[k].id,
        )
}

pub open spec fn pool_wf(p: PoolView) -> bool {
    urls_unique(p.relays) && ids_unique(p.subs) && reqs_match(p.subs)
}

pub open spec fn has_url(rs: Seq<RelayView>, url: Seq<char>) -> bool {
    exists|i: int| 0 <= i < rs.len() && rs[i].url == url
}

pub open spec fn url_index(rs: Seq<RelayView>, url: Seq<char>) -> int {
    choose|i: int| 0 <= i < rs.len() && rs[i].url == url
}

pub open spec fn has_id(ss: Seq<SubView>, id: Seq<char>) -> bool {
    exists|i: int| 0 <= i < ss.len() && ss[i].id == id
}

pub open spec fn id_index(ss: Seq<SubView>, id: Seq<char>) -> int {
    choose|i: int| 0 <= i < ss.len() && ss[i].id == id
}

/// A fresh session with `url`, as [`Relay::new`] makes it.
pub open spec fn new_relay(url: Seq<char>) -> RelayView {
    RelayView { url, status: RelayStatus::Connecting, inbox: Seq::empty(), outbox: Seq::empty() }
}

/// `rs` with `r` in place of the session with its URL, or added at the end.
pub open spec fn with_relay(rs: Seq<RelayView>, r: RelayView) -> Seq<RelayView> {
    if has_url(rs, r.url) {
        rs.update(url_index(rs, r.url), r)
    } else {
        rs.push(r)
    }
}

/// `rs` without the session with `url`.
pub open spec fn without_url(rs: Seq<RelayView>, url: Seq<char>) -> Seq<RelayView> {
    if has_url(rs, url) {
        rs.remove(url_index(rs, url))
    } else {
        rs
    }
}

/// `ss` with `s` in place of the subscription with its identifier, or added
/// at the end.
pub open spec fn with_sub(ss: Seq<SubView>, s: SubView) -> Seq<SubView> {
    if has_id(ss, s.id) {
        ss.update(id_index(ss, s.id), s)
    } else {
        ss.push(s)
    }
}

/// Every session after `m` was handed to it: written by the connected ones.
pub open spec fn broadcast(rs: Seq<RelayView>, m: WsMessageView) -> Seq<RelayView> {
    rs.map_values(|r: RelayView| sent(r, m))
}

/// The request frames of the registered subscriptions, in registry order.
pub open spec fn replay(ss: Seq<SubView>) -> Seq<WsMessageView>
    decreases ss.len(),
{
    if ss.len() == 0 {
        Seq::empty()
    } else {
        replay(ss.drop_last()) + match ss.last().req {
            Some(t) => seq![WsMessageView::Text(t)],
            None => Seq::empty(),
        }
    }
}

/// A session that was just opened, after every subscription was sent to it.
pub open spec fn opened(r: RelayView, ss: Seq<SubView>) -> RelayView {
    RelayView { outbox: r.outbox + replay(ss), ..r }
}

/// A session after a frame from its relay, with the payload for the caller:
/// text is decoded (and dropped when it does not decode), a ping answered.
pub open spec fn handled(r: RelayView, m: WsMessageView) -> (RelayView, Option<RelayMessageView>) {
    match m {
        WsMessageView::Text(t) => (
            r,
            match decode(t) {
                Ok(x) => Some(x),
                Err(_) => None,
            },
        ),
        WsMessageView::Ping(d) => (sent(r, WsMessageView::Pong(d)), None),
        _ => (r, None),
    }
}

/// One poll from the session at `i` on: each session with a waiting event
/// handles its oldest one, until one of them handles a frame from its relay.
pub open spec fn poll_from(p: PoolView, i: int) -> (PoolView, Option<RelayMessageView>)
    decreases p.relays.len() - i,
{
    if i < 0 || i >= p.relays.len() {
        (p, None)
    } else if p.relays[i].inbox.len() == 0 {
        poll_from(p, i + 1)
    } else {
        let r = received(p.relays[i]);
        match p.relays[i].inbox[0] {
            WsEventView::Message(m) => {
                let (r2, out) = handled(r, m);
                (PoolView { relays: p.relays.update(i, r2), ..p }, out)
            },
            WsEventView::Opened => poll_from(
                PoolView { relays: p.relays.update(i, opened(r, p.subs)), ..p },
                i + 1,
            ),
            _ => poll_from(PoolView { relays: p.relays.update(i, r), ..p }, i + 1),
        }
    }
}

pub open spec fn elapsed(now: u64, since: u64) -> int {
    if now >= since {
        now - since
    } else {
        0
    }
}

pub open spec fn reconnect_due(p: PoolView, now: u64) -> bool {
    elapsed(now, p.last_reconnect_attempt) >= RELAY_RECONNECT_SECONDS * 1000
}

pub open spec fn ping_due(p: PoolView, now: u64) -> bool {
    elapsed(now, p.last_ping) >= RELAY_PING_SECONDS * 1000
}

/// A session that is not connected starts connecting again.
pub open spec fn restarted(r: RelayView) -> RelayView {
    if r.status != RelayStatus::Connected {
        RelayView { status: RelayStatus::Connecting, ..r }
    } else {
        r
    }
}

/// A connected session is probed.
pub open spec fn probed(r: RelayView) -> RelayView {
    if r.status == RelayStatus::Connected {
        pinged(r)
    } else {
        r
    }
}

/// The URLs of the sessions that are not connected, in order.
pub open spec fn stale_urls(rs: Seq<RelayView>) -> Seq<Seq<char>>
    decreases rs.len(),
{
    if rs.len() == 0 {
        Seq::empty()
    } else {
        stale_urls(rs.drop_last()) + if rs.last().status != RelayStatus::Connected {
            seq![rs.last().url]
        } else {
            Seq::empty()
        }
    }
}

pub open spec fn reconnect_sweep(p: PoolView, now: u64) -> PoolView {
    if reconnect_due(p, now) {
        PoolView {
            relays: p.relays.map_values(|r: RelayView| restarted(r)),
            last_reconnect_attempt: now,
            ..p
        }
    } else {
        p
    }
}

pub open spec fn ping_sweep(p: PoolView, now: u64) -> PoolView {
    if ping_due(p, now) {
        PoolView { relays: p.relays.map_values(|r: RelayView| probed(r)), last_ping: now, ..p }
    } else {
        p
    }
}

/// The pool after a keepalive at `now`: first the reconnect sweep, then the
/// ping sweep, each only when its interval has passed.
pub open spec fn after_keepalive(p: PoolView, now: u64) -> PoolView {
    ping_sweep(reconnect_sweep(p, now), now)
}

pub open spec fn payload_view(r: Option<RelayMessage>) -> Option<RelayMessageView> {
    match r {
        Some(m) => Some(m@),
        None => None,
    }
}

struct Registered {
    sub: Subscription,
    req: Option<String>,
}

impl Registered {
    spec fn view(&self) -> SubView {
        SubView {
            id: self.sub.id@,
            req: match self.req {
                Some(t) => Some(t@),
                None => None,
            },
        }
    }
}

pub struct RelayPool {
    relays: Vec<Relay>,
    subscriptions: Vec<Registered>,
    last_reconnect_attempt: u64,
    last_ping: u64,
}

impl View for RelayPool {
    type V = PoolView;

    closed spec fn view(&self) -> PoolView {
        PoolView {
            relays: self.relays@.map_values(|r: Relay| r@),
            subs: self.subscriptions@.map_values(|e: Registered| e.view()),
            last_reconnect_attempt: self.last_reconnect_attempt,
            last_ping: self.last_ping,
        }
    }
}

impl RelayPool {
    pub open spec fn wf(&self) -> bool {
        pool_wf(self@)
    }

    /// An empty pool whose sweep clocks start at `now`.
    pub fn new(now: u64) -> (r: Self)
        ensures
            r.wf(),
            r@.relays.len() == 0,
            r@.subs.len() == 0,
            r@.last_reconnect_attempt == now,
            r@.last_ping == now,
    {
        let r = Self {
            relays: Vec::new(),
            subscriptions: Vec::new(),
            last_reconnect_attempt: now,
            last_ping: now,
        };
        assert(r@.relays =~= Seq::empty());
        assert(r@.subs =~= Seq::empty());
        r
    }

    pub fn get_last_reconnect_attempt(&self) -> (r: u64)
        ensures
            r == self@.last_reconnect_attempt,
    {
        self.last_reconnect_attempt
    }

    /// How many subscriptions are registered.
    pub fn subscription_count(&self) -> (r: usize)
        ensures
            r == self@.subs.len(),
    {
        self.subscriptions.len()
    }

    /// The registered subscription at `k`, in registry order.
    pub fn subscription(&self, k: usize) -> (r: &Subscription)
        requires
            k < self@.subs.len(),
        ensures
            r.id@ == self@.subs[k as int].id,
    {
        &self.subscriptions[k].sub
    }

    /// The sessions, in the order they were added.
    pub fn relays(&self) -> (r: &Vec<Relay>)
        ensures
            r@.map_values(|x: Relay| x@) == self@.relays,
    {
        &self.relays
    }
}

/// `t` is a request frame for `id` with `n` filters.
pub open spec fn is_req_for(t: Seq<char>, id: Seq<char>, n: nat) -> bool {
    exists|texts: Seq<Seq<char>>| texts.len() == n && t == req_text(id, texts)
}

/// `q` is `p` after the subscription `id` with `n` filters was registered
/// with the request frame `req` (absent when its filters could not be
/// serialized), and that frame was handed to every session.
pub open spec fn subscribed(
    p: PoolView,
    q: PoolView,
    id: Seq<char>,
    n: nat,
    req: Option<Seq<char>>,
) -> bool {
    &&& q.subs == with_sub(p.subs, SubView { id, req })
    &&& req is Some ==> is_req_for(req->Some_0, id, n)
    &&& q.relays == match req {
        Some(t) => broadcast(p.relays, WsMessageView::Text(t)),
        None => p.relays,
    }
    &&& q.last_reconnect_attempt == p.last_reconnect_attempt
    &&& q.last_ping == p.last_ping
}

/// Sessions whose URLs are those of a pool's sessions, one for one, keep
/// the URLs unique.
proof fn lemma_urls_kept(before: Seq<RelayView>, after: Seq<RelayView>)
    requires
        urls_unique(before),
        after.len() == before.len(),
        forall|i: int| 0 <= i < after.len() ==> #[trigger] after[i].url == before[i].url,
    ensures
        urls_unique(after),
{
    assert forall|a: int, b: int|
        0 <= a < after.len() && 0 <= b < after.len() && a != b implies after[a].url
            != after[b].url by {
        assert(after[a].url == before[a].url);
        assert(after[b].url == before[b].url);
    }
}

proof fn lemma_url_index(rs: Seq<RelayView>, k: int)
    requires
        urls_unique(rs),
        0 <= k < rs.len(),
    ensures
        has_url(rs, rs[k].url),
        url_index(rs, rs[k].url) == k,
{
    let url = rs[k].url;
    assert(0 <= k < rs.len() && rs[k].url == url);
    let j = url_index(rs, url);
    assert(rs[j].url == url);
}

proof fn lemma_id_index(ss: Seq<SubView>, k: int)
    requires
        ids_unique(ss),
        0 <= k < ss.len(),
    ensures
        has_id(ss, ss[k].id),
        id_index(ss, ss[k].id) == k,
{
    let id = ss[k].id;
    assert(0 <= k < ss.len() && ss[k].id == id);
    let j = id_index(ss, id);
    assert(ss[j].id == id);
}

impl RelayPool {
    /// Where the session with `url` stands.
    fn find_relay(&self, url: &String) -> (r: Option<usize>)
        requires
            self.wf(),
        ensures
            match r {
                Some(k) => k < self@.relays.len() && self@.relays[k as int].url == url@
                    && url_index(self@.relays, url@) == k,
                None => !has_url(self@.relays, url@),
            },
    {
        let mut k: usize = 0;
        while k < self.relays.len()
            invariant
                k <= self.relays.len(),
                self.wf(),
                forall|j: int| 0 <= j < k ==> self@.relays[j].url != url@,
            decreases self.relays.len() - k,
        {
            if self.relays[k].url().eq(url) {
                proof {
                    lemma_url_index(self@.relays, k as int);
                }
                return Some(k);
            }
            k = k + 1;
        }
        None
    }

    /// Where the subscription with `id` stands in the registry.
    fn find_sub(&self, id: &String) -> (r: Option<usize>)
        requires
            self.wf(),
        ensures
            match r {
                Some(k) => k < self@.subs.len() && self@.subs[k as int].id == id@ && id_index(
                    self@.subs,
                    id@,
                ) == k,
                None => !has_id(self@.subs, id@),
            },
    {
        let mut k: usize = 0;
        while k < self.subscriptions.len()
            invariant
                k <= self.subscriptions.len(),
                self.wf(),
                forall|j: int| 0 <= j < k ==> self@.subs[j].id != id@,
            decreases self.subscriptions.len() - k,
        {
            if self.subscriptions[k].sub.id.eq(id) {
                proof {
                    lemma_id_index(self@.subs, k as int);
                }
                return Some(k);
            }
            k = k + 1;
        }
        None
    }

    /// Adds a session with `url`, in place of one with the same URL.
    pub fn add_url(&mut self, url: String) -> (r: Result<(), Error>)
        requires
            old(self).wf(),
        ensures
            final(self).wf(),
            r is Ok,
            final(self)@ == (PoolView {
                relays: with_relay(old(self)@.relays, new_relay(url@)),
                ..old(self)@
            }),
    {
        let ghost p = self@;
        let mut relay = Relay::new(url);
        match self.find_relay(relay.url()) {
            Some(k) => {
                std::mem::swap(&mut self.relays[k], &mut relay);
                proof {
                    assert(self@.relays =~= p.relays.update(k as int, new_relay(url@)));
                }
            },
            None => {
                self.relays.push(relay);
                proof {
                    assert(self@.relays =~= p.relays.push(new_relay(url@)));
                }
            },
        }
        Ok(())
    }

    /// Takes the session with `url` out of the pool, for the caller to tear
    /// down.
    pub fn remove_url(&mut self, url: &str) -> (r: Option<Relay>)
        requires
            old(self).wf(),
        ensures
            final(self).wf(),
            final(self)@ == (PoolView { relays: without_url(old(self)@.relays, url@), ..old(self)@ }),
            has_url(old(self)@.relays, url@) ==> r is Some && r->Some_0@ == old(self)@.relays[url_index(
                old(self)@.relays,
                url@,
            )],
            !has_url(old(self)@.relays, url@) ==> r is None,
    {
        let ghost p = self@;
        let key = url.to_owned();
        match self.find_relay(&key) {
            Some(k) => {
                let relay = self.relays.remove(k);
                proof {
                    assert(self@.relays =~= p.relays.remove(k as int));
                }
                Some(relay)
            },
            None => None,
        }
    }

    /// Hands `message` to every connected session. No session refuses it,
    /// so this succeeds, also when no session is connected.
    pub fn send(&mut self, message: WsMessage) -> (r: Result<(), Error>)
        requires
            old(self).wf(),
        ensures
            final(self).wf(),
            r is Ok,
            final(self)@ == (PoolView {
                relays: broadcast(old(self)@.relays, message@),
                ..old(self)@
            }),
    {
        let ghost p = self@;
        let mut k: usize = 0;
        while k < self.relays.len()
            invariant
                k <= self.relays.len(),
                self@.relays.len() == p.relays.len(),
                self@.subs == p.subs,
                self@.last_reconnect_attempt == p.last_reconnect_attempt,
                self@.last_ping == p.last_ping,
                forall|j: int| 0 <= j < k ==> self@.relays[j] == sent(p.relays[j], message@),
                forall|j: int| k <= j < p.relays.len() ==> self@.relays[j] == p.relays[j],
            decreases self.relays.len() - k,
        {
            if self.relays[k].status() == RelayStatus::Connected {
                let ghost before = self@;
                let _ = self.relays[k].send(copy_message(&message));
                proof {
                    assert(self@.relays =~= before.relays.update(k as int, self.relays@[k as int]@));
                }
            }
            k = k + 1;
        }
        proof {
            assert(self@.relays =~= broadcast(p.relays, message@));
            lemma_urls_kept(p.relays, self@.relays);
        }
        Ok(())
    }

    /// Registers `sub`, in place of one with the same identifier, and hands
    /// its request frame to every connected session. Serializing filters
    /// cannot fail, and a session that is not connected is skipped, so this
    /// succeeds.
    pub fn add_subscription(&mut self, sub: Subscription) -> (r: Result<(), Error>)
        requires
            old(self).wf(),
        ensures
            final(self).wf(),
            r is Ok,
            exists|req: Seq<char>|
                #[trigger] subscribed(
                    old(self)@,
                    final(self)@,
                    sub.id@,
                    sub.filters@.len(),
                    Some(req),
                ),
    {
        let ghost p = self@;
        let ghost id = sub.id@;
        let ghost n = sub.filters@.len();
        let (stored, frame, result) = match req_json(sub.id.as_str(), &sub.filters) {
            Ok(t) => (Some(t.clone()), Some(t), Ok(())),
            Err(e) => (None, None, Err(e)),
        };
        let ghost req: Option<Seq<char>> = match &stored {
            Some(t) => Some(t@),
            None => None,
        };
        let entry = Registered { sub, req: stored };
        assert(entry.view() == SubView { id, req });
        assert(req is Some && req_for_id(req->Some_0, id));
        match self.find_sub(&entry.sub.id) {
            Some(k) => {
                self.subscriptions.set(k, entry);
                proof {
                    assert(self@.subs =~= p.subs.update(k as int, SubView { id, req }));
                    assert(reqs_match(self@.subs)) by {
                        assert forall|a: int| 0 <= a < self@.subs.len() implies (#[trigger] self@.subs[a]).req is Some && req_for_id(self@.subs[a].req->Some_0, self@.subs[a].id) by {
                            if a != k {
                                assert(self@.subs[a] == p.subs[a]);
                            }
                        }
                    }
                    assert(ids_unique(self@.subs)) by {
                        assert forall|a: int, b: int|
                            0 <= a < self@.subs.len() && 0 <= b < self@.subs.len() && a != b
                                implies self@.subs[a].id != self@.subs[b].id by {
                            if a != k && b != k {
                                assert(self@.subs[a].id == p.subs[a].id);
                                assert(self@.subs[b].id == p.subs[b].id);
                            }
                        }
                    }
                }
            },
            None => {
                self.subscriptions.push(entry);
                proof {
                    assert(self@.subs =~= p.subs.push(SubView { id, req }));
                    assert(reqs_match(self@.subs)) by {
                        assert forall|a: int| 0 <= a < self@.subs.len() implies (#[trigger] self@.subs[a]).req is Some && req_for_id(self@.subs[a].req->Some_0, self@.subs[a].id) by {
                            if a < p.subs.len() {
                                assert(self@.subs[a] == p.subs[a]);
                            }
                        }
                    }
                    assert(ids_unique(self@.subs)) by {
                        assert forall|a: int, b: int|
                            0 <= a < self@.subs.len() && 0 <= b < self@.subs.len() && a != b
                                implies self@.subs[a].id != self@.subs[b].id by {
                            if a < p.subs.len() && b < p.subs.len() {
                                assert(self@.subs[a].id == p.subs[a].id);
                            } else if a < p.subs.len() {
                                assert(self@.subs[a].id == p.subs[a].id);
                            } else if b < p.subs.len() {
                                assert(self@.subs[b].id == p.subs[b].id);
                            }
                        }
                    }
                }
            },
        }
        assert(self@.relays == p.relays);
        match frame {
            Some(t) => {
                let _ = self.send(WsMessage::Text(t));
            },
            None => {},
        }
        assert(subscribed(p, self@, id, n, Some(req->Some_0)));
        result
    }
}

impl RelayPool {
    /// Sends every registered request frame, in registry order, to the
    /// session at `i`, which was just opened.
    fn replay_to(&mut self, i: usize)
        requires
            i < old(self)@.relays.len(),
            old(self)@.relays[i as int].status == RelayStatus::Connected,
        ensures
            final(self)@ == (PoolView {
                relays: old(self)@.relays.update(
                    i as int,
                    opened(old(self)@.relays[i as int], old(self)@.subs),
                ),
                ..old(self)@
            }),
    {
        let ghost p = self@;
        let mut k: usize = 0;
        while k < self.subscriptions.len()
            invariant
                k <= self.subscriptions.len(),
                i < self.relays.len(),
                i < p.relays.len(),
                self@.subs == p.subs,
                self@.last_reconnect_attempt == p.last_reconnect_attempt,
                self@.last_ping == p.last_ping,
                self@.relays == p.relays.update(
                    i as int,
                    opened(p.relays[i as int], p.subs.subrange(0, k as int)),
                ),
                p.relays[i as int].status == RelayStatus::Connected,
            decreases self.subscriptions.len() - k,
        {
            let ghost before = self@;
            let msg = match &self.subscriptions[k].req {
                Some(t) => Some(t.clone()),
                None => None,
            };
            proof {
                assert(p.subs.subrange(0, k + 1).drop_last() =~= p.subs.subrange(0, k as int));
                assert(p.subs.subrange(0, k + 1).last() == p.subs[k as int]);
            }
            let ghost base = opened(p.relays[i as int], p.subs.subrange(0, k as int));
            let ghost tail = match p.subs[k as int].req {
                Some(t) => seq![WsMessageView::Text(t)],
                None => Seq::<WsMessageView>::empty(),
            };
            assert(replay(p.subs.subrange(0, k + 1)) == replay(p.subs.subrange(0, k as int))
                + tail);
            assert(self@.relays[i as int] == base);
            assert(p.subs[k as int] == self.subscriptions@[k as int].view());
            match msg {
                Some(t) => {
                    assert(tail =~= seq![WsMessageView::Text(t@)]);
                    let _ = self.relays[i].send(WsMessage::Text(t));
                    proof {
                        assert(self@.relays =~= before.relays.update(
                            i as int,
                            self.relays@[i as int]@,
                        ));
                        assert(p.relays[i as int].outbox + (replay(p.subs.subrange(0, k as int))
                            + tail) =~= (p.relays[i as int].outbox + replay(
                            p.subs.subrange(0, k as int),
                        )).push(WsMessageView::Text(t@)));
                        assert(self@.relays[i as int] == opened(
                            p.relays[i as int],
                            p.subs.subrange(0, k + 1),
                        ));
                    }
                },
                None => {
                    assert(tail =~= Seq::<WsMessageView>::empty());
                    assert(p.relays[i as int].outbox + (replay(p.subs.subrange(0, k as int))
                        + tail) =~= p.relays[i as int].outbox + replay(
                        p.subs.subrange(0, k as int),
                    ));
                    assert(self@.relays[i as int] == opened(
                        p.relays[i as int],
                        p.subs.subrange(0, k + 1),
                    ));
                },
            }
            k = k + 1;
            proof {
                assert(self@.relays =~= p.relays.update(
                    i as int,
                    opened(p.relays[i as int], p.subs.subrange(0, k as int)),
                ));
            }
        }
        proof {
            assert(p.subs.subrange(0, k as int) =~= p.subs);
            assert(self@ == (PoolView {
                relays: p.relays.update(i as int, opened(p.relays[i as int], p.subs)),
                ..p
            }));
        }
    }

    /// Handles a frame that the relay of the session at `i` sent.
    fn handle_message(&mut self, i: usize, message: WsMessage) -> (r: Option<RelayMessage>)
        requires
            i < old(self)@.relays.len(),
        ensures
            final(self)@ == (PoolView {
                relays: old(self)@.relays.update(
                    i as int,
                    handled(old(self)@.relays[i as int], message@).0,
                ),
                ..old(self)@
            }),
            payload_view(r) == handled(old(self)@.relays[i as int], message@).1,
    {
        let ghost p = self@;
        match message {
            WsMessage::Text(txt) => {
                proof {
                    assert(p.relays.update(i as int, p.relays[i as int]) =~= p.relays);
                }
                match RelayMessage::from_json(txt.as_str()) {
                    Ok(m) => Some(m),
                    Err(_) => None,
                }
            },
            WsMessage::Ping(data) => {
                let _ = self.relays[i].send(WsMessage::Pong(data));
                proof {
                    assert(self@.relays =~= p.relays.update(i as int, self.relays@[i as int]@));
                }
                None
            },
            _ => {
                proof {
                    assert(p.relays.update(i as int, p.relays[i as int]) =~= p.relays);
                }
                None
            },
        }
    }

    /// Polls every session once, in order: a session with a waiting
    /// transport event handles its oldest one. An opened session is sent
    /// every registered subscription; a closed one counts as disconnected. The
    /// first frame from a relay ends the poll: its text decoded is what comes
    /// back, and nothing does when it does not decode or is not text.
    pub fn try_recv(&mut self) -> (r: Option<RelayMessage>)
        requires
            old(self).wf(),
        ensures
            final(self).wf(),
            final(self)@ == poll_from(old(self)@, 0).0,
            payload_view(r) == poll_from(old(self)@, 0).1,
    {
        let mut i: usize = 0;
        while i < self.relays.len()
            invariant
                i <= self.relays.len(),
                self.wf(),
                poll_from(self@, i as int) == poll_from(old(self)@, 0),
            decreases self.relays.len() - i,
        {
            let ghost p = self@;
            let event = self.relays[i].try_recv();
            proof {
                assert(self@.relays =~= p.relays.update(i as int, self.relays@[i as int]@));
                assert(self@.relays[i as int].url == p.relays[i as int].url);
                lemma_urls_kept(p.relays, self@.relays);
                if p.relays[i as int].inbox.len() == 0 {
                    assert(self@.relays =~= p.relays);
                }
            }
            match event {
                Some(WsEvent::Message(m)) => {
                    let r = self.handle_message(i, m);
                    proof {
                        assert(self@.relays =~= p.relays.update(
                            i as int,
                            handled(received(p.relays[i as int]), m@).0,
                        ));
                        lemma_urls_kept(p.relays, self@.relays);
                    }
                    return r;
                },
                Some(WsEvent::Opened) => {
                    self.replay_to(i);
                    proof {
                        assert(self@.relays =~= p.relays.update(
                            i as int,
                            opened(received(p.relays[i as int]), p.subs),
                        ));
                        lemma_urls_kept(p.relays, self@.relays);
                    }
                },
                Some(_) => {},
                None => {
                    assert(self@ == p);
                },
            }
            i = i + 1;
        }
        None
    }
}

impl RelayPool {
    /// Periodic upkeep at `now`. When the reconnect interval has passed
    /// since the last reconnect sweep, every session that is not connected
    /// starts connecting again, and their URLs come back, in order, for the
    /// transport to open anew. When the ping interval has passed since the
    /// last ping sweep, every connected session is probed. Each sweep
    /// restarts its own clock.
    pub fn keepalive(&mut self, now: u64) -> (r: Vec<String>)
        requires
            old(self).wf(),
        ensures
            final(self).wf(),
            final(self)@ == after_keepalive(old(self)@, now),
            r@.map_values(|u: String| u@) == if reconnect_due(old(self)@, now) {
                stale_urls(old(self)@.relays)
            } else {
                Seq::empty()
            },
    {
        let ghost before_sweeps = self@;
        let mut urls: Vec<String> = Vec::new();
        let since_reconnect = if now >= self.last_reconnect_attempt {
            now - self.last_reconnect_attempt
        } else {
            0
        };
        if since_reconnect >= RELAY_RECONNECT_SECONDS * 1000 {
            let mut k: usize = 0;
            while k < self.relays.len()
                invariant
                    k <= self.relays.len(),
                    self@.relays.len() == before_sweeps.relays.len(),
                    self@.subs == before_sweeps.subs,
                    self@.last_reconnect_attempt == before_sweeps.last_reconnect_attempt,
                    self@.last_ping == before_sweeps.last_ping,
                    forall|j: int| 0 <= j < k ==> self@.relays[j] == restarted(before_sweeps.relays[j]),
                    forall|j: int| k <= j < before_sweeps.relays.len() ==> self@.relays[j] == before_sweeps.relays[j],
                    urls@.map_values(|u: String| u@) == stale_urls(before_sweeps.relays.subrange(0, k as int)),
                decreases self.relays.len() - k,
            {
                let ghost before = self@;
                let ghost got = urls@;
                proof {
                    assert(before_sweeps.relays.subrange(0, k + 1).drop_last() =~= before_sweeps.relays.subrange(
                        0,
                        k as int,
                    ));
                }
                if self.relays[k].status() != RelayStatus::Connected {
                    urls.push(self.relays[k].url().clone());
                    self.relays[k].reconnect();
                    proof {
                        assert(self@.relays =~= before.relays.update(
                            k as int,
                            self.relays@[k as int]@,
                        ));
                        assert(urls@.map_values(|u: String| u@) =~= got.map_values(|u: String| u@).push(
                            before_sweeps.relays[k as int].url,
                        ));
                    }
                } else {
                    proof {
                        assert(stale_urls(before_sweeps.relays.subrange(0, k + 1)) =~= stale_urls(
                            before_sweeps.relays.subrange(0, k as int),
                        ));
                    }
                }
                k = k + 1;
            }
            self.last_reconnect_attempt = now;
            proof {
                assert(before_sweeps.relays.subrange(0, k as int) =~= before_sweeps.relays);
                assert(self@.relays =~= before_sweeps.relays.map_values(|r: RelayView| restarted(r)));
            }
        } else {
            proof {
                assert(urls@.map_values(|u: String| u@) =~= Seq::<Seq<char>>::empty());
            }
        }
        let ghost after_reconnect = self@;
        assert(after_reconnect == reconnect_sweep(before_sweeps, now));
        let since_ping = if now >= self.last_ping {
            now - self.last_ping
        } else {
            0
        };
        if since_ping >= RELAY_PING_SECONDS * 1000 {
            let mut k: usize = 0;
            while k < self.relays.len()
                invariant
                    k <= self.relays.len(),
                    self@.relays.len() == after_reconnect.relays.len(),
                    self@.subs == after_reconnect.subs,
                    self@.last_reconnect_attempt == after_reconnect.last_reconnect_attempt,
                    self@.last_ping == after_reconnect.last_ping,
                    forall|j: int| 0 <= j < k ==> self@.relays[j] == probed(after_reconnect.relays[j]),
                    forall|j: int| k <= j < after_reconnect.relays.len() ==> self@.relays[j] == after_reconnect.relays[j],
                decreases self.relays.len() - k,
            {
                if self.relays[k].status() == RelayStatus::Connected {
                    let ghost before = self@;
                    self.relays[k].ping();
                    proof {
                        assert(self@.relays =~= before.relays.update(
                            k as int,
                            self.relays@[k as int]@,
                        ));
                    }
                }
                k = k + 1;
            }
            self.last_ping = now;
            proof {
                assert(self@.relays =~= after_reconnect.relays.map_values(|r: RelayView| probed(r)));
            }
        }
        proof {
            lemma_urls_kept(before_sweeps.relays, self@.relays);
        }
        urls
    }

    /// Probes every session: connected ones write a ping, the others count
    /// as lost.
    pub fn ping_all(&mut self) -> (r: Result<(), Error>)
        requires
            old(self).wf(),
        ensures
            final(self).wf(),
            r is Ok,
            final(self)@ == (PoolView {
                relays: old(self)@.relays.map_values(|r: RelayView| pinged(r)),
                ..old(self)@
            }),
    {
        let ghost p = self@;
        let mut k: usize = 0;
        while k < self.relays.len()
            invariant
                k <= self.relays.len(),
                self@.relays.len() == p.relays.len(),
                self@.subs == p.subs,
                self@.last_reconnect_attempt == p.last_reconnect_attempt,
                self@.last_ping == p.last_ping,
                forall|j: int| 0 <= j < k ==> self@.relays[j] == pinged(p.relays[j]),
                forall|j: int| k <= j < p.relays.len() ==> self@.relays[j] == p.relays[j],
            decreases self.relays.len() - k,
        {
            let ghost before = self@;
            self.relays[k].ping();
            proof {
                assert(self@.relays =~= before.relays.update(k as int, self.relays@[k as int]@));
            }
            k = k + 1;
        }
        proof {
            assert(self@.relays =~= p.relays.map_values(|r: RelayView| pinged(r)));
            lemma_urls_kept(p.relays, self@.relays);
        }
        Ok(())
    }

    /// Queues an event that the transport of the session with `url`
    /// reported; `false` when the pool has no such session.
    pub fn deliver(&mut self, url: &str, event: WsEvent) -> (r: bool)
        requires
            old(self).wf(),
        ensures
            final(self).wf(),
            r == has_url(old(self)@.relays, url@),
            r ==> final(self)@ == (PoolView {
                relays: old(self)@.relays.update(
                    url_index(old(self)@.relays, url@),
                    RelayView {
                        inbox: old(self)@.relays[url_index(old(self)@.relays, url@)].inbox.push(
                            event@,
                        ),
                        ..old(self)@.relays[url_index(old(self)@.relays, url@)]
                    },
                ),
                ..old(self)@
            }),
            !r ==> final(self)@ == old(self)@,
    {
        let ghost p = self@;
        let key = url.to_owned();
        match self.find_relay(&key) {
            Some(k) => {
                self.relays[k].deliver(event);
                proof {
                    assert(self@.relays =~= p.relays.update(k as int, self.relays@[k as int]@));
                    lemma_urls_kept(p.relays, self@.relays);
                }
                true
            },
            None => false,
        }
    }

    /// Takes the frames that wait to be written to the relay at `url`,
    /// oldest first; none when the pool has no such session.
    pub fn take_outbox(&mut self, url: &str) -> (r: Vec<WsMessage>)
        requires
            old(self).wf(),
        ensures
            final(self).wf(),
            has_url(old(self)@.relays, url@) ==> r@.map_values(|m: WsMessage| m@) == old(
                self,
            )@.relays[url_index(old(self)@.relays, url@)].outbox && final(self)@ == (PoolView {
                relays: old(self)@.relays.update(
                    url_index(old(self)@.relays, url@),
                    RelayView {
                        outbox: Seq::empty(),
                        ..old(self)@.relays[url_index(old(self)@.relays, url@)]
                    },
                ),
                ..old(self)@
            }),
            !has_url(old(self)@.relays, url@) ==> r@.len() == 0 && final(self)@ == old(self)@,
    {
        let ghost p = self@;
        let key = url.to_owned();
        match self.find_relay(&key) {
            Some(k) => {
                let out = self.relays[k].take_outbox();
                proof {
                    assert(self@.relays =~= p.relays.update(k as int, self.relays@[k as int]@));
                    lemma_urls_kept(p.relays, self@.relays);
                }
                out
            },
            None => Vec::new(),
        }
    }
}

/// How many of `ms` are request frames for the subscription `id`.
pub open spec fn reqs_for(ms: Seq<WsMessageView>, id: Seq<char>) -> nat
    decreases ms.len(),
{
    if ms.len() == 0 {
        0
    } else {
        reqs_for(ms.drop_last(), id) + match ms.last() {
            WsMessageView::Text(t) => if req_for_id(t, id) {
                1nat
            } else {
                0nat
            },
            _ => 0nat,
        }
    }
}

proof fn lemma_reqs_for_concat(a: Seq<WsMessageView>, b: Seq<WsMessageView>, id: Seq<char>)
    ensures
        reqs_for(a + b, id) == reqs_for(a, id) + reqs_for(b, id),
    decreases b.len(),
{
    if b.len() == 0 {
        assert(a + b =~= a);
    } else {
        assert((a + b).drop_last() =~= a + b.drop_last());
        assert((a + b).last() == b.last());
        lemma_reqs_for_concat(a, b.drop_last(), id);
    }
}

proof fn lemma_replay_step(ss: Seq<SubView>, id: Seq<char>)
    requires
        ss.len() > 0,
    ensures
        reqs_for(replay(ss), id) == reqs_for(replay(ss.drop_last()), id) + match ss.last().req {
            Some(t) => if req_for_id(t, id) {
                1nat
            } else {
                0nat
            },
            None => 0nat,
        },
{
    let tail = match ss.last().req {
        Some(t) => seq![WsMessageView::Text(t)],
        None => Seq::<WsMessageView>::empty(),
    };
    assert(replay(ss) == replay(ss.drop_last()) + tail);
    lemma_reqs_for_concat(replay(ss.drop_last()), tail, id);
    match ss.last().req {
        Some(t) => {
            assert(tail.drop_last() =~= Seq::<WsMessageView>::empty());
            assert(reqs_for(tail.drop_last(), id) == 0);
            assert(tail.last() == WsMessageView::Text(t));
        },
        None => {
            assert(reqs_for(tail, id) == 0);
        },
    }
}

proof fn lemma_reqs_for_absent(ss: Seq<SubView>, id: Seq<char>)
    requires
        reqs_match(ss),
        forall|j: int| 0 <= j < ss.len() ==> ss[j].id != id,
    ensures
        reqs_for(replay(ss), id) == 0,
    decreases ss.len(),
{
    if ss.len() > 0 {
        let init = ss.drop_last();
        assert forall|j: int| 0 <= j < init.len() implies init[j].id != id by {
            assert(init[j] == ss[j]);
        }
        assert(reqs_match(init)) by {
            assert forall|j: int| 0 <= j < init.len() implies (#[trigger] init[j]).req is Some && req_for_id(init[j].req->Some_0, init[j].id) by {
                assert(init[j] == ss[j]);
            }
        }
        lemma_reqs_for_absent(init, id);
        lemma_replay_step(ss, id);
        let last = ss[ss.len() - 1];
        if last.req is Some && req_for_id(last.req->Some_0, id) {
            lemma_req_for_one_id(last.req->Some_0, last.id, id);
        }
    }
}

proof fn lemma_reqs_for_unique(ss: Seq<SubView>, k: int)
    requires
        ids_unique(ss),
        reqs_match(ss),
        0 <= k < ss.len(),
        ss[k].req is Some,
    ensures
        reqs_for(replay(ss), ss[k].id) == 1,
    decreases ss.len(),
{
    let id = ss[k].id;
    let init = ss.drop_last();
    let last = ss[ss.len() - 1];
    assert(reqs_match(init)) by {
        assert forall|j: int| 0 <= j < init.len() implies (#[trigger] init[j]).req is Some && req_for_id(init[j].req->Some_0, init[j].id) by {
            assert(init[j] == ss[j]);
        }
    }
    lemma_replay_step(ss, id);
    if k == ss.len() - 1 {
        assert forall|j: int| 0 <= j < init.len() implies init[j].id != id by {
            assert(init[j] == ss[j]);
        }
        lemma_reqs_for_absent(init, id);
    } else {
        assert(ids_unique(init)) by {
            assert forall|a: int, b: int|
                0 <= a < init.len() && 0 <= b < init.len() && a != b implies init[a].id
                    != init[b].id by {
                assert(init[a] == ss[a] && init[b] == ss[b]);
            }
        }
        assert(init[k] == ss[k]);
        lemma_reqs_for_unique(init, k);
        assert(last.id != id);
        if last.req is Some && req_for_id(last.req->Some_0, id) {
            lemma_req_for_one_id(last.req->Some_0, last.id, id);
        }
    }
}

/// After a URL is added the pool holds a session with it, exactly one, and
/// it is a fresh one: connecting, with nothing waiting and nothing written.
/// Every other session stays as it was.
pub proof fn lemma_added_url_present(p: PoolView, url: Seq<char>)
    requires
        pool_wf(p),
    ensures
        urls_unique(with_relay(p.relays, new_relay(url))),
        has_url(with_relay(p.relays, new_relay(url)), url),
        with_relay(p.relays, new_relay(url))[url_index(with_relay(p.relays, new_relay(url)), url)]
            == new_relay(url),
        new_relay(url).status == RelayStatus::Connecting,
        new_relay(url).outbox.len() == 0,
        forall|j: int|
            0 <= j < p.relays.len() && p.relays[j].url != url ==> with_relay(
                p.relays,
                new_relay(url),
            ).contains(#[trigger] p.relays[j]),
{
    let rs = with_relay(p.relays, new_relay(url));
    if has_url(p.relays, url) {
        let k = url_index(p.relays, url);
        assert(rs[k].url == url);
        assert forall|j: int| 0 <= j < p.relays.len() && p.relays[j].url != url implies rs.contains(
            #[trigger] p.relays[j],
        ) by {
            assert(j != k);
            assert(rs[j] == p.relays[j]);
        }
    } else {
        let k = p.relays.len() as int;
        assert(rs[k].url == url);
        assert forall|j: int| 0 <= j < p.relays.len() && p.relays[j].url != url implies rs.contains(
            #[trigger] p.relays[j],
        ) by {
            assert(rs[j] == p.relays[j]);
        }
    }
    assert(urls_unique(rs)) by {
        assert forall|a: int, b: int|
            0 <= a < rs.len() && 0 <= b < rs.len() && a != b implies rs[a].url != rs[b].url by {
            if has_url(p.relays, url) {
                let k = url_index(p.relays, url);
                if a != k && b != k {
                    assert(rs[a] == p.relays[a] && rs[b] == p.relays[b]);
                } else if a == k {
                    assert(rs[b] == p.relays[b]);
                } else {
                    assert(rs[a] == p.relays[a]);
                }
            } else {
                if a < p.relays.len() && b < p.relays.len() {
                    assert(rs[a] == p.relays[a] && rs[b] == p.relays[b]);
                } else if a < p.relays.len() {
                    assert(rs[a] == p.relays[a]);
                } else {
                    assert(rs[b] == p.relays[b]);
                }
            }
        }
    }
    let k = url_index(rs, url);
    assert(rs[k].url == url);
}

/// Registering a subscription hands nothing to a session that is not
/// connected.
pub proof fn lemma_no_request_before_connected(
    p: PoolView,
    q: PoolView,
    id: Seq<char>,
    n: nat,
    req: Option<Seq<char>>,
    i: int,
)
    requires
        subscribed(p, q, id, n, req),
        0 <= i < p.relays.len(),
        p.relays[i].status != RelayStatus::Connected,
    ensures
        q.relays[i] == p.relays[i],
{
}

/// When the transport of the session at `i` reported it open, and no
/// session before it has a frame from its relay waiting, a poll makes the
/// session connected and sends it, in that same poll, the request frames of
/// the registry in registry order: among them exactly one request frame for
/// each registered subscription.
pub proof fn lemma_one_request_on_open(p: PoolView, i: int, k: int)
    requires
        pool_wf(p),
        0 <= i < p.relays.len(),
        p.relays[i].inbox.len() > 0,
        p.relays[i].inbox[0] == WsEventView::Opened,
        forall|j: int|
            0 <= j < i ==> (#[trigger] p.relays[j]).inbox.len() == 0 || !(p.relays[j].inbox[0] is Message),
        0 <= k < p.subs.len(),
    ensures
        poll_from(p, 0).0.relays[i].status == RelayStatus::Connected,
        poll_from(p, 0).0.relays[i].outbox == p.relays[i].outbox + replay(p.subs),
        reqs_for(replay(p.subs), p.subs[k].id) == 1,
{
    lemma_poll_opens(p, 0, i);
    lemma_reqs_for_unique(p.subs, k);
}

/// When the transport of the session at `i` reported it open and no other
/// session has anything waiting, a poll makes that session connected, sends
/// it the registry's request frames (exactly one for each registered
/// subscription), writes nothing to any other session, and returns nothing.
pub proof fn lemma_open_alone(p: PoolView, i: int)
    requires
        pool_wf(p),
        0 <= i < p.relays.len(),
        p.relays[i].inbox.len() > 0,
        p.relays[i].inbox[0] == WsEventView::Opened,
        forall|j: int| 0 <= j < p.relays.len() && j != i ==> (#[trigger] p.relays[j]).inbox.len() == 0,
    ensures
        poll_from(p, 0).1 is None,
        poll_from(p, 0).0.subs == p.subs,
        poll_from(p, 0).0.relays.len() == p.relays.len(),
        poll_from(p, 0).0.relays[i].status == RelayStatus::Connected,
        poll_from(p, 0).0.relays[i].outbox == p.relays[i].outbox + replay(p.subs),
        forall|k: int| 0 <= k < p.subs.len() ==> reqs_for(replay(p.subs), #[trigger] p.subs[k].id) == 1,
        forall|j: int| 0 <= j < p.relays.len() && j != i ==> #[trigger] poll_from(p, 0).0.relays[j] == p.relays[j],
{
    lemma_poll_skip(p, 0, i);
    let q = PoolView { relays: p.relays.update(i, opened(received(p.relays[i]), p.subs)), ..p };
    assert(poll_from(p, i) == poll_from(q, i + 1));
    lemma_poll_idle(q, i + 1);
    assert forall|k: int| 0 <= k < p.subs.len() implies reqs_for(replay(p.subs), #[trigger] p.subs[k].id) == 1 by {
        lemma_reqs_for_unique(p.subs, k);
    }
}

proof fn lemma_poll_skip(p: PoolView, j: int, i: int)
    requires
        0 <= j <= i < p.relays.len(),
        forall|m: int| j <= m < i ==> (#[trigger] p.relays[m]).inbox.len() == 0,
    ensures
        poll_from(p, j) == poll_from(p, i),
    decreases i - j,
{
    if j < i {
        assert(p.relays[j].inbox.len() == 0);
        lemma_poll_skip(p, j + 1, i);
    }
}

proof fn lemma_poll_idle(p: PoolView, j: int)
    requires
        0 <= j,
        forall|m: int| j <= m < p.relays.len() ==> (#[trigger] p.relays[m]).inbox.len() == 0,
    ensures
        poll_from(p, j) == (p, None::<RelayMessageView>),
    decreases p.relays.len() - j,
{
    if j < p.relays.len() {
        assert(p.relays[j].inbox.len() == 0);
        lemma_poll_idle(p, j + 1);
    }
}

proof fn lemma_poll_opens(p: PoolView, j: int, i: int)
    requires
        0 <= j <= i < p.relays.len(),
        p.relays[i].inbox.len() > 0,
        p.relays[i].inbox[0] == WsEventView::Opened,
        forall|m: int|
            j <= m < i ==> (#[trigger] p.relays[m]).inbox.len() == 0 || !(p.relays[m].inbox[0] is Message),
    ensures
        poll_from(p, j).0.relays[i] == opened(received(p.relays[i]), p.subs),
    decreases i - j,
{
    if j == i {
        let q = PoolView { relays: p.relays.update(i, opened(received(p.relays[i]), p.subs)), ..p };
        assert(poll_from(p, i) == poll_from(q, i + 1));
        lemma_poll_keeps_earlier(q, i + 1, i);
    } else if p.relays[j].inbox.len() == 0 {
        lemma_poll_opens(p, j + 1, i);
    } else {
        let r = received(p.relays[j]);
        let next = match p.relays[j].inbox[0] {
            WsEventView::Opened => opened(r, p.subs),
            _ => r,
        };
        let q = PoolView { relays: p.relays.update(j, next), ..p };
        assert(poll_from(p, j) == poll_from(q, j + 1));
        assert forall|m: int| j + 1 <= m < i implies (#[trigger] q.relays[m]).inbox.len() == 0
            || !(q.relays[m].inbox[0] is Message) by {
            assert(q.relays[m] == p.relays[m]);
        }
        assert(q.relays[i] == p.relays[i]);
        lemma_poll_opens(q, j + 1, i);
    }
}

proof fn lemma_poll_keeps_earlier(p: PoolView, j: int, i: int)
    requires
        0 <= i < j,
        i < p.relays.len(),
    ensures
        poll_from(p, j).0.relays[i] == p.relays[i],
        poll_from(p, j).0.relays.len() == p.relays.len(),
    decreases p.relays.len() - j,
{
    if j < p.relays.len() {
        if p.relays[j].inbox.len() == 0 {
            lemma_poll_keeps_earlier(p, j + 1, i);
        } else {
            let r = received(p.relays[j]);
            match p.relays[j].inbox[0] {
                WsEventView::Message(m) => {},
                WsEventView::Opened => {
                    lemma_poll_keeps_earlier(
                        PoolView { relays: p.relays.update(j, opened(r, p.subs)), ..p },
                        j + 1,
                        i,
                    );
                },
                _ => {
                    lemma_poll_keeps_earlier(PoolView { relays: p.relays.update(j, r), ..p }, j + 1, i);
                },
            }
        }
    }
}

/// Two keepalives less than the reconnect interval apart sweep for lost
/// sessions at most once.
pub proof fn lemma_reconnect_sweep_at_most_once(p: PoolView, t1: u64, t2: u64)
    requires
        t1 <= t2,
        t2 - t1 < RELAY_RECONNECT_SECONDS * 1000,
    ensures
        !(reconnect_due(p, t1) && reconnect_due(after_keepalive(p, t1), t2)),
{
}

/// A keepalive once the ping interval has passed probes every session that
/// was connected, and restarts the ping clock.
pub proof fn lemma_ping_sweep_when_due(p: PoolView, now: u64)
    requires
        ping_due(p, now),
    ensures
        after_keepalive(p, now).last_ping == now,
        after_keepalive(p, now).relays.len() == p.relays.len(),
        forall|i: int|
            0 <= i < p.relays.len() && p.relays[i].status == RelayStatus::Connected
                ==> #[trigger] after_keepalive(p, now).relays[i] == pinged(p.relays[i]),
{
    let q = reconnect_sweep(p, now);
    assert(ping_due(q, now));
    assert forall|i: int|
        0 <= i < p.relays.len() && p.relays[i].status == RelayStatus::Connected
            implies #[trigger] after_keepalive(p, now).relays[i] == pinged(p.relays[i]) by {
        assert(q.relays[i] == p.relays[i]);
    }
}

/// Removing a URL that the pool does not hold changes nothing.
pub proof fn lemma_remove_unknown(p: PoolView, url: Seq<char>)
    requires
        !has_url(p.relays, url),
    ensures
        without_url(p.relays, url) == p.relays,
        without_url(p.relays, url).len() == p.relays.len(),
{
}

/// A broadcast when no session is connected writes nothing anywhere.
pub proof fn lemma_broadcast_none_connected(rs: Seq<RelayView>, m: WsMessageView)
    requires
        forall|i: int| 0 <= i < rs.len() ==> (#[trigger] rs[i]).status != RelayStatus::Connected,
    ensures
        broadcast(rs, m) == rs,
{
    assert(broadcast(rs, m) =~= rs);
}

} // verus!
