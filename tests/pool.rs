use hoot::{
    Error, Relay, RelayMessage, RelayPool, RelayStatus, Subscription, WsEvent, WsMessage,
};

const URL: &str = "wss://relay.example.com";

fn relay<'a>(pool: &'a RelayPool, url: &str) -> &'a Relay {
    pool.relays().iter().find(|r| r.url() == url).unwrap()
}

fn text(m: &WsMessage) -> &str {
    match m {
        WsMessage::Text(t) => t.as_str(),
        other => panic!("not text: {:?}", other),
    }
}

#[test]
fn added_url_is_in_pool_and_connecting_until_opened() {
    let mut pool = RelayPool::new(0);
    assert!(pool.add_url(URL.to_string()).is_ok());
    assert_eq!(pool.relays().len(), 1);
    assert_eq!(relay(&pool, URL).status(), RelayStatus::Connecting);
    assert!(pool.take_outbox(URL).is_empty());
    assert!(pool.deliver(URL, WsEvent::Opened));
    assert_eq!(pool.try_recv(), None);
    assert_eq!(relay(&pool, URL).status(), RelayStatus::Connected);
}

#[test]
fn adding_same_url_twice_keeps_one_session() {
    let mut pool = RelayPool::new(0);
    pool.add_url(URL.to_string()).unwrap();
    pool.add_url("wss://other.example".to_string()).unwrap();
    pool.add_url(URL.to_string()).unwrap();
    assert_eq!(pool.relays().len(), 2);
    assert_eq!(pool.relays()[0].url(), URL);
}

#[test]
fn end_to_end_subscribe_and_receive() {
    let mut pool = RelayPool::new(0);
    pool.add_url(URL.to_string()).unwrap();
    pool.deliver(URL, WsEvent::Opened);
    let filter = nostr::Filter::new().kind(nostr::Kind::TextNote);
    let filter_text = serde_json::to_string(&filter).unwrap();
    let sub = Subscription::new("subid".to_string(), vec![filter]);
    pool.add_subscription(sub).unwrap();
    assert_eq!(pool.try_recv(), None);
    let sent = pool.take_outbox(URL);
    assert_eq!(sent.len(), 1);
    assert_eq!(text(&sent[0]), format!("[\"REQ\",\"subid\",{}]", filter_text));

    let event = "{\"id\":\"e1\",\"content\":\"hello\"}";
    let frame = format!("[\"EVENT\",\"subid\",{}]", event);
    pool.deliver(URL, WsEvent::Message(WsMessage::Text(frame)));
    assert_eq!(pool.try_recv(), Some(RelayMessage::Event("subid".to_string(), event.to_string())));
    assert_eq!(pool.try_recv(), None);
}

#[test]
fn no_request_before_connected_then_exactly_one() {
    let mut pool = RelayPool::new(0);
    pool.add_url(URL.to_string()).unwrap();
    pool.add_subscription(Subscription::new("a".to_string(), vec![])).unwrap();
    pool.add_subscription(Subscription::new("b".to_string(), vec![])).unwrap();
    assert!(pool.take_outbox(URL).is_empty());
    pool.deliver(URL, WsEvent::Opened);
    pool.try_recv();
    let sent = pool.take_outbox(URL);
    let texts: Vec<&str> = sent.iter().map(text).collect();
    assert_eq!(texts, vec!["[\"REQ\",\"a\"]", "[\"REQ\",\"b\"]"]);
}

#[test]
fn subscription_to_connected_session_is_sent_at_once() {
    let mut pool = RelayPool::new(0);
    pool.add_url(URL.to_string()).unwrap();
    pool.deliver(URL, WsEvent::Opened);
    pool.try_recv();
    pool.add_subscription(Subscription::new("a".to_string(), vec![])).unwrap();
    pool.add_subscription(Subscription::new("a".to_string(), vec![])).unwrap();
    let sent = pool.take_outbox(URL);
    assert_eq!(sent.len(), 2);
    pool.deliver(URL, WsEvent::Closed);
    pool.deliver(URL, WsEvent::Opened);
    pool.try_recv();
    assert_eq!(relay(&pool, URL).status(), RelayStatus::Disconnected);
    pool.try_recv();
    assert_eq!(relay(&pool, URL).status(), RelayStatus::Connected);
    assert_eq!(pool.take_outbox(URL).len(), 1);
}

#[test]
fn keepalive_reconnects_at_most_once_per_interval() {
    let mut pool = RelayPool::new(1000);
    pool.add_url(URL.to_string()).unwrap();
    assert!(pool.keepalive(5999).is_empty());
    assert_eq!(pool.keepalive(6000), vec![URL.to_string()]);
    assert_eq!(pool.get_last_reconnect_attempt(), 6000);
    assert_eq!(relay(&pool, URL).status(), RelayStatus::Connecting);
    assert!(pool.keepalive(10999).is_empty());
    assert_eq!(pool.keepalive(11000), vec![URL.to_string()]);
}

#[test]
fn keepalive_pings_connected_sessions_after_interval() {
    let mut pool = RelayPool::new(0);
    pool.add_url(URL.to_string()).unwrap();
    pool.add_url("wss://down.example".to_string()).unwrap();
    pool.deliver(URL, WsEvent::Opened);
    pool.try_recv();
    let stale = pool.keepalive(29_999);
    assert_eq!(stale, vec!["wss://down.example".to_string()]);
    assert!(pool.take_outbox(URL).is_empty());
    assert!(pool.keepalive(30_000).is_empty());
    assert_eq!(pool.take_outbox(URL), vec![WsMessage::Ping(vec![])]);
    assert!(pool.take_outbox("wss://down.example").is_empty());
    assert_eq!(relay(&pool, URL).status(), RelayStatus::Connected);
}

#[test]
fn remove_unknown_url_changes_nothing() {
    let mut pool = RelayPool::new(0);
    pool.add_url(URL.to_string()).unwrap();
    assert!(pool.remove_url("wss://unknown.example").is_none());
    assert_eq!(pool.relays().len(), 1);
    let removed = pool.remove_url(URL).unwrap();
    assert_eq!(removed.url(), URL);
    assert_eq!(pool.relays().len(), 0);
}

#[test]
fn broadcast_without_connected_sessions_succeeds() {
    let mut pool = RelayPool::new(0);
    pool.add_url(URL.to_string()).unwrap();
    assert!(pool.send(WsMessage::Text("x".to_string())).is_ok());
    assert!(pool.take_outbox(URL).is_empty());
    let mut empty = RelayPool::new(0);
    assert!(empty.send(WsMessage::Text("x".to_string())).is_ok());
}

#[test]
fn broadcast_reaches_connected_sessions_only() {
    let mut pool = RelayPool::new(0);
    pool.add_url(URL.to_string()).unwrap();
    pool.add_url("wss://down.example".to_string()).unwrap();
    pool.deliver(URL, WsEvent::Opened);
    pool.try_recv();
    pool.send(WsMessage::Text("x".to_string())).unwrap();
    assert_eq!(pool.take_outbox(URL), vec![WsMessage::Text("x".to_string())]);
    assert!(pool.take_outbox("wss://down.example").is_empty());
}

#[test]
fn relay_ping_is_answered_with_pong() {
    let mut pool = RelayPool::new(0);
    pool.add_url(URL.to_string()).unwrap();
    pool.deliver(URL, WsEvent::Opened);
    pool.deliver(URL, WsEvent::Message(WsMessage::Ping(vec![7, 8])));
    assert_eq!(pool.try_recv(), None);
    assert_eq!(pool.try_recv(), None);
    assert_eq!(pool.take_outbox(URL), vec![WsMessage::Pong(vec![7, 8])]);
}

#[test]
fn undecodable_text_is_dropped_and_session_kept() {
    let mut pool = RelayPool::new(0);
    pool.add_url(URL.to_string()).unwrap();
    pool.deliver(URL, WsEvent::Opened);
    pool.try_recv();
    pool.deliver(URL, WsEvent::Message(WsMessage::Text("[\"BOGUS\"]".to_string())));
    pool.deliver(URL, WsEvent::Message(WsMessage::Text(String::new())));
    pool.deliver(URL, WsEvent::Error("boom".to_string()));
    pool.deliver(URL, WsEvent::Message(WsMessage::Text("[\"EOSE\",\"s\"]".to_string())));
    assert_eq!(pool.try_recv(), None);
    assert_eq!(pool.try_recv(), None);
    assert_eq!(pool.try_recv(), None);
    assert_eq!(pool.try_recv(), Some(RelayMessage::eose("s")));
    assert_eq!(relay(&pool, URL).status(), RelayStatus::Connected);
}

#[test]
fn poll_visits_sessions_in_order() {
    let mut pool = RelayPool::new(0);
    pool.add_url("wss://a.example".to_string()).unwrap();
    pool.add_url("wss://b.example".to_string()).unwrap();
    pool.deliver("wss://a.example", WsEvent::Opened);
    pool.deliver("wss://b.example", WsEvent::Message(WsMessage::Text("[\"NOTICE\",\"b\"]".to_string())));
    assert_eq!(pool.try_recv(), Some(RelayMessage::notice("b")));
    assert_eq!(relay(&pool, "wss://a.example").status(), RelayStatus::Connected);
    assert!(!pool.deliver("wss://c.example", WsEvent::Opened));
}

#[test]
fn relay_send_refused_unless_connected() {
    let mut r = Relay::new(URL.to_string());
    assert!(matches!(r.send(WsMessage::Text("x".to_string())), Err(Error::RelayNotConnected)));
    r.deliver(WsEvent::Opened);
    assert_eq!(r.try_recv(), Some(WsEvent::Opened));
    assert!(r.send(WsMessage::Text("x".to_string())).is_ok());
    r.ping();
    assert_eq!(
        r.take_outbox(),
        vec![WsMessage::Text("x".to_string()), WsMessage::Ping(vec![])]
    );
    r.reconnect();
    assert_eq!(r.status(), RelayStatus::Connecting);
    r.ping();
    assert_eq!(r.status(), RelayStatus::Disconnected);
    assert!(r.take_outbox().is_empty());
    let fresh = Relay::new(URL.to_string());
    assert_eq!(fresh.status(), RelayStatus::Connecting);
}

#[test]
fn ping_all_probes_every_session() {
    let mut pool = RelayPool::new(0);
    pool.add_url(URL.to_string()).unwrap();
    pool.add_url("wss://b.example".to_string()).unwrap();
    pool.deliver(URL, WsEvent::Opened);
    pool.try_recv();
    pool.keepalive(5000);
    assert!(pool.ping_all().is_ok());
    assert_eq!(pool.take_outbox(URL), vec![WsMessage::Ping(vec![])]);
    assert_eq!(relay(&pool, "wss://b.example").status(), RelayStatus::Disconnected);
    assert!(pool.take_outbox("wss://b.example").is_empty());
}

#[test]
fn default_subscription_has_random_alphanumeric_id() {
    let a = Subscription::default();
    let b = Subscription::default();
    assert_eq!(a.id.len(), 7);
    assert!(a.id.chars().all(|c| c.is_ascii_alphanumeric()));
    assert!(a.filters.is_empty());
    assert_ne!(a.id, b.id);
}

#[test]
fn subscription_filter_appends() {
    let mut sub = Subscription::new("s".to_string(), vec![]);
    sub.filter(nostr::Filter::new().kind(nostr::Kind::Metadata));
    sub.filter(nostr::Filter::new().limit(3));
    assert_eq!(sub.filters.len(), 2);
    assert_eq!(sub.filters[1], nostr::Filter::new().limit(3));
}

#[test]
fn subscribe_succeeds_and_is_registered() {
    let mut pool = RelayPool::new(0);
    pool.add_url(URL.to_string()).unwrap();
    pool.deliver(URL, WsEvent::Opened);
    pool.try_recv();
    let filter = nostr::Filter::new().kind(nostr::Kind::TextNote).limit(5);
    let filter_text = serde_json::to_string(&filter).unwrap();
    assert!(pool.add_subscription(Subscription::new("s1".to_string(), vec![filter])).is_ok());
    assert_eq!(pool.subscription_count(), 1);
    assert_eq!(pool.subscription(0).id, "s1");
    let sent = pool.take_outbox(URL);
    assert_eq!(sent.len(), 1);
    assert_eq!(text(&sent[0]), format!("[\"REQ\",\"s1\",{}]", filter_text));
}
