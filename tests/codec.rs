use hoot::client::{close_frame, req_frame};
use hoot::{ClientMessage, Error, RelayEvent, RelayMessage, WsEvent, WsMessage};

const EVENT_ID: &str = "b1a649ebe8b435ec71d3784793f3bbf4b93e64e17568a741aecd4c7ddeafce30";

#[test]
fn decode_empty_gives_empty_error() {
    assert!(matches!(RelayMessage::from_json(""), Err(Error::Empty)));
}

#[test]
fn decode_unknown_kind_fails() {
    assert!(matches!(RelayMessage::from_json("[\"BOGUS\",\"x\"]"), Err(Error::DecodeFailed)));
}

#[test]
fn decode_ok_frame() {
    let text = format!("[\"OK\",\"{}\", true, \"msg\"]", EVENT_ID);
    let decoded = RelayMessage::from_json(&text).unwrap();
    assert_eq!(decoded, RelayMessage::ok(EVENT_ID, true, "msg"));
}

#[test]
fn decode_ok_frame_rejected() {
    let text = format!("[\"OK\",\"{}\",false,\"blocked: spam\"]", EVENT_ID);
    let decoded = RelayMessage::from_json(&text).unwrap();
    assert_eq!(decoded, RelayMessage::ok(EVENT_ID, false, "blocked: spam"));
}

#[test]
fn decode_ok_with_non_boolean_fails() {
    let text = format!("[\"OK\",\"{}\",\"true\",\"msg\"]", EVENT_ID);
    assert!(matches!(RelayMessage::from_json(&text), Err(Error::DecodeFailed)));
    let text = format!("[\"OK\",\"{}\",tru,\"msg\"]", EVENT_ID);
    assert!(matches!(RelayMessage::from_json(&text), Err(Error::DecodeFailed)));
}

#[test]
fn decode_event_frame() {
    let text = "[\"EVENT\", \"sub1\", {\"id\":\"abc\",\"tags\":[[\"p\",\"x]\"]],\"content\":\"{hi}\"}]";
    let decoded = RelayMessage::from_json(text).unwrap();
    assert_eq!(
        decoded,
        RelayMessage::event("{\"id\":\"abc\",\"tags\":[[\"p\",\"x]\"]],\"content\":\"{hi}\"}", "sub1")
    );
}

#[test]
fn decode_eose_closed_notice() {
    assert_eq!(RelayMessage::from_json("[\"EOSE\",\"sub1\"]").unwrap(), RelayMessage::eose("sub1"));
    assert_eq!(
        RelayMessage::from_json(" [ \"CLOSED\" , \"sub1\" , \"auth-required: log in\" ] \n").unwrap(),
        RelayMessage::Closed("sub1".to_string(), "auth-required: log in".to_string())
    );
    assert_eq!(
        RelayMessage::from_json("[\"NOTICE\",\"rate limited\"]").unwrap(),
        RelayMessage::notice("rate limited")
    );
}

#[test]
fn decode_resolves_escapes() {
    let decoded = RelayMessage::from_json("[\"NOTICE\",\"say \\\"hi\\\" \\u00e9\\u00C9 \\/ \\t\"]").unwrap();
    assert_eq!(decoded, RelayMessage::notice("say \"hi\" éÉ / \t"));
    let pair = RelayMessage::from_json("[\"EOSE\",\"\\ud83d\\ude00!\"]").unwrap();
    assert_eq!(pair, RelayMessage::eose("\u{1F600}!"));
    let quoted = RelayMessage::from_json("[\"NOTICE\",\"a\\\"b\"]").unwrap();
    assert_eq!(quoted, RelayMessage::notice("a\"b"));
}

#[test]
fn decode_lone_surrogate_fails() {
    for text in ["[\"EOSE\",\"\\ud83d\"]", "[\"EOSE\",\"\\ude00\"]", "[\"EOSE\",\"\\ud83dx\\ude00\"]"] {
        assert!(matches!(RelayMessage::from_json(text), Err(Error::DecodeFailed)), "{}", text);
    }
}

#[test]
fn encode_escapes_fields() {
    let m = RelayMessage::notice("a\"b\\c\nd");
    assert_eq!(m.as_json(), "[\"NOTICE\",\"a\\\"b\\\\c\\nd\"]");
    assert_eq!(RelayMessage::from_json(&m.as_json()).unwrap(), m);
}

#[test]
fn decode_malformed_frames_fail() {
    let bad = [
        "[\"EOSE\"",
        "[\"EOSE\",\"sub1\"",
        "[\"EOSE\",\"sub1\"] x",
        "[\"EOSE\",\"sub1\",\"extra\"]",
        "[\"EOSE\"]",
        "[\"EOSE\",1]",
        "[\"EVENT\",\"sub1\",\"not an object\"]",
        "[\"EVENT\",\"sub1\",{\"a\":[1}]",
        "[\"NOTICE\",\"bad \\q escape\"]",
        "[\"NOTICE\",\"raw\ncontrol\"]",
        "{\"NOTICE\":\"x\"}",
        "[]",
        "   ",
    ];
    for text in bad {
        assert!(matches!(RelayMessage::from_json(text), Err(Error::DecodeFailed)), "{}", text);
    }
}

#[test]
fn encode_round_trip() {
    let frames = [
        "[\"EVENT\",\"sub1\",{\"content\":\"a ] b\"}]",
        "[\"OK\",\"abc\",true,\"\"]",
        "[\"EOSE\",\"s\"]",
        "[\"CLOSED\",\"s\",\"why\"]",
        "[\"NOTICE\",\"esc \\\\ \\n\"]",
    ];
    for text in frames {
        let decoded = RelayMessage::from_json(text).unwrap();
        assert_eq!(decoded.as_json(), text);
        assert_eq!(RelayMessage::from_json(&decoded.as_json()).unwrap(), decoded);
    }
    let spaced = RelayMessage::from_json("[ \"EOSE\" , \"s\" ]").unwrap();
    assert_eq!(spaced.as_json(), "[\"EOSE\",\"s\"]");
}

#[test]
fn close_frame_escapes_like_serde_json() {
    let id = "a\"b\\c\nd\u{1}e\u{1f}f\u{8}\u{c}\t\ré";
    let expected = format!("[\"CLOSE\",{}]", serde_json::to_string(id).unwrap());
    assert_eq!(close_frame(id), expected);
}

#[test]
fn req_frame_lists_filters() {
    let filters = vec!["{\"kinds\":[1]}".to_string(), "{\"limit\":2}".to_string()];
    assert_eq!(req_frame("sub", &filters), "[\"REQ\",\"sub\",{\"kinds\":[1]},{\"limit\":2}]");
    assert_eq!(req_frame("sub", &Vec::new()), "[\"REQ\",\"sub\"]");
}

#[test]
fn client_req_serializes_filters() {
    let filter = nostr::Filter::new().kind(nostr::Kind::TextNote);
    let expected = format!("[\"REQ\",\"sub1\",{}]", serde_json::to_string(&filter).unwrap());
    let msg = ClientMessage::Req { subscription_id: "sub1".to_string(), filters: vec![filter] };
    let text = msg.to_json().unwrap();
    assert_eq!(text, expected);
    assert!(text.contains("\"kinds\":[1]"));
}

#[test]
fn client_close_and_event_frames() {
    let msg = ClientMessage::Close { subscription_id: "sub1".to_string() };
    assert_eq!(msg.to_json().unwrap(), "[\"CLOSE\",\"sub1\"]");
    let keys = nostr::Keys::generate();
    let event = nostr::EventBuilder::text_note("hello").sign_with_keys(&keys).unwrap();
    let expected = format!("[\"EVENT\",{}]", serde_json::to_string(&event).unwrap());
    let text = ClientMessage::Event { event }.to_json().unwrap();
    assert_eq!(text, expected);
    assert!(text.contains("\"content\":\"hello\""));
}

#[test]
fn relay_event_classifies_transport_events() {
    assert!(matches!(RelayEvent::from_event(WsEvent::Opened), RelayEvent::Opened));
    assert!(matches!(RelayEvent::from_event(WsEvent::Closed), RelayEvent::Closed));
    match RelayEvent::from_event(WsEvent::Error("reset".to_string())) {
        RelayEvent::Error(Error::Generic(e)) => assert_eq!(e, "reset"),
        other => panic!("{:?}", other),
    }
    match RelayEvent::from_event(WsEvent::Message(WsMessage::Text("[\"EOSE\",\"s\"]".to_string()))) {
        RelayEvent::Message(m) => assert_eq!(m, RelayMessage::eose("s")),
        other => panic!("{:?}", other),
    }
    assert!(matches!(
        RelayEvent::from_event(WsEvent::Message(WsMessage::Text(String::new()))),
        RelayEvent::Error(Error::Empty)
    ));
    assert!(matches!(
        RelayEvent::from_event(WsEvent::Message(WsMessage::Binary(vec![1]))),
        RelayEvent::Other(WsMessage::Binary(_))
    ));
}

#[test]
fn client_message_from_subscription() {
    let sub = hoot::Subscription::new("s".to_string(), vec![nostr::Filter::new().limit(1)]);
    match ClientMessage::from(sub) {
        ClientMessage::Req { subscription_id, filters } => {
            assert_eq!(subscription_id, "s");
            assert_eq!(filters.len(), 1);
        }
        other => panic!("{:?}", other),
    }
}

#[test]
fn error_messages() {
    assert_eq!(Error::RelayNotConnected.message(), "Relay not connected");
    assert_eq!(Error::SerdeJson("bad".to_string()).message(), "JSON serialization error: bad");
    assert_eq!(Error::Generic("reset".to_string()).message(), "reset");
    assert_eq!(Error::Empty.message(), "Data was empty");
    assert_eq!(Error::DecodeFailed.message(), "Could not decode JSON data.");
}
