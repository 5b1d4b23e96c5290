//! Frames that relays send to the client: their model, decoding and encoding.
use crate::connection::{WsEvent, WsMessage};
use crate::client::{
    append_quoted, escape, escape_char, lemma_escape_char_nonempty, lemma_escape_front,
    lemma_escape_scan, lemma_hex_digit,
};
use crate::error::Error;
use crate::json::{
    chars_of, elem_at, elem_ok, elems_from, frame_elems, is_ws, lemma_nest_end_bounds,
    lemma_nest_end_local, lemma_str_end_bounds, lemma_str_end_local, lemma_ws_end_past, lemma_ws_end_stop, nest_end, scan_frame, str_end,
    token_elem, token_in, tokens_elems, ws_end, Elem, Token, unescape_from, unescape_span, prefixed,
    hex4, is_short_escape, short_unescape,
};
use crate::outside::scalar;
use vstd::prelude::*;

verus! {

/// A relay's answer to a published event. String fields hold the characters
/// that the frame's string literals stand for, escapes resolved.
#[derive(Debug, PartialEq, Eq)]
pub struct CommandResult {
    pub event_id: String,
    pub status: bool,
    pub message: String,
}

/// A frame from a relay to the client. String fields hold the characters
/// that the frame's string literals stand for, escapes resolved; the event
/// object is kept as its text.
#[derive(Debug, PartialEq, Eq)]
pub enum RelayMessage {
    /// `["EVENT", <subscription id>, <event object>]`: the subscription id and
    /// the event object's text.
    Event(String, String),
    /// `["OK", <event id>, <true|false>, <message>]`.
    OK(CommandResult),
    /// `["EOSE", <subscription id>]`.
    Eose(String),
    /// `["CLOSED", <subscription id>, <message>]`.
    Closed(String, String),
    /// `["NOTICE", <message>]`.
    Notice(String),
}

/// The mathematical model of a [`RelayMessage`].
pub enum RelayMessageView {
    Event { sub_id: Seq<char>, event: Seq<char> },
    OK { event_id: Seq<char>, status: bool, message: Seq<char> },
    Eose { sub_id: Seq<char> },
    Closed { sub_id: Seq<char>, message: Seq<char> },
    Notice { message: Seq<char> },
}

impl View for RelayMessage {
    type V = RelayMessageView;

    open spec fn view(&self) -> RelayMessageView {
        match self {
            RelayMessage::Event(s, e) => RelayMessageView::Event { sub_id: s@, event: e@ },
            RelayMessage::OK(c) => RelayMessageView::OK {
                event_id: c.event_id@,
                status: c.status,
                message: c.message@,
            },
            RelayMessage::Eose(s) => RelayMessageView::Eose { sub_id: s@ },
            RelayMessage::Closed(s, m) => RelayMessageView::Closed { sub_id: s@, message: m@ },
            RelayMessage::Notice(m) => RelayMessageView::Notice { message: m@ },
        }
    }
}

/// The message that a frame's elements spell: the discriminant first (as
/// written), then exactly the fields of that kind, each of its type, string
/// fields with their escapes resolved.
/// What a string element stands for.
pub open spec fn str_val(e: Elem) -> Option<Seq<char>> {
    match e {
        Elem::Str(b) => unescape_from(b, 0),
        _ => None,
    }
}

pub open spec fn message_of(es: Seq<Elem>) -> Option<RelayMessageView> {
    if es.len() == 0 {
        None
    } else {
        match es[0] {
            Elem::Str(tag) => {
                if tag == "EVENT"@ {
                    if es.len() == 3 && str_val(es[1]) is Some && es[2] is Obj {
                        Some(RelayMessageView::Event { sub_id: str_val(es[1])->Some_0, event: es[2]->Obj_0 })
                    } else {
                        None
                    }
                } else if tag == "OK"@ {
                    if es.len() == 4 && str_val(es[1]) is Some && es[2] is Bool && str_val(es[3]) is Some {
                        Some(
                            RelayMessageView::OK {
                                event_id: str_val(es[1])->Some_0,
                                status: es[2]->Bool_0,
                                message: str_val(es[3])->Some_0,
                            },
                        )
                    } else {
                        None
                    }
                } else if tag == "EOSE"@ {
                    if es.len() == 2 && str_val(es[1]) is Some {
                        Some(RelayMessageView::Eose { sub_id: str_val(es[1])->Some_0 })
                    } else {
                        None
                    }
                } else if tag == "CLOSED"@ {
                    if es.len() == 3 && str_val(es[1]) is Some && str_val(es[2]) is Some {
                        Some(RelayMessageView::Closed { sub_id: str_val(es[1])->Some_0, message: str_val(es[2])->Some_0 })
                    } else {
                        None
                    }
                } else if tag == "NOTICE"@ {
                    if es.len() == 2 && str_val(es[1]) is Some {
                        Some(RelayMessageView::Notice { message: str_val(es[1])->Some_0 })
                    } else {
                        None
                    }
                } else {
                    None
                }
            },
            _ => None,
        }
    }
}

/// What decoding the text `s` gives.
pub open spec fn decode(s: Seq<char>) -> Result<RelayMessageView, Error> {
    if s.len() == 0 {
        Err(Error::Empty)
    } else {
        match frame_elems(s) {
            Some(es) => match message_of(es) {
                Some(m) => Ok(m),
                None => Err(Error::DecodeFailed),
            },
            None => Err(Error::DecodeFailed),
        }
    }
}

/// Whether the characters of `v` from `a` to `b` spell `lit`.
fn span_is(v: &Vec<char>, a: usize, b: usize, lit: &str) -> (r: bool)
    requires
        a <= b <= v.len(),
    ensures
        r == (v@.subrange(a as int, b as int) == lit@),
{
    let w = chars_of(lit);
    if b - a != w.len() {
        assert(v@.subrange(a as int, b as int).len() != lit@.len());
        return false;
    }
    let mut k: usize = 0;
    while k < w.len()
        invariant
            k <= w.len(),
            b - a == w.len(),
            a <= b <= v.len(),
            w@ == lit@,
            forall|n: int| 0 <= n < k ==> v@[a + n] == w@[n],
        decreases w.len() - k,
    {
        if v[a + k] != w[k] {
            assert(v@.subrange(a as int, b as int)[k as int] != lit@[k as int]);
            return false;
        }
        k = k + 1;
    }
    assert(v@.subrange(a as int, b as int) =~= lit@);
    true
}

/// The characters of `msg` that a string or object token covers.
fn span_text(msg: &str, t: Token) -> (r: String)
    requires
        t is Str || t is Obj,
        token_in(msg@, t),
    ensures
        t is Str ==> token_elem(msg@, t) == Elem::Str(r@),
        t is Obj ==> token_elem(msg@, t) == Elem::Obj(r@),
{
    match t {
        Token::Str(a, b) => msg.substring_char(a, b).to_owned(),
        Token::Obj(a, b) => msg.substring_char(a, b).to_owned(),
        Token::Bool(_) => String::new(),
    }
}

/// The characters that a string token stands for; `None` for any other
/// token, or a string whose escapes name half of a surrogate pair alone.
fn str_field(v: &Vec<char>, t: Token) -> (r: Option<String>)
    requires
        token_in(v@, t),
    ensures
        match str_val(token_elem(v@, t)) {
            Some(x) => r is Some && r->Some_0@ == x,
            None => r is None,
        },
{
    match t {
        Token::Str(a, b) => unescape_span(v, a, b),
        _ => None,
    }
}

impl RelayMessage {
    pub fn eose(subid: &str) -> (r: Self)
        ensures
            r@ == (RelayMessageView::Eose { sub_id: subid@ }),
    {
        RelayMessage::Eose(subid.to_owned())
    }

    pub fn notice(msg: &str) -> (r: Self)
        ensures
            r@ == (RelayMessageView::Notice { message: msg@ }),
    {
        RelayMessage::Notice(msg.to_owned())
    }

    pub fn ok(event_id: &str, status: bool, message: &str) -> (r: Self)
        ensures
            r@ == (RelayMessageView::OK { event_id: event_id@, status, message: message@ }),
    {
        RelayMessage::OK(
            CommandResult { event_id: event_id.to_owned(), status, message: message.to_owned() },
        )
    }

    pub fn event(ev: &str, sub_id: &str) -> (r: Self)
        ensures
            r@ == (RelayMessageView::Event { sub_id: sub_id@, event: ev@ }),
    {
        RelayMessage::Event(sub_id.to_owned(), ev.to_owned())
    }

    /// Decodes one frame of text from a relay.
    pub fn from_json(msg: &str) -> (r: Result<RelayMessage, Error>)
        ensures
            decode(msg@) is Ok ==> r is Ok && r->Ok_0@ == decode(msg@)->Ok_0,
            decode(msg@) is Err ==> r == Err::<RelayMessage, Error>(decode(msg@)->Err_0),
    {
        if msg.is_empty() {
            return Err(Error::Empty);
        }
        let v = chars_of(msg);
        let ts = match scan_frame(&v) {
            Some(ts) => ts,
            None => {
                return Err(Error::DecodeFailed);
            },
        };
        let ghost es = tokens_elems(v@, ts@);
        assert(frame_elems(msg@) == Some(es));
        if ts.len() == 0 {
            return Err(Error::DecodeFailed);
        }
        assert(es[0] == token_elem(v@, ts@[0]));
        let (a, b) = match ts[0] {
            Token::Str(a, b) => (a, b),
            _ => {
                return Err(Error::DecodeFailed);
            },
        };
        assert(token_in(v@, ts@[0]));
        let n = ts.len();
        proof {
            if n > 1 {
                assert(es[1] == token_elem(v@, ts@[1]));
                assert(token_in(v@, ts@[1]));
            }
            if n > 2 {
                assert(es[2] == token_elem(v@, ts@[2]));
                assert(token_in(v@, ts@[2]));
            }
            if n > 3 {
                assert(es[3] == token_elem(v@, ts@[3]));
                assert(token_in(v@, ts@[3]));
            }
        }
        if span_is(&v, a, b, "EVENT") {
            if n == 3 && matches!(ts[2], Token::Obj(..)) {
                if let Some(sub) = str_field(&v, ts[1]) {
                    let ev = span_text(msg, ts[2]);
                    return Ok(RelayMessage::Event(sub, ev));
                }
            }
        } else if span_is(&v, a, b, "OK") {
            if n == 4 {
                if let Token::Bool(status) = ts[2] {
                    if let Some(event_id) = str_field(&v, ts[1]) {
                        if let Some(message) = str_field(&v, ts[3]) {
                            return Ok(RelayMessage::OK(CommandResult { event_id, status, message }));
                        }
                    }
                }
            }
        } else if span_is(&v, a, b, "EOSE") {
            if n == 2 {
                if let Some(sub) = str_field(&v, ts[1]) {
                    return Ok(RelayMessage::Eose(sub));
                }
            }
        } else if span_is(&v, a, b, "CLOSED") {
            if n == 3 {
                if let Some(sub) = str_field(&v, ts[1]) {
                    if let Some(message) = str_field(&v, ts[2]) {
                        return Ok(RelayMessage::Closed(sub, message));
                    }
                }
            }
        } else if span_is(&v, a, b, "NOTICE") {
            if n == 2 {
                if let Some(message) = str_field(&v, ts[1]) {
                    return Ok(RelayMessage::Notice(message));
                }
            }
        }
        Err(Error::DecodeFailed)
    }
}

/// A transport event, with text frames decoded.
#[derive(Debug)]
pub enum RelayEvent {
    Opened,
    Closed,
    /// A frame that is not text.
    Other(WsMessage),
    /// A transport error, or a text frame that did not decode.
    Error(Error),
    Message(RelayMessage),
}

impl RelayEvent {
    /// Classifies a transport event, decoding a text frame.
    pub fn from_event(value: WsEvent) -> (r: RelayEvent)
        ensures
            value is Opened ==> r is Opened,
            value is Closed ==> r is Closed,
            value is Error ==> r == RelayEvent::Error(Error::Generic(value->Error_0)),
            value is Message ==> match value->Message_0 {
                WsMessage::Text(t) => match decode(t@) {
                    Ok(m) => r is Message && r->Message_0@ == m,
                    Err(e) => r == RelayEvent::Error(e),
                },
                other => r == RelayEvent::Other(other),
            },
    {
        match value {
            WsEvent::Opened => RelayEvent::Opened,
            WsEvent::Closed => RelayEvent::Closed,
            WsEvent::Message(WsMessage::Text(s)) => match RelayMessage::from_json(s.as_str()) {
                Ok(msg) => RelayEvent::Message(msg),
                Err(err) => RelayEvent::Error(err),
            },
            WsEvent::Message(other) => RelayEvent::Other(other),
            WsEvent::Error(e) => RelayEvent::Error(Error::Generic(e)),
        }
    }
}

/// How an element is written: a string body between quotes, a boolean as
/// its literal, an object as its text.
pub open spec fn enc_elem(e: Elem) -> Seq<char> {
    match e {
        Elem::Str(b) => seq!['"'] + b + seq!['"'],
        Elem::Bool(b) => if b {
            seq!['t', 'r', 'u', 'e']
        } else {
            seq!['f', 'a', 'l', 's', 'e']
        },
        Elem::Obj(t) => t,
    }
}

/// The elements after the first, each after a comma, then the closing
/// bracket.
pub open spec fn enc_tail(es: Seq<Elem>) -> Seq<char>
    decreases es.len(),
{
    if es.len() == 0 {
        seq![']']
    } else {
        seq![','] + enc_elem(es[0]) + enc_tail(es.drop_first())
    }
}

/// A frame written without whitespace.
pub open spec fn enc_frame(es: Seq<Elem>) -> Seq<char> {
    if es.len() == 0 {
        seq!['[', ']']
    } else {
        seq!['['] + enc_elem(es[0]) + enc_tail(es.drop_first())
    }
}

/// The elements of the frame that carries `m`.
pub open spec fn elems_of(m: RelayMessageView) -> Seq<Elem> {
    match m {
        RelayMessageView::Event { sub_id, event } => seq![
            Elem::Str("EVENT"@),
            Elem::Str(escape(sub_id)),
            Elem::Obj(event),
        ],
        RelayMessageView::OK { event_id, status, message } => seq![
            Elem::Str("OK"@),
            Elem::Str(escape(event_id)),
            Elem::Bool(status),
            Elem::Str(escape(message)),
        ],
        RelayMessageView::Eose { sub_id } => seq![Elem::Str("EOSE"@), Elem::Str(escape(sub_id))],
        RelayMessageView::Closed { sub_id, message } => seq![
            Elem::Str("CLOSED"@),
            Elem::Str(escape(sub_id)),
            Elem::Str(escape(message)),
        ],
        RelayMessageView::Notice { message } => seq![Elem::Str("NOTICE"@), Elem::Str(escape(message))],
    }
}

/// The text of the frame that carries `m`.
pub open spec fn encode(m: RelayMessageView) -> Seq<char> {
    enc_frame(elems_of(m))
}

/// Appends a string element: `body` between quotes.
fn append_str_elem(out: &mut String, body: &str)
    ensures
        final(out)@ == old(out)@ + enc_elem(Elem::Str(body@)),
{
    proof { reveal_strlit("\""); }
    out.append("\"");
    out.append(body);
    out.append("\"");
    assert(out@ =~= old(out)@ + enc_elem(Elem::Str(body@)));
}

/// Appends the comma and the element that follow in a frame.
fn append_comma(out: &mut String)
    ensures
        final(out)@ == old(out)@ + seq![','],
{
    proof { reveal_strlit(","); }
    out.append(",");
}

proof fn lemma_enc_tail_unfold(es: Seq<Elem>)
    requires
        es.len() > 0,
    ensures
        enc_tail(es) == seq![','] + enc_elem(es[0]) + enc_tail(es.drop_first()),
{
}

impl RelayMessage {
    /// The frame's text, without whitespace.
    pub fn as_json(&self) -> (r: String)
        ensures
            r@ == encode(self@),
    {
        let mut out = String::from_str("[");
        proof {
            reveal_strlit("[");
            reveal_strlit("]");
            reveal_strlit("true");
            reveal_strlit("false");
        }
        let ghost es = elems_of(self@);
        match self {
            RelayMessage::Event(sub, ev) => {
                append_str_elem(&mut out, "EVENT");
                append_comma(&mut out);
                append_quoted(&mut out, sub.as_str());
                append_comma(&mut out);
                out.append(ev.as_str());
            },
            RelayMessage::OK(c) => {
                append_str_elem(&mut out, "OK");
                append_comma(&mut out);
                append_quoted(&mut out, c.event_id.as_str());
                append_comma(&mut out);
                if c.status {
                    out.append("true");
                } else {
                    out.append("false");
                }
                append_comma(&mut out);
                append_quoted(&mut out, c.message.as_str());
            },
            RelayMessage::Eose(sub) => {
                append_str_elem(&mut out, "EOSE");
                append_comma(&mut out);
                append_quoted(&mut out, sub.as_str());
            },
            RelayMessage::Closed(sub, m) => {
                append_str_elem(&mut out, "CLOSED");
                append_comma(&mut out);
                append_quoted(&mut out, sub.as_str());
                append_comma(&mut out);
                append_quoted(&mut out, m.as_str());
            },
            RelayMessage::Notice(m) => {
                append_str_elem(&mut out, "NOTICE");
                append_comma(&mut out);
                append_quoted(&mut out, m.as_str());
            },
        }
        out.append("]");
        proof {
            assert(es.len() >= 2);
            let t1 = es.drop_first();
            lemma_enc_tail_unfold(t1);
            if t1.len() > 1 {
                lemma_enc_tail_unfold(t1.drop_first());
                if t1.len() > 2 {
                    lemma_enc_tail_unfold(t1.drop_first().drop_first());
                    assert(t1.drop_first().drop_first().drop_first().len() == 0);
                } else {
                    assert(t1.drop_first().drop_first().len() == 0);
                }
            } else {
                assert(t1.drop_first().len() == 0);
            }
            assert(out@ =~= encode(self@));
        }
        out
    }
}

/// An element read from a frame can be written back: it is well formed, and
/// its text is the text it was read from.
proof fn lemma_elem_at_ok(s: Seq<char>, i: int)
    requires
        elem_at(s, i) is Some,
    ensures
        elem_ok(elem_at(s, i)->Some_0.0),
        i < elem_at(s, i)->Some_0.1 <= s.len(),
        s.subrange(i, elem_at(s, i)->Some_0.1) == enc_elem(elem_at(s, i)->Some_0.0),
{
    if s[i] == '"' {
        let k = str_end(s, i + 1)->Some_0;
        lemma_str_end_bounds(s, i + 1);
        let b = s.subrange(i + 1, k);
        let t = b.push('"');
        assert forall|m: int| i + 1 <= m <= k implies t[m + (-(i + 1))] == s[m] by {}
        lemma_str_end_local(s, i + 1, k, t, -(i + 1));
        assert(s.subrange(i, k + 1) =~= enc_elem(Elem::Str(b)));
    } else if i + 3 < s.len() && s[i] == 't' && s[i + 1] == 'r' && s[i + 2] == 'u' && s[i + 3]
        == 'e' {
        assert(s.subrange(i, i + 4) =~= enc_elem(Elem::Bool(true)));
    } else if i + 4 < s.len() && s[i] == 'f' && s[i + 1] == 'a' && s[i + 2] == 'l' && s[i + 3]
        == 's' && s[i + 4] == 'e' {
        assert(s.subrange(i, i + 5) =~= enc_elem(Elem::Bool(false)));
    } else {
        let j = nest_end(s, i + 1, seq!['{'])->Some_0;
        lemma_nest_end_bounds(s, i + 1, seq!['{']);
        let t = s.subrange(i, j);
        assert forall|m: int| i + 1 <= m < j implies t[m + (-i)] == s[m] by {}
        lemma_nest_end_local(s, i + 1, seq!['{'], j, t, -i);
    }
}

proof fn lemma_plain_quote_end(b: Seq<char>)
    ensures
        b.push('"')[b.len() as int] == '"',
{
}

/// The text of a well formed element reads back as that element.
proof fn lemma_elem_at_enc(s: Seq<char>, i: int, e: Elem)
    requires
        elem_ok(e),
        0 <= i,
        i + enc_elem(e).len() <= s.len(),
        s.subrange(i, i + enc_elem(e).len()) == enc_elem(e),
    ensures
        elem_at(s, i) == Some((e, i + enc_elem(e).len())),
{
    let n = enc_elem(e).len() as int;
    assert forall|m: int| 0 <= m < n implies s[i + m] == enc_elem(e)[m] by {
        assert(s.subrange(i, i + n)[m] == s[i + m]);
    }
    match e {
        Elem::Str(b) => {
            let t = b.push('"');
            assert(enc_elem(e)[0] == '"');
            assert(s[i] == '"');
            assert forall|m: int| 0 <= m <= b.len() implies s[m + (i + 1)] == t[m] by {
                assert(s[i + (m + 1)] == enc_elem(e)[m + 1]);
                assert(enc_elem(e)[m + 1] == t[m]);
            }
            lemma_str_end_bounds(t, 0);
            lemma_plain_quote_end(b);
            lemma_str_end_local(t, 0, b.len() as int, s, i + 1);
            assert forall|k: int| 0 <= k < b.len() implies s.subrange(i + 1, i + 1 + b.len())[k]
                == b[k] by {
                assert(s[k + (i + 1)] == t[k]);
                assert(t[k] == b[k]);
            }
            assert(s.subrange(i + 1, i + 1 + b.len()) =~= b);
        },
        Elem::Bool(b) => {
            if b {
                assert(s[i] == 't' && s[i + 1] == 'r' && s[i + 2] == 'u' && s[i + 3] == 'e');
            } else {
                assert(s[i] == 'f' && s[i + 1] == 'a' && s[i + 2] == 'l' && s[i + 3] == 's' && s[i
                    + 4] == 'e');
            }
        },
        Elem::Obj(t) => {
            assert(s[i] == '{');
            assert forall|m: int| 1 <= m < t.len() implies s[m + i] == t[m] by {}
            lemma_nest_end_local(t, 1, seq!['{'], t.len() as int, s, i);
            assert(s.subrange(i, i + t.len()) =~= t);
        },
    }
}

proof fn lemma_enc_elem_start(e: Elem)
    requires
        elem_ok(e),
    ensures
        enc_elem(e).len() > 0,
        !is_ws(enc_elem(e)[0]),
        enc_elem(e)[0] != ']',
{
}

/// The rest of a written frame reads back as the elements it was written
/// from.
proof fn lemma_elems_from_enc(s: Seq<char>, p: int, rest: Seq<Elem>)
    requires
        forall|k: int| 0 <= k < rest.len() ==> elem_ok(#[trigger] rest[k]),
        0 <= p <= s.len(),
        s.subrange(p, s.len() as int) == enc_tail(rest),
    ensures
        elems_from(s, p) == Some(rest),
    decreases rest.len(),
{
    assert(enc_tail(rest).len() > 0);
    assert(s[p] == s.subrange(p, s.len() as int)[0]);
    lemma_ws_end_stop(s, p);
    if rest.len() == 0 {
        lemma_ws_end_past(s, p + 1);
    } else {
        let e = rest[0];
        let n = enc_elem(e).len() as int;
        let tail = rest.drop_first();
        let u = s.subrange(p, s.len() as int);
        lemma_enc_elem_start(e);
        assert(u == seq![','] + enc_elem(e) + enc_tail(tail));
        assert(s[p + 1] == u[1]);
        lemma_ws_end_stop(s, p + 1);
        assert(s.subrange(p + 1, p + 1 + n) =~= u.subrange(1, 1 + n));
        assert(u.subrange(1, 1 + n) =~= enc_elem(e));
        lemma_elem_at_enc(s, p + 1, e);
        assert(s.subrange(p + 1 + n, s.len() as int) =~= u.subrange(1 + n, u.len() as int));
        assert(u.subrange(1 + n, u.len() as int) =~= enc_tail(tail));
        assert forall|k: int| 0 <= k < tail.len() implies elem_ok(#[trigger] tail[k]) by {
            assert(tail[k] == rest[k + 1]);
        }
        lemma_elems_from_enc(s, p + 1 + n, tail);
        assert(seq![e] + tail =~= rest);
    }
}

/// A written frame reads back as the elements it was written from.
proof fn lemma_frame_enc(es: Seq<Elem>)
    requires
        forall|k: int| 0 <= k < es.len() ==> elem_ok(#[trigger] es[k]),
    ensures
        frame_elems(enc_frame(es)) == Some(es),
{
    let s = enc_frame(es);
    lemma_ws_end_stop(s, 0);
    if es.len() == 0 {
        lemma_ws_end_stop(s, 1);
        lemma_ws_end_past(s, 2);
    } else {
        let e = es[0];
        let n = enc_elem(e).len() as int;
        let tail = es.drop_first();
        lemma_enc_elem_start(e);
        assert(s[1] == enc_elem(e)[0]);
        lemma_ws_end_stop(s, 1);
        assert(s.subrange(1, 1 + n) =~= enc_elem(e));
        lemma_elem_at_enc(s, 1, e);
        assert(s.subrange(1 + n, s.len() as int) =~= enc_tail(tail));
        assert forall|k: int| 0 <= k < tail.len() implies elem_ok(#[trigger] tail[k]) by {
            assert(tail[k] == es[k + 1]);
        }
        lemma_elems_from_enc(s, 1 + n, tail);
        assert(seq![e] + tail =~= es);
    }
}

/// Every element of a frame that reads is well formed.
proof fn lemma_elems_from_ok(s: Seq<char>, i: int)
    requires
        elems_from(s, i) is Some,
    ensures
        forall|k: int|
            0 <= k < elems_from(s, i)->Some_0.len() ==> elem_ok(
                #[trigger] elems_from(s, i)->Some_0[k],
            ),
    decreases s.len() - i,
{
    let j = ws_end(s, i);
    if 0 <= i <= j < s.len() && s[j] == ']' {
    } else {
        let (e, k) = elem_at(s, ws_end(s, j + 1))->Some_0;
        lemma_elem_at_ok(s, ws_end(s, j + 1));
        lemma_elems_from_ok(s, k);
        let rest = elems_from(s, k)->Some_0;
        assert forall|m: int| 0 <= m < (seq![e] + rest).len() implies elem_ok(
            #[trigger] (seq![e] + rest)[m],
        ) by {
            if m > 0 {
                assert((seq![e] + rest)[m] == rest[m - 1]);
            }
        }
    }
}

proof fn lemma_frame_ok(s: Seq<char>)
    requires
        frame_elems(s) is Some,
    ensures
        forall|k: int|
            0 <= k < frame_elems(s)->Some_0.len() ==> elem_ok(#[trigger] frame_elems(s)->Some_0[k]),
{
    let i = ws_end(s, 0);
    let j = ws_end(s, i + 1);
    if j < s.len() && s[j] == ']' {
    } else {
        let (e, k) = elem_at(s, j)->Some_0;
        lemma_elem_at_ok(s, j);
        lemma_elems_from_ok(s, k);
        let rest = elems_from(s, k)->Some_0;
        assert forall|m: int| 0 <= m < (seq![e] + rest).len() implies elem_ok(
            #[trigger] (seq![e] + rest)[m],
        ) by {
            if m > 0 {
                assert((seq![e] + rest)[m] == rest[m - 1]);
            }
        }
    }
}

/// A body of ordinary characters, with no quote, backslash or control
/// character, scans to its end.
proof fn lemma_plain_body(b: Seq<char>, i: int)
    requires
        0 <= i <= b.len(),
        forall|k: int| 0 <= k < b.len() ==> b[k] != '"' && b[k] != '\\' && !('\u{1f}' >= b[k]),
    ensures
        str_end(b.push('"'), i) == Some(b.len() as int),
    decreases b.len() - i,
{
    if i < b.len() {
        assert(b.push('"')[i] == b[i]);
        lemma_plain_body(b, i + 1);
    }
}

proof fn lemma_tags()
    ensures
        elem_ok(Elem::Str("EVENT"@)),
        elem_ok(Elem::Str("OK"@)),
        elem_ok(Elem::Str("EOSE"@)),
        elem_ok(Elem::Str("CLOSED"@)),
        elem_ok(Elem::Str("NOTICE"@)),
        "EVENT"@ != "OK"@,
        "EVENT"@ != "EOSE"@,
        "EVENT"@ != "CLOSED"@,
        "EVENT"@ != "NOTICE"@,
        "OK"@ != "EOSE"@,
        "OK"@ != "CLOSED"@,
        "OK"@ != "NOTICE"@,
        "EOSE"@ != "CLOSED"@,
        "EOSE"@ != "NOTICE"@,
        "CLOSED"@ != "NOTICE"@,
{
    reveal_strlit("EVENT");
    reveal_strlit("OK");
    reveal_strlit("EOSE");
    reveal_strlit("CLOSED");
    reveal_strlit("NOTICE");
    lemma_plain_body("EVENT"@, 0);
    lemma_plain_body("OK"@, 0);
    lemma_plain_body("EOSE"@, 0);
    lemma_plain_body("CLOSED"@, 0);
    lemma_plain_body("NOTICE"@, 0);
    assert("CLOSED"@[0] != "NOTICE"@[0]);
    assert("EVENT"@[0] != "EOSE"@[1]);
    assert("EVENT"@.len() != "EOSE"@.len());
}

/// Reading an escaped character back gives that character.
proof fn lemma_unescape_unit(s: Seq<char>, i: int, c: char)
    requires
        0 <= i,
        i + escape_char(c).len() <= s.len(),
        s.subrange(i, i + escape_char(c).len()) == escape_char(c),
    ensures
        unescape_from(s, i) == prefixed(c, unescape_from(s, i + escape_char(c).len())),
{
    let e = escape_char(c);
    lemma_escape_char_nonempty(c);
    assert forall|m: int| 0 <= m < e.len() implies s[i + m] == e[m] by {
        assert(s.subrange(i, i + e.len())[m] == s[i + m]);
    }
    assert(s[i] == e[0]);
    if e.len() >= 2 {
        assert(s[i + 1] == e[1]);
    }
    if e.len() == 6 {
        assert(s[i + 2] == e[2] && s[i + 3] == e[3] && s[i + 4] == e[4] && s[i + 5] == e[5]);
        lemma_hex_digit(c as int / 16);
        lemma_hex_digit(c as int % 16);
        lemma_hex_digit(0);
        assert(!is_short_escape('u'));
        assert(hex4(s, i + 2) == c as int);
        assert(scalar(c as int) == c);
    }
}

/// Reading back what `escape` wrote gives the original characters.
proof fn lemma_unescape_escape(s: Seq<char>, i: int, x: Seq<char>)
    requires
        0 <= i,
        i + escape(x).len() == s.len(),
        s.subrange(i, s.len() as int) == escape(x),
    ensures
        unescape_from(s, i) == Some(x),
    decreases x.len(),
{
    if x.len() == 0 {
    } else {
        lemma_escape_front(x);
        let e = escape_char(x[0]);
        let n = e.len() as int;
        lemma_escape_char_nonempty(x[0]);
        assert(s.subrange(i, i + n) =~= escape(x).subrange(0, n));
        assert(escape(x).subrange(0, n) =~= e);
        lemma_unescape_unit(s, i, x[0]);
        assert(s.subrange(i + n, s.len() as int) =~= escape(x).subrange(n, escape(x).len() as int));
        assert(escape(x).subrange(n, escape(x).len() as int) =~= escape(x.drop_first()));
        lemma_unescape_escape(s, i + n, x.drop_first());
        assert(seq![x[0]] + x.drop_first() =~= x);
    }
}

/// An escaped string is a well formed string body, standing for itself.
proof fn lemma_escape_ok(x: Seq<char>)
    ensures
        elem_ok(Elem::Str(escape(x))),
        str_val(Elem::Str(escape(x))) == Some(x),
{
    let t = escape(x).push('"');
    assert(t.subrange(0, escape(x).len() as int) =~= escape(x));
    lemma_escape_scan(t, 0, x);
    assert(t[escape(x).len() as int] == '"');
    assert(escape(x).subrange(0, escape(x).len() as int) =~= escape(x));
    lemma_unescape_escape(escape(x), 0, x);
}

/// The fields of `m` can be written: its event, if it carries one, is a
/// balanced object. Any string can be written.
pub open spec fn writable(m: RelayMessageView) -> bool {
    match m {
        RelayMessageView::Event { event, .. } => elem_ok(Elem::Obj(event)),
        _ => true,
    }
}

proof fn lemma_message_elems(m: RelayMessageView)
    requires
        writable(m),
    ensures
        forall|k: int| 0 <= k < elems_of(m).len() ==> elem_ok(#[trigger] elems_of(m)[k]),
        message_of(elems_of(m)) == Some(m),
{
    lemma_tags();
    match m {
        RelayMessageView::Event { sub_id, event } => {
            lemma_escape_ok(sub_id);
        },
        RelayMessageView::OK { event_id, status, message } => {
            lemma_escape_ok(event_id);
            lemma_escape_ok(message);
        },
        RelayMessageView::Eose { sub_id } => {
            lemma_escape_ok(sub_id);
        },
        RelayMessageView::Closed { sub_id, message } => {
            lemma_escape_ok(sub_id);
            lemma_escape_ok(message);
        },
        RelayMessageView::Notice { message } => {
            lemma_escape_ok(message);
        },
    }
}

/// Every message whose fields can be written decodes from its own text.
pub proof fn lemma_encode_decode(m: RelayMessageView)
    requires
        writable(m),
    ensures
        decode(encode(m)) == Ok::<RelayMessageView, Error>(m),
{
    lemma_message_elems(m);
    lemma_frame_enc(elems_of(m));
    assert(encode(m).len() > 0);
}

/// A message read from a frame, written back, reads back as itself.
pub proof fn lemma_decode_encode(s: Seq<char>)
    requires
        decode(s) is Ok,
    ensures
        decode(encode(decode(s)->Ok_0)) == decode(s),
{
    let es = frame_elems(s)->Some_0;
    let m = decode(s)->Ok_0;
    lemma_frame_ok(s);
    if m is Event {
        assert(elem_ok(es[2]));
    }
    lemma_encode_decode(m);
}

/// `w` is a run of whitespace.
pub open spec fn all_ws(w: Seq<char>) -> bool {
    forall|k: int| 0 <= k < w.len() ==> is_ws(#[trigger] w[k])
}

/// The rest of a frame written with whitespace: `ws[0]` after the element
/// before, then either the closing bracket and `ws[1]`, or a comma, `ws[1]`,
/// the next element and the rest.
pub open spec fn enc_ws_tail(es: Seq<Elem>, ws: Seq<Seq<char>>) -> Seq<char>
    decreases es.len(),
{
    if es.len() == 0 {
        ws[0] + seq![']'] + ws[1]
    } else {
        ws[0] + seq![','] + ws[1] + enc_elem(es[0]) + enc_ws_tail(
            es.drop_first(),
            ws.subrange(2, ws.len() as int),
        )
    }
}

/// A non-empty frame written with the whitespace runs `ws` around its
/// tokens: `ws[0]` before the opening bracket, `ws[1]` after it, then the
/// first element and the rest.
pub open spec fn enc_ws_frame(es: Seq<Elem>, ws: Seq<Seq<char>>) -> Seq<char> {
    ws[0] + seq!['['] + ws[1] + enc_elem(es[0]) + enc_ws_tail(
        es.drop_first(),
        ws.subrange(2, ws.len() as int),
    )
}

proof fn lemma_ws_run(s: Seq<char>, i: int, w: Seq<char>)
    requires
        0 <= i,
        i + w.len() <= s.len(),
        s.subrange(i, i + w.len()) == w,
        all_ws(w),
        i + w.len() == s.len() || !is_ws(s[i + w.len()]),
    ensures
        ws_end(s, i) == i + w.len(),
    decreases w.len(),
{
    if w.len() == 0 {
        if i == s.len() {
            lemma_ws_end_past(s, i);
        } else {
            lemma_ws_end_stop(s, i);
        }
    } else {
        assert(s[i] == s.subrange(i, i + w.len())[0]);
        assert(s.subrange(i + 1, i + w.len()) =~= w.drop_first());
        lemma_ws_run(s, i + 1, w.drop_first());
    }
}

proof fn lemma_elems_from_ws(s: Seq<char>, p: int, rest: Seq<Elem>, ws: Seq<Seq<char>>)
    requires
        forall|k: int| 0 <= k < rest.len() ==> elem_ok(#[trigger] rest[k]),
        ws.len() == 2 * rest.len() + 2,
        forall|k: int| 0 <= k < ws.len() ==> all_ws(#[trigger] ws[k]),
        0 <= p <= s.len(),
        s.subrange(p, s.len() as int) == enc_ws_tail(rest, ws),
    ensures
        elems_from(s, p) == Some(rest),
    decreases rest.len(),
{
    let u = s.subrange(p, s.len() as int);
    let w0 = ws[0];
    let w1 = ws[1];
    assert(all_ws(w0) && all_ws(w1));
    let a = w0.len() as int;
    let b = w1.len() as int;
    let j = p + a;
    if rest.len() == 0 {
        assert(u == w0 + seq![']'] + w1);
        assert(u.subrange(0, a) =~= w0);
        assert(s.subrange(p, j) =~= u.subrange(0, a));
        assert(s[j] == u[a]);
        lemma_ws_run(s, p, w0);
        assert(s.subrange(j + 1, s.len() as int) =~= u.subrange(a + 1, u.len() as int));
        assert(u.subrange(a + 1, u.len() as int) =~= w1);
        lemma_ws_run(s, j + 1, w1);
    } else {
        let e = rest[0];
        let tail = rest.drop_first();
        let wt = ws.subrange(2, ws.len() as int);
        let n = enc_elem(e).len() as int;
        lemma_enc_elem_start(e);
        assert(u == w0 + seq![','] + w1 + enc_elem(e) + enc_ws_tail(tail, wt));
        assert(u.subrange(0, a) =~= w0);
        assert(s.subrange(p, j) =~= u.subrange(0, a));
        assert(s[j] == u[a]);
        lemma_ws_run(s, p, w0);
        let m = j + 1 + b;
        assert(s.subrange(j + 1, m) =~= u.subrange(a + 1, a + 1 + b));
        assert(u.subrange(a + 1, a + 1 + b) =~= w1);
        assert(s[m] == u[a + 1 + b]);
        assert(u[a + 1 + b] == enc_elem(e)[0]);
        lemma_ws_run(s, j + 1, w1);
        assert(s.subrange(m, m + n) =~= u.subrange(m - p, m - p + n));
        assert(u.subrange(m - p, m - p + n) =~= enc_elem(e));
        lemma_elem_at_enc(s, m, e);
        assert(s.subrange(m + n, s.len() as int) =~= u.subrange(m + n - p, u.len() as int));
        assert(u.subrange(m + n - p, u.len() as int) =~= enc_ws_tail(tail, wt));
        assert forall|k: int| 0 <= k < tail.len() implies elem_ok(#[trigger] tail[k]) by {
            assert(tail[k] == rest[k + 1]);
        }
        assert forall|k: int| 0 <= k < wt.len() implies all_ws(#[trigger] wt[k]) by {
            assert(wt[k] == ws[k + 2]);
        }
        lemma_elems_from_ws(s, m + n, tail, wt);
        assert(seq![e] + tail =~= rest);
    }
}

/// Every message whose fields can be written decodes from its text written
/// with any whitespace around its tokens.
pub proof fn lemma_spaced_decode(m: RelayMessageView, ws: Seq<Seq<char>>)
    requires
        writable(m),
        ws.len() == 2 * elems_of(m).len() + 2,
        forall|k: int| 0 <= k < ws.len() ==> all_ws(#[trigger] ws[k]),
    ensures
        decode(enc_ws_frame(elems_of(m), ws)) == Ok::<RelayMessageView, Error>(m),
{
    lemma_message_elems(m);
    let es = elems_of(m);
    let s = enc_ws_frame(es, ws);
    let w0 = ws[0];
    let w1 = ws[1];
    assert(all_ws(w0) && all_ws(w1));
    let e = es[0];
    let tail = es.drop_first();
    let wt = ws.subrange(2, ws.len() as int);
    let n = enc_elem(e).len() as int;
    lemma_enc_elem_start(e);
    let i = w0.len() as int;
    assert(s.subrange(0, i) =~= w0);
    assert(s[i] == '[');
    lemma_ws_run(s, 0, w0);
    let j = i + 1 + w1.len();
    assert(s.subrange(i + 1, j) =~= w1);
    assert(s[j] == enc_elem(e)[0]);
    lemma_ws_run(s, i + 1, w1);
    assert(s.subrange(j, j + n) =~= enc_elem(e));
    lemma_elem_at_enc(s, j, e);
    assert(s.subrange(j + n, s.len() as int) =~= enc_ws_tail(tail, wt));
    assert forall|k: int| 0 <= k < tail.len() implies elem_ok(#[trigger] tail[k]) by {
        assert(tail[k] == es[k + 1]);
    }
    assert forall|k: int| 0 <= k < wt.len() implies all_ws(#[trigger] wt[k]) by {
        assert(wt[k] == ws[k + 2]);
    }
    lemma_elems_from_ws(s, j + n, tail, wt);
    assert(seq![e] + tail =~= es);
    assert(frame_elems(s) == Some(es));
    assert(s.len() > 0);
}

} // verus!
