//! Frames that the client sends to relays, and how they are written.
use crate::error::Error;
use crate::json::{hex_val, is_hex, is_short_escape, str_end};
use crate::outside::{event_json, filter_json, json_string};
use crate::subscription::Subscription;
use vstd::prelude::*;

verus! {

pub open spec fn hex_digit(d: int) -> char {
    seq!['0', '1', '2', '3', '4', '5', '6', '7', '8', '9', 'a', 'b', 'c', 'd', 'e', 'f'][d]
}

/// How one character is written inside a JSON string literal: quote,
/// backslash and control characters escaped, short forms where JSON has them.
pub open spec fn escape_char(c: char) -> Seq<char> {
    if c == '"' {
        seq!['\\', '"']
    } else if c == '\\' {
        seq!['\\', '\\']
    } else if c == '\n' {
        seq!['\\', 'n']
    } else if c == '\r' {
        seq!['\\', 'r']
    } else if c == '\t' {
        seq!['\\', 't']
    } else if c == '\u{8}' {
        seq!['\\', 'b']
    } else if c == '\u{c}' {
        seq!['\\', 'f']
    } else if '\u{1f}' >= c {
        seq!['\\', 'u', '0', '0', hex_digit(c as int / 16), hex_digit(c as int % 16)]
    } else {
        seq![c]
    }
}

pub open spec fn escape(s: Seq<char>) -> Seq<char>
    decreases s.len(),
{
    if s.len() == 0 {
        Seq::empty()
    } else {
        escape(s.drop_last()) + escape_char(s.last())
    }
}

/// `s` as a JSON string literal.
pub open spec fn quoted(s: Seq<char>) -> Seq<char> {
    seq!['"'] + escape(s) + seq!['"']
}

/// Each of `parts`, preceded by a comma.
pub open spec fn comma_each(parts: Seq<Seq<char>>) -> Seq<char>
    decreases parts.len(),
{
    if parts.len() == 0 {
        Seq::empty()
    } else {
        comma_each(parts.drop_last()) + seq![','] + parts.last()
    }
}

/// `["REQ", <id>, <filter>, ...]`, with the filters' JSON texts.
pub open spec fn req_text(id: Seq<char>, filters: Seq<Seq<char>>) -> Seq<char> {
    seq!['[', '"', 'R', 'E', 'Q', '"', ','] + quoted(id) + comma_each(filters) + seq![']']
}

/// `["CLOSE", <id>]`.
pub open spec fn close_text(id: Seq<char>) -> Seq<char> {
    seq!['[', '"', 'C', 'L', 'O', 'S', 'E', '"', ','] + quoted(id) + seq![']']
}

/// `["EVENT", <event>]`, with the event's JSON text.
pub open spec fn event_text(event: Seq<char>) -> Seq<char> {
    seq!['[', '"', 'E', 'V', 'E', 'N', 'T', '"', ','] + event + seq![']']
}

/// Appends `s` as a JSON string literal.
pub fn append_quoted(out: &mut String, s: &str)
    ensures
        final(out)@ == old(out)@ + quoted(s@),
{
    let q = json_string(s);
    out.append(q.as_str());
}

/// Writes `["REQ", <id>, <filter>, ...]` from the filters' JSON texts.
pub fn req_frame(id: &str, filters: &Vec<String>) -> (r: String)
    ensures
        r@ == req_text(id@, filters@.map_values(|f: String| f@)),
{
    let mut out = String::from_str("[\"REQ\",");
    proof { reveal_strlit("[\"REQ\","); }
    append_quoted(&mut out, id);
    let ghost head = out@;
    assert(head =~= seq!['[', '"', 'R', 'E', 'Q', '"', ','] + quoted(id@));
    let mut k: usize = 0;
    while k < filters.len()
        invariant
            k <= filters.len(),
            out@ == head + comma_each(filters@.map_values(|f: String| f@).subrange(0, k as int)),
        decreases filters.len() - k,
    {
        out.append(",");
        out.append(filters[k].as_str());
        proof {
            reveal_strlit(",");
            let fs = filters@.map_values(|f: String| f@);
            assert(fs.subrange(0, k + 1).drop_last() =~= fs.subrange(0, k as int));
        }
        k = k + 1;
        assert(out@ =~= head + comma_each(filters@.map_values(|f: String| f@).subrange(0, k as int)));
    }
    out.append("]");
    proof { reveal_strlit("]"); }
    assert(filters@.map_values(|f: String| f@).subrange(0, k as int) =~= filters@.map_values(
        |f: String| f@,
    ));
    assert(out@ =~= req_text(id@, filters@.map_values(|f: String| f@)));
    out
}

/// Writes `["CLOSE", <id>]`.
pub fn close_frame(id: &str) -> (r: String)
    ensures
        r@ == close_text(id@),
{
    let mut out = String::from_str("[\"CLOSE\",");
    proof { reveal_strlit("[\"CLOSE\","); reveal_strlit("]"); }
    append_quoted(&mut out, id);
    out.append("]");
    assert(out@ =~= close_text(id@));
    out
}

/// Writes `["EVENT", <event>]` from the event's JSON text.
pub fn event_frame(event: &str) -> (r: String)
    ensures
        r@ == event_text(event@),
{
    let mut out = String::from_str("[\"EVENT\",");
    proof { reveal_strlit("[\"EVENT\","); reveal_strlit("]"); }
    out.append(event);
    out.append("]");
    assert(out@ =~= event_text(event@));
    out
}

/// Serializes each filter and writes the request frame for `id`.
pub fn req_json(id: &str, filters: &Vec<nostr::Filter>) -> (r: Result<String, Error>)
    ensures
        r is Ok,
        exists|texts: Seq<Seq<char>>|
            texts.len() == filters@.len() && r->Ok_0@ == req_text(id@, texts),
{
    let mut texts: Vec<String> = Vec::new();
    let mut k: usize = 0;
    while k < filters.len()
        invariant
            k <= filters.len(),
            texts@.len() == k,
        decreases filters.len() - k,
    {
        match filter_json(&filters[k]) {
            Ok(t) => texts.push(t),
            Err(e) => {
                return Err(Error::SerdeJson(e));
            },
        }
        k = k + 1;
    }
    let r = req_frame(id, &texts);
    assert(texts@.map_values(|f: String| f@).len() == filters@.len());
    Ok(r)
}

/// A frame from the client to a relay.
#[derive(Debug)]
pub enum ClientMessage {
    Event { event: nostr::Event },
    Req { subscription_id: String, filters: Vec<nostr::Filter> },
    Close { subscription_id: String },
}

impl ClientMessage {
    /// The frame's text.
    pub fn to_json(&self) -> (r: Result<String, Error>)
        ensures
            r is Ok,
            self is Close ==> r->Ok_0@ == close_text(self->Close_subscription_id@),
            self is Req ==> exists|texts: Seq<Seq<char>>|
                texts.len() == self->Req_filters@.len() && r->Ok_0@ == req_text(
                    self->Req_subscription_id@,
                    texts,
                ),
            self is Event ==> exists|text: Seq<char>| r->Ok_0@ == event_text(text),
    {
        match self {
            ClientMessage::Event { event } => match event_json(event) {
                Ok(t) => Ok(event_frame(t.as_str())),
                Err(e) => Err(Error::SerdeJson(e)),
            },
            ClientMessage::Req { subscription_id, filters } => req_json(
                subscription_id.as_str(),
                filters,
            ),
            ClientMessage::Close { subscription_id } => Ok(close_frame(subscription_id.as_str())),
        }
    }
}

/// `t` is a request frame for the subscription `id`.
pub open spec fn req_for_id(t: Seq<char>, id: Seq<char>) -> bool {
    exists|filters: Seq<Seq<char>>| t == req_text(id, filters)
}

proof fn lemma_escape_concat(a: Seq<char>, b: Seq<char>)
    ensures
        escape(a + b) == escape(a) + escape(b),
    decreases b.len(),
{
    if b.len() == 0 {
        assert(a + b =~= a);
        assert(escape(a) + escape(b) =~= escape(a));
    } else {
        assert((a + b).drop_last() =~= a + b.drop_last());
        assert((a + b).last() == b.last());
        lemma_escape_concat(a, b.drop_last());
        assert(escape(a + b) =~= escape(a) + escape(b));
    }
}

pub proof fn lemma_escape_front(x: Seq<char>)
    requires
        x.len() > 0,
    ensures
        escape(x) == escape_char(x[0]) + escape(x.drop_first()),
{
    let head = seq![x[0]];
    assert(head + x.drop_first() =~= x);
    lemma_escape_concat(head, x.drop_first());
    assert(head.drop_last() =~= Seq::<char>::empty());
    assert(head.last() == x[0]);
    assert(escape(head.drop_last()) =~= Seq::<char>::empty());
    assert(escape(head) == escape(head.drop_last()) + escape_char(head.last()));
    assert(escape(head) =~= escape_char(x[0]));
}

pub proof fn lemma_escape_char_nonempty(c: char)
    ensures
        escape_char(c).len() > 0,
{
}

pub open spec fn hex_value(h: char) -> int {
    if h <= '9' {
        h as int - '0' as int
    } else {
        h as int - 'a' as int + 10
    }
}

pub proof fn lemma_hex_digit(d: int)
    requires
        0 <= d < 16,
    ensures
        hex_value(hex_digit(d)) == d,
        hex_val(hex_digit(d)) == d,
        is_hex(hex_digit(d)),
{
    let digits = seq![
        '0', '1', '2', '3', '4', '5', '6', '7', '8', '9', 'a', 'b', 'c', 'd', 'e', 'f',
    ];
    assert(hex_digit(d) == digits[d]);
    if d == 0 { assert(digits[0] == '0'); }
    else if d == 1 { assert(digits[1] == '1'); }
    else if d == 2 { assert(digits[2] == '2'); }
    else if d == 3 { assert(digits[3] == '3'); }
    else if d == 4 { assert(digits[4] == '4'); }
    else if d == 5 { assert(digits[5] == '5'); }
    else if d == 6 { assert(digits[6] == '6'); }
    else if d == 7 { assert(digits[7] == '7'); }
    else if d == 8 { assert(digits[8] == '8'); }
    else if d == 9 { assert(digits[9] == '9'); }
    else if d == 10 { assert(digits[10] == 'a'); }
    else if d == 11 { assert(digits[11] == 'b'); }
    else if d == 12 { assert(digits[12] == 'c'); }
    else if d == 13 { assert(digits[13] == 'd'); }
    else if d == 14 { assert(digits[14] == 'e'); }
    else { assert(digits[15] == 'f'); }
}

/// No escaped character is a prefix of another's escape.
proof fn lemma_escape_char_prefix(c: char, d: char, s1: Seq<char>, s2: Seq<char>)
    requires
        escape_char(c) + s1 == escape_char(d) + s2,
    ensures
        c == d,
{
    let u = escape_char(c);
    let v = escape_char(d);
    let w = u + s1;
    lemma_escape_char_nonempty(c);
    lemma_escape_char_nonempty(d);
    assert(w[0] == u[0]);
    assert(w[0] == v[0]);
    if u.len() >= 2 && v.len() >= 2 {
        assert(w[1] == u[1] && w[1] == v[1]);
        if u.len() == 6 && v.len() == 6 {
            assert(w[4] == u[4] && w[4] == v[4]);
            assert(w[5] == u[5] && w[5] == v[5]);
            lemma_hex_digit(c as int / 16);
            lemma_hex_digit(c as int % 16);
            lemma_hex_digit(d as int / 16);
            lemma_hex_digit(d as int % 16);
            assert(c as int == d as int);
        }
    }
}

proof fn lemma_escape_injective(x: Seq<char>, y: Seq<char>)
    requires
        escape(x) == escape(y),
    ensures
        x == y,
    decreases x.len(),
{
    if x.len() == 0 {
        if y.len() > 0 {
            lemma_escape_front(y);
            lemma_escape_char_nonempty(y[0]);
        }
        assert(x =~= y);
    } else {
        lemma_escape_front(x);
        lemma_escape_char_nonempty(x[0]);
        if y.len() == 0 {
            assert(false);
        } else {
            lemma_escape_front(y);
            assert(escape_char(x[0]) + escape(x.drop_first()) == escape_char(y[0]) + escape(
                y.drop_first(),
            ));
            lemma_escape_char_prefix(x[0], y[0], escape(x.drop_first()), escape(y.drop_first()));
            let n = escape_char(x[0]).len() as int;
            assert(escape(x.drop_first()) =~= escape(x).subrange(n, escape(x).len() as int));
            assert(escape(y.drop_first()) =~= escape(y).subrange(n, escape(y).len() as int));
            lemma_escape_injective(x.drop_first(), y.drop_first());
            assert(x =~= seq![x[0]] + x.drop_first());
            assert(y =~= seq![y[0]] + y.drop_first());
        }
    }
}

/// A string literal's scan steps over one escaped character at a time.
proof fn lemma_escape_char_scan(s: Seq<char>, j: int, c: char)
    requires
        0 <= j,
        j + escape_char(c).len() <= s.len(),
        s.subrange(j, j + escape_char(c).len()) == escape_char(c),
    ensures
        str_end(s, j) == str_end(s, j + escape_char(c).len()),
{
    let e = escape_char(c);
    assert forall|m: int| 0 <= m < e.len() implies s[j + m] == e[m] by {
        assert(s.subrange(j, j + e.len())[m] == s[j + m]);
    }
    assert(s[j] == e[0]);
    if e.len() >= 2 {
        assert(s[j + 1] == e[1]);
    }
    if e.len() == 6 {
        assert(s[j + 2] == e[2] && s[j + 3] == e[3] && s[j + 4] == e[4] && s[j + 5] == e[5]);
        lemma_hex_digit(c as int / 16);
        lemma_hex_digit(c as int % 16);
        assert(!is_short_escape('u'));
    }
}

pub proof fn lemma_escape_scan(s: Seq<char>, i: int, x: Seq<char>)
    requires
        0 <= i,
        i + escape(x).len() <= s.len(),
        s.subrange(i, i + escape(x).len()) == escape(x),
    ensures
        str_end(s, i) == str_end(s, i + escape(x).len()),
    decreases x.len(),
{
    if x.len() > 0 {
        let init = x.drop_last();
        let n = escape(init).len() as int;
        let e = escape_char(x.last());
        assert(escape(x) == escape(init) + e);
        assert(s.subrange(i, i + n) =~= escape(x).subrange(0, n));
        assert(escape(x).subrange(0, n) =~= escape(init));
        lemma_escape_scan(s, i, init);
        assert(s.subrange(i + n, i + n + e.len()) =~= escape(x).subrange(n, n + e.len()));
        assert(escape(x).subrange(n, n + e.len()) =~= e);
        lemma_escape_char_scan(s, i + n, x.last());
    }
}

/// In a request frame, the string literal of the identifier ends just after
/// the escaped identifier.
proof fn lemma_req_text_id(id: Seq<char>, filters: Seq<Seq<char>>)
    ensures
        str_end(req_text(id, filters), 8) == Some(8 + escape(id).len() as int),
        req_text(id, filters).subrange(8, 8 + escape(id).len() as int) == escape(id),
{
    let t = req_text(id, filters);
    let n = escape(id).len() as int;
    assert(t.subrange(8, 8 + n) =~= escape(id));
    assert(t[8 + n] == '"');
    lemma_escape_scan(t, 8, id);
}

/// A request frame names one subscription only.
pub proof fn lemma_req_for_one_id(t: Seq<char>, a: Seq<char>, b: Seq<char>)
    requires
        req_for_id(t, a),
        req_for_id(t, b),
    ensures
        a == b,
{
    let fa = choose|f: Seq<Seq<char>>| t == req_text(a, f);
    let fb = choose|f: Seq<Seq<char>>| t == req_text(b, f);
    lemma_req_text_id(a, fa);
    lemma_req_text_id(b, fb);
    lemma_escape_injective(a, b);
}

impl From<Subscription> for ClientMessage {
    /// The request for a subscription.
    fn from(value: Subscription) -> (r: Self) {
        Self::Req { subscription_id: value.id, filters: value.filters }
    }
}

impl vstd::std_specs::convert::FromSpecImpl<Subscription> for ClientMessage {
    open spec fn obeys_from_spec() -> bool {
        true
    }

    open spec fn from_spec(value: Subscription) -> Self {
        ClientMessage::Req { subscription_id: value.id, filters: value.filters }
    }
}

} // verus!
