//! Character-level scanning of relay frames: whitespace, string literals and
//! structurally balanced objects.
use crate::outside::{char_from_u32, push_char, scalar};
use vstd::prelude::*;

verus! {

/// Collects the characters of `s` into a vector.
pub fn chars_of(s: &str) -> (r: Vec<char>)
    ensures
        r@ == s@,
{
    let mut v: Vec<char> = Vec::new();
    for c in it: s.chars()
        invariant
            it.seq() == s@,
            v@ == it.seq().subrange(0, it.index() as int),
    {
        v.push(c);
    }
    v
}


/// JSON insignificant whitespace.
pub open spec fn is_ws(c: char) -> bool {
    c == ' ' || c == '\t' || c == '\n' || c == '\r'
}

pub open spec fn is_hex(c: char) -> bool {
    ('0' <= c && c <= '9') || ('a' <= c && c <= 'f') || ('A' <= c && c <= 'F')
}

/// The characters that may follow a backslash on their own.
pub open spec fn is_short_escape(c: char) -> bool {
    c == '"' || c == '\\' || c == '/' || c == 'b' || c == 'f' || c == 'n' || c == 'r' || c == 't'
}

/// First position at or after `i` that does not hold whitespace.
pub open spec fn ws_end(s: Seq<char>, i: int) -> int
    decreases s.len() - i,
{
    if 0 <= i < s.len() && is_ws(s[i]) {
        ws_end(s, i + 1)
    } else {
        i
    }
}

/// Scans the body of a string literal from `i` (just after the opening quote)
/// and gives the position of the closing quote, or `None` when the literal is
/// unterminated, holds a raw control character or a malformed escape.
pub open spec fn str_end(s: Seq<char>, i: int) -> Option<int>
    decreases s.len() - i,
{
    if i < 0 || i >= s.len() {
        None
    } else if s[i] == '"' {
        Some(i)
    } else if s[i] == '\\' {
        if i + 1 < s.len() && is_short_escape(s[i + 1]) {
            str_end(s, i + 2)
        } else if i + 5 < s.len() && s[i + 1] == 'u' && is_hex(s[i + 2]) && is_hex(s[i + 3])
            && is_hex(s[i + 4]) && is_hex(s[i + 5]) {
            str_end(s, i + 6)
        } else {
            None
        }
    } else if '\u{1f}' >= s[i] {
        None
    } else {
        str_end(s, i + 1)
    }
}

pub open spec fn closes(open: char, c: char) -> bool {
    (open == '{' && c == '}') || (open == '[' && c == ']')
}

/// Scans a structurally balanced value from `i`, with `open` the brackets not
/// yet closed, and gives the position just past the bracket that closes the
/// outermost one. String literals inside are scanned as such, so brackets in
/// them do not count.
pub open spec fn nest_end(s: Seq<char>, i: int, open: Seq<char>) -> Option<int>
    decreases s.len() - i,
{
    if i < 0 || i >= s.len() || open.len() == 0 {
        None
    } else if s[i] == '"' {
        match str_end(s, i + 1) {
            Some(j) => if i < j < s.len() {
                nest_end(s, j + 1, open)
            } else {
                None
            },
            None => None,
        }
    } else if s[i] == '{' || s[i] == '[' {
        nest_end(s, i + 1, open.push(s[i]))
    } else if s[i] == '}' || s[i] == ']' {
        if closes(open.last(), s[i]) {
            if open.len() == 1 {
                Some(i + 1)
            } else {
                nest_end(s, i + 1, open.drop_last())
            }
        } else {
            None
        }
    } else {
        nest_end(s, i + 1, open)
    }
}

pub fn is_ws_char(c: char) -> (r: bool)
    ensures
        r == is_ws(c),
{
    c == ' ' || c == '\t' || c == '\n' || c == '\r'
}

fn is_hex_char(c: char) -> (r: bool)
    ensures
        r == is_hex(c),
{
    ('0' <= c && c <= '9') || ('a' <= c && c <= 'f') || ('A' <= c && c <= 'F')
}

fn is_short_escape_char(c: char) -> (r: bool)
    ensures
        r == is_short_escape(c),
{
    c == '"' || c == '\\' || c == '/' || c == 'b' || c == 'f' || c == 'n' || c == 'r' || c == 't'
}

/// Skips whitespace from `i`.
pub fn skip_ws(v: &Vec<char>, i: usize) -> (r: usize)
    requires
        i <= v.len(),
    ensures
        r as int == ws_end(v@, i as int),
        i <= r <= v.len(),
{
    let mut j = i;
    while j < v.len()
        invariant
            i <= j <= v.len(),
            ws_end(v@, i as int) == ws_end(v@, j as int),
        decreases v.len() - j,
    {
        if !is_ws_char(v[j]) {
            assert(ws_end(v@, j as int) == j);
            return j;
        }
        j = j + 1;
    }
    assert(ws_end(v@, j as int) == j);
    j
}

/// Finds the closing quote of the string literal whose body starts at `i`.
pub fn scan_string(v: &Vec<char>, i: usize) -> (r: Option<usize>)
    requires
        i <= v.len(),
    ensures
        match r {
            Some(j) => str_end(v@, i as int) == Some(j as int) && i <= j < v.len(),
            None => str_end(v@, i as int) is None,
        },
{
    let mut j = i;
    while j < v.len()
        invariant
            i <= j <= v.len(),
            str_end(v@, i as int) == str_end(v@, j as int),
        decreases v.len() - j,
    {
        let c = v[j];
        if c == '"' {
            return Some(j);
        } else if c == '\\' {
            if j + 1 < v.len() && is_short_escape_char(v[j + 1]) {
                j = j + 2;
            } else if v.len() - j > 5 && v[j + 1] == 'u' && is_hex_char(v[j + 2]) && is_hex_char(
                v[j + 3],
            ) && is_hex_char(v[j + 4]) && is_hex_char(v[j + 5]) {
                j = j + 6;
            } else {
                return None;
            }
        } else if '\u{1f}' >= c {
            return None;
        } else {
            j = j + 1;
        }
    }
    None
}

/// Finds the end of the balanced value whose opening bracket stands at `i`.
pub fn scan_nested(v: &Vec<char>, i: usize) -> (r: Option<usize>)
    requires
        i < v.len(),
        v@[i as int] == '{' || v@[i as int] == '[',
    ensures
        match r {
            Some(j) => nest_end(v@, i + 1, seq![v@[i as int]]) == Some(j as int) && i < j <= v.len(),
            None => nest_end(v@, i + 1, seq![v@[i as int]]) is None,
        },
{
    let mut open: Vec<char> = Vec::new();
    open.push(v[i]);
    let mut j = i + 1;
    while j < v.len()
        invariant
            i < j <= v.len(),
            open@.len() > 0,
            nest_end(v@, i + 1, seq![v@[i as int]]) == nest_end(v@, j as int, open@),
        decreases v.len() - j,
    {
        let c = v[j];
        if c == '"' {
            match scan_string(v, j + 1) {
                Some(k) => {
                    j = k + 1;
                },
                None => {
                    return None;
                },
            }
        } else if c == '{' || c == '[' {
            open.push(c);
            j = j + 1;
        } else if c == '}' || c == ']' {
            let last = open[open.len() - 1];
            if (last == '{' && c == '}') || (last == '[' && c == ']') {
                if open.len() == 1 {
                    return Some(j + 1);
                }
                open.pop();
                j = j + 1;
            } else {
                return None;
            }
        } else {
            j = j + 1;
        }
    }
    None
}


/// One element of a frame, as the frame's text holds it: the body of a
/// string literal (escapes left as written), a boolean, or the full text of
/// an object.
pub enum Elem {
    Str(Seq<char>),
    Bool(bool),
    Obj(Seq<char>),
}

/// Reads the element that starts at `i`, with the position just past it.
pub open spec fn elem_at(s: Seq<char>, i: int) -> Option<(Elem, int)> {
    if i < 0 || i >= s.len() {
        None
    } else if s[i] == '"' {
        match str_end(s, i + 1) {
            Some(j) => Some((Elem::Str(s.subrange(i + 1, j)), j + 1)),
            None => None,
        }
    } else if i + 3 < s.len() && s[i] == 't' && s[i + 1] == 'r' && s[i + 2] == 'u' && s[i + 3]
        == 'e' {
        Some((Elem::Bool(true), i + 4))
    } else if i + 4 < s.len() && s[i] == 'f' && s[i + 1] == 'a' && s[i + 2] == 'l' && s[i + 3]
        == 's' && s[i + 4] == 'e' {
        Some((Elem::Bool(false), i + 5))
    } else if s[i] == '{' {
        match nest_end(s, i + 1, seq!['{']) {
            Some(j) => Some((Elem::Obj(s.subrange(i, j)), j)),
            None => None,
        }
    } else {
        None
    }
}

/// Reads the rest of a frame from `i`, just past an element: more elements,
/// each after a comma, then the closing bracket and nothing but whitespace.
pub open spec fn elems_from(s: Seq<char>, i: int) -> Option<Seq<Elem>>
    decreases s.len() - i,
{
    let j = ws_end(s, i);
    if 0 <= i <= j < s.len() && s[j] == ']' {
        if ws_end(s, j + 1) == s.len() {
            Some(Seq::empty())
        } else {
            None
        }
    } else if 0 <= i <= j < s.len() && s[j] == ',' {
        match elem_at(s, ws_end(s, j + 1)) {
            Some((e, k)) => if i < k <= s.len() {
                match elems_from(s, k) {
                    Some(rest) => Some(seq![e] + rest),
                    None => None,
                }
            } else {
                None
            },
            None => None,
        }
    } else {
        None
    }
}

/// The elements of a frame: a bracketed, comma separated array, with
/// whitespace allowed around every token.
pub open spec fn frame_elems(s: Seq<char>) -> Option<Seq<Elem>> {
    let i = ws_end(s, 0);
    if 0 <= i < s.len() && s[i] == '[' {
        let j = ws_end(s, i + 1);
        if j < s.len() && s[j] == ']' {
            if ws_end(s, j + 1) == s.len() {
                Some(Seq::empty())
            } else {
                None
            }
        } else {
            match elem_at(s, j) {
                Some((e, k)) => match elems_from(s, k) {
                    Some(rest) => Some(seq![e] + rest),
                    None => None,
                },
                None => None,
            }
        }
    } else {
        None
    }
}

/// Where an element stands in the text: the span of a string body, a
/// boolean, or the span of an object.
#[derive(Clone, Copy)]
pub enum Token {
    Str(usize, usize),
    Bool(bool),
    Obj(usize, usize),
}

pub open spec fn token_elem(s: Seq<char>, t: Token) -> Elem {
    match t {
        Token::Str(a, b) => Elem::Str(s.subrange(a as int, b as int)),
        Token::Bool(b) => Elem::Bool(b),
        Token::Obj(a, b) => Elem::Obj(s.subrange(a as int, b as int)),
    }
}

pub open spec fn token_in(s: Seq<char>, t: Token) -> bool {
    match t {
        Token::Str(a, b) => a <= b <= s.len(),
        Token::Bool(_) => true,
        Token::Obj(a, b) => a <= b <= s.len(),
    }
}

pub open spec fn tokens_elems(s: Seq<char>, ts: Seq<Token>) -> Seq<Elem> {
    ts.map_values(|t: Token| token_elem(s, t))
}

/// Reads the element that starts at `i`.
pub fn scan_elem(v: &Vec<char>, i: usize) -> (r: Option<(Token, usize)>)
    requires
        i <= v.len(),
    ensures
        match r {
            Some((t, k)) => elem_at(v@, i as int) == Some((token_elem(v@, t), k as int))
                && token_in(v@, t) && i < k <= v.len(),
            None => elem_at(v@, i as int) is None,
        },
{
    if i >= v.len() {
        return None;
    }
    let c = v[i];
    if c == '"' {
        match scan_string(v, i + 1) {
            Some(j) => Some((Token::Str(i + 1, j), j + 1)),
            None => None,
        }
    } else if v.len() - i > 3 && c == 't' && v[i + 1] == 'r' && v[i + 2] == 'u' && v[i + 3]
        == 'e' {
        Some((Token::Bool(true), i + 4))
    } else if v.len() - i > 4 && c == 'f' && v[i + 1] == 'a' && v[i + 2] == 'l' && v[i + 3]
        == 's' && v[i + 4] == 'e' {
        Some((Token::Bool(false), i + 5))
    } else if c == '{' {
        match scan_nested(v, i) {
            Some(j) => Some((Token::Obj(i, j), j)),
            None => None,
        }
    } else {
        None
    }
}

/// Splits a frame into its elements.
pub fn scan_frame(v: &Vec<char>) -> (r: Option<Vec<Token>>)
    ensures
        match r {
            Some(ts) => frame_elems(v@) == Some(tokens_elems(v@, ts@))
                && forall|n: int| 0 <= n < ts@.len() ==> token_in(v@, #[trigger] ts@[n]),
            None => frame_elems(v@) is None,
        },
{
    let i = skip_ws(v, 0);
    if i >= v.len() || v[i] != '[' {
        return None;
    }
    let j = skip_ws(v, i + 1);
    if j < v.len() && v[j] == ']' {
        if skip_ws(v, j + 1) == v.len() {
            let empty: Vec<Token> = Vec::new();
            assert(tokens_elems(v@, empty@) =~= Seq::<Elem>::empty());
            return Some(empty);
        }
        return None;
    }
    let (first, mut k) = match scan_elem(v, j) {
        Some(p) => p,
        None => {
            return None;
        },
    };
    let mut ts: Vec<Token> = Vec::new();
    ts.push(first);
    assert(tokens_elems(v@, ts@) =~= seq![token_elem(v@, first)]);
    loop
        invariant
            0 < k <= v.len(),
            forall|n: int| 0 <= n < ts@.len() ==> token_in(v@, #[trigger] ts@[n]),
            frame_elems(v@) == match elems_from(v@, k as int) {
                Some(rest) => Some(tokens_elems(v@, ts@) + rest),
                None => None,
            },
        decreases v.len() - k,
    {
        let j = skip_ws(v, k);
        if j < v.len() && v[j] == ']' {
            if skip_ws(v, j + 1) == v.len() {
                assert(tokens_elems(v@, ts@) + Seq::<Elem>::empty() =~= tokens_elems(v@, ts@));
                return Some(ts);
            }
            return None;
        } else if j < v.len() && v[j] == ',' {
            let m = skip_ws(v, j + 1);
            match scan_elem(v, m) {
                Some((t, next)) => {
                    let ghost before = ts@;
                    ts.push(t);
                    proof {
                        assert(tokens_elems(v@, ts@) =~= tokens_elems(v@, before) + seq![
                            token_elem(v@, t),
                        ]);
                        match elems_from(v@, next as int) {
                            Some(rest) => {
                                assert(tokens_elems(v@, before) + (seq![token_elem(v@, t)] + rest)
                                    =~= tokens_elems(v@, ts@) + rest);
                            },
                            None => {},
                        }
                    }
                    k = next;
                },
                None => {
                    return None;
                },
            }
        } else {
            return None;
        }
    }
}

pub proof fn lemma_str_end_bounds(s: Seq<char>, i: int)
    requires
        str_end(s, i) is Some,
    ensures
        i <= str_end(s, i)->Some_0 < s.len(),
        s[str_end(s, i)->Some_0] == '"',
    decreases s.len() - i,
{
    if s[i] == '"' {
    } else if s[i] == '\\' {
        if i + 1 < s.len() && is_short_escape(s[i + 1]) {
            lemma_str_end_bounds(s, i + 2);
        } else {
            lemma_str_end_bounds(s, i + 6);
        }
    } else {
        lemma_str_end_bounds(s, i + 1);
    }
}

pub proof fn lemma_nest_end_bounds(s: Seq<char>, i: int, open: Seq<char>)
    requires
        nest_end(s, i, open) is Some,
    ensures
        i < nest_end(s, i, open)->Some_0 <= s.len(),
    decreases s.len() - i,
{
    if s[i] == '"' {
        let k = str_end(s, i + 1)->Some_0;
        lemma_nest_end_bounds(s, k + 1, open);
    } else if s[i] == '{' || s[i] == '[' {
        lemma_nest_end_bounds(s, i + 1, open.push(s[i]));
    } else if s[i] == '}' || s[i] == ']' {
        if open.len() != 1 {
            lemma_nest_end_bounds(s, i + 1, open.drop_last());
        }
    } else {
        lemma_nest_end_bounds(s, i + 1, open);
    }
}

/// Scanning a string literal reads nothing past its closing quote: the same
/// characters anywhere else scan the same.
pub proof fn lemma_str_end_local(s: Seq<char>, i: int, j: int, t: Seq<char>, d: int)
    requires
        str_end(s, i) == Some(j),
        0 <= i + d,
        j + d < t.len(),
        forall|k: int| i <= k <= j ==> t[k + d] == s[k],
    ensures
        i <= j < s.len(),
        s[j] == '"',
        str_end(t, i + d) == Some(j + d),
    decreases s.len() - i,
{
    if s[i] == '"' {
        assert(t[i + d] == s[i]);
    } else if s[i] == '\\' {
        if i + 1 < s.len() && is_short_escape(s[i + 1]) {
            lemma_str_end_local(s, i + 2, j, t, d);
            assert(t[i + d] == s[i]);
            assert(t[i + 1 + d] == s[i + 1]);
        } else {
            lemma_str_end_local(s, i + 6, j, t, d);
            assert(t[i + d] == s[i]);
            assert(t[i + 1 + d] == s[i + 1]);
            assert(t[i + 2 + d] == s[i + 2]);
            assert(t[i + 3 + d] == s[i + 3]);
            assert(t[i + 4 + d] == s[i + 4]);
            assert(t[i + 5 + d] == s[i + 5]);
        }
    } else {
        lemma_str_end_local(s, i + 1, j, t, d);
        assert(t[i + d] == s[i]);
    }
}

/// Scanning a balanced value reads nothing past its closing bracket.
pub proof fn lemma_nest_end_local(
    s: Seq<char>,
    i: int,
    open: Seq<char>,
    j: int,
    t: Seq<char>,
    d: int,
)
    requires
        nest_end(s, i, open) == Some(j),
        0 <= i + d,
        j + d <= t.len(),
        forall|k: int| i <= k < j ==> t[k + d] == s[k],
    ensures
        i < j <= s.len(),
        nest_end(t, i + d, open) == Some(j + d),
    decreases s.len() - i,
{
    if s[i] == '"' {
        let k = str_end(s, i + 1)->Some_0;
        lemma_nest_end_local(s, k + 1, open, j, t, d);
        lemma_str_end_local(s, i + 1, k, t, d);
        assert(t[i + d] == s[i]);
    } else if s[i] == '{' || s[i] == '[' {
        lemma_nest_end_local(s, i + 1, open.push(s[i]), j, t, d);
        assert(t[i + d] == s[i]);
    } else if s[i] == '}' || s[i] == ']' {
        if open.len() != 1 {
            lemma_nest_end_local(s, i + 1, open.drop_last(), j, t, d);
        }
        assert(t[i + d] == s[i]);
    } else {
        lemma_nest_end_local(s, i + 1, open, j, t, d);
        assert(t[i + d] == s[i]);
    }
}

pub proof fn lemma_ws_end_stop(s: Seq<char>, i: int)
    requires
        0 <= i < s.len(),
        !is_ws(s[i]),
    ensures
        ws_end(s, i) == i,
{
}

pub proof fn lemma_ws_end_past(s: Seq<char>, i: int)
    requires
        i >= s.len(),
    ensures
        ws_end(s, i) == i,
{
}

/// An element that can be written and read back as itself: a string body
/// that scans to its end, or an object whose brackets balance at its end.
pub open spec fn elem_ok(e: Elem) -> bool {
    match e {
        Elem::Str(b) => str_end(b.push('"'), 0) == Some(b.len() as int),
        Elem::Bool(_) => true,
        Elem::Obj(t) => t.len() > 0 && t[0] == '{' && nest_end(t, 1, seq!['{']) == Some(
            t.len() as int,
        ),
    }
}

/// The character that a short escape stands for.
pub open spec fn short_unescape(c: char) -> char {
    if c == 'b' {
        '\u{8}'
    } else if c == 'f' {
        '\u{c}'
    } else if c == 'n' {
        '\n'
    } else if c == 'r' {
        '\r'
    } else if c == 't' {
        '\t'
    } else {
        c
    }
}

pub open spec fn hex_val(c: char) -> int {
    if '0' <= c && c <= '9' {
        c as int - '0' as int
    } else if 'a' <= c && c <= 'f' {
        c as int - 'a' as int + 10
    } else {
        c as int - 'A' as int + 10
    }
}

/// The value of the four hex digits from `i`.
pub open spec fn hex4(s: Seq<char>, i: int) -> int {
    hex_val(s[i]) * 4096 + hex_val(s[i + 1]) * 256 + hex_val(s[i + 2]) * 16 + hex_val(s[i + 3])
}

pub open spec fn hex4_at(s: Seq<char>, i: int) -> bool {
    i + 3 < s.len() && is_hex(s[i]) && is_hex(s[i + 1]) && is_hex(s[i + 2]) && is_hex(s[i + 3])
}

pub open spec fn prefixed(c: char, r: Option<Seq<char>>) -> Option<Seq<char>> {
    match r {
        Some(t) => Some(seq![c] + t),
        None => None,
    }
}

/// The characters that a string body stands for, read from `i`: escapes
/// resolved, a surrogate pair written as two `\u` escapes joined into one
/// character; `None` where a `\u` escape names half of a surrogate pair
/// alone.
pub open spec fn unescape_from(b: Seq<char>, i: int) -> Option<Seq<char>>
    decreases b.len() - i,
{
    if i < 0 || i >= b.len() {
        Some(Seq::empty())
    } else if b[i] == '\\' && i + 1 < b.len() && is_short_escape(b[i + 1]) {
        prefixed(short_unescape(b[i + 1]), unescape_from(b, i + 2))
    } else if b[i] == '\\' && i + 1 < b.len() && b[i + 1] == 'u' && hex4_at(b, i + 2) {
        let x = hex4(b, i + 2);
        if 0xD800 <= x && x <= 0xDBFF {
            if i + 7 < b.len() && b[i + 6] == '\\' && b[i + 7] == 'u' && hex4_at(b, i + 8)
                && 0xDC00 <= hex4(b, i + 8) && hex4(b, i + 8) <= 0xDFFF {
                prefixed(
                    scalar((x - 0xD800) * 1024 + (hex4(b, i + 8) - 0xDC00) + 0x10000),
                    unescape_from(b, i + 12),
                )
            } else {
                None
            }
        } else if 0xDC00 <= x && x <= 0xDFFF {
            None
        } else {
            prefixed(scalar(x), unescape_from(b, i + 6))
        }
    } else {
        prefixed(b[i], unescape_from(b, i + 1))
    }
}

pub open spec fn appended(p: Seq<char>, r: Option<Seq<char>>) -> Option<Seq<char>> {
    match r {
        Some(t) => Some(p + t),
        None => None,
    }
}

fn hex_digit_value(c: char) -> (r: u32)
    requires
        is_hex(c),
    ensures
        r as int == hex_val(c),
        r < 16,
{
    if '0' <= c && c <= '9' {
        (c as u32) - ('0' as u32)
    } else if 'a' <= c && c <= 'f' {
        (c as u32) - ('a' as u32) + 10
    } else {
        (c as u32) - ('A' as u32) + 10
    }
}

fn hex4_value(v: &Vec<char>, i: usize) -> (r: u32)
    requires
        hex4_at(v@, i as int),
    ensures
        r as int == hex4(v@, i as int),
        r <= 0xFFFF,
{
    assert(i + 3 < v.len());
    let a = hex_digit_value(v[i]);
    let b = hex_digit_value(v[i + 1]);
    let c = hex_digit_value(v[i + 2]);
    let d = hex_digit_value(v[i + 3]);
    a * 4096 + b * 256 + c * 16 + d
}

fn short_unescape_char(c: char) -> (r: char)
    ensures
        r == short_unescape(c),
{
    if c == 'b' {
        '\u{8}'
    } else if c == 'f' {
        '\u{c}'
    } else if c == 'n' {
        '\n'
    } else if c == 'r' {
        '\r'
    } else if c == 't' {
        '\t'
    } else {
        c
    }
}

/// The characters that the string body `v[a..e]` stands for.
#[verifier::rlimit(60)]
pub fn unescape_span(v: &Vec<char>, a: usize, e: usize) -> (r: Option<String>)
    requires
        a <= e <= v.len(),
    ensures
        match unescape_from(v@.subrange(a as int, e as int), 0) {
            Some(t) => r is Some && r->Some_0@ == t,
            None => r is None,
        },
{
    let ghost b = v@.subrange(a as int, e as int);
    let mut out = String::new();
    let mut j = a;
    while j < e
        invariant
            a <= j <= e,
            e <= v.len(),
            b == v@.subrange(a as int, e as int),
            unescape_from(b, 0) == appended(out@, unescape_from(b, j - a)),
        decreases e - j,
    {
        let ghost k = j - a;
        let ghost before = out@;
        assert(b[k] == v@[j as int]);
        if v[j] == '\\' && j + 1 < e && is_short_escape_char(v[j + 1]) {
            assert(b[k + 1] == v@[j + 1]);
            push_char(&mut out, short_unescape_char(v[j + 1]));
            assert(appended(before, unescape_from(b, k)) == appended(out@, unescape_from(b, k + 2)))
                by {
                match unescape_from(b, k + 2) {
                    Some(t) => {
                        assert(before + (seq![short_unescape(b[k + 1])] + t) =~= out@ + t);
                    },
                    None => {},
                }
            }
            j = j + 2;
        } else if v[j] == '\\' && j + 1 < e && v[j + 1] == 'u' && e - j > 5 && is_hex_char(v[j + 2])
            && is_hex_char(v[j + 3]) && is_hex_char(v[j + 4]) && is_hex_char(v[j + 5]) {
            assert(b[k + 1] == v@[j + 1] && b[k + 2] == v@[j + 2] && b[k + 3] == v@[j + 3] && b[k
                + 4] == v@[j + 4] && b[k + 5] == v@[j + 5]);
            let x = hex4_value(v, j + 2);
            assert(hex4(b, k + 2) == x);
            if 0xD800 <= x && x <= 0xDBFF {
                if e - j > 11 && v[j + 6] == '\\' && v[j + 7] == 'u' && is_hex_char(v[j + 8])
                    && is_hex_char(v[j + 9]) && is_hex_char(v[j + 10]) && is_hex_char(v[j + 11]) {
                    assert(b[k + 6] == v@[j + 6] && b[k + 7] == v@[j + 7] && b[k + 8] == v@[j + 8]
                        && b[k + 9] == v@[j + 9] && b[k + 10] == v@[j + 10] && b[k + 11] == v@[j
                        + 11]);
                    let y = hex4_value(v, j + 8);
                    assert(hex4(b, k + 8) == y);
                    if 0xDC00 <= y && y <= 0xDFFF {
                        let code = (x - 0xD800) * 1024 + (y - 0xDC00) + 0x10000;
                        match char_from_u32(code) {
                            Some(c) => {
                                push_char(&mut out, c);
                            },
                            None => {
                                return None;
                            },
                        }
                        assert(appended(before, unescape_from(b, k)) == appended(
                            out@,
                            unescape_from(b, k + 12),
                        )) by {
                            match unescape_from(b, k + 12) {
                                Some(t) => {
                                    assert(before + (seq![out@.last()] + t) =~= out@ + t);
                                },
                                None => {},
                            }
                        }
                        j = j + 12;
                    } else {
                        return None;
                    }
                } else {
                    return None;
                }
            } else if 0xDC00 <= x && x <= 0xDFFF {
                return None;
            } else {
                match char_from_u32(x) {
                    Some(c) => {
                        push_char(&mut out, c);
                    },
                    None => {
                        return None;
                    },
                }
                assert(appended(before, unescape_from(b, k)) == appended(out@, unescape_from(b, k + 6)))
                    by {
                    match unescape_from(b, k + 6) {
                        Some(t) => {
                            assert(before + (seq![out@.last()] + t) =~= out@ + t);
                        },
                        None => {},
                    }
                }
                j = j + 6;
            }
        } else {
            push_char(&mut out, v[j]);
            assert(appended(before, unescape_from(b, k)) == appended(out@, unescape_from(b, k + 1)))
                by {
                match unescape_from(b, k + 1) {
                    Some(t) => {
                        assert(before + (seq![b[k]] + t) =~= out@ + t);
                    },
                    None => {},
                }
            }
            j = j + 1;
        }
    }
    assert(out@ + Seq::<char>::empty() =~= out@);
    Some(out)
}

} // verus!
