//! What the relay core takes from outside crates, with what it relies on.
use rand::Rng;
use crate::client::quoted;
use vstd::prelude::*;

verus! {

#[verifier::external_type_specification]
#[verifier::external_body]
pub struct ExFilter(nostr::Filter);

#[verifier::external_type_specification]
#[verifier::external_body]
pub struct ExEvent(nostr::Event);

} // verus!

verus! {

/// Relies on `serde_json::to_string` over nostr's `Serialize` impl for
/// `Filter`, which is derived and writes its tag map with string keys
/// (`"#x"`); serde_json fails only on an impl that chooses to fail or a map
/// with non-string keys, so this succeeds.
#[verifier::external_body]
pub fn filter_json(f: &nostr::Filter) -> (r: Result<String, String>)
    ensures
        r is Ok,
{
    serde_json::to_string(f).map_err(|e| e.to_string())
}

/// Relies on `serde_json::to_string` over nostr's `Serialize` impl for
/// `Event`, which writes it as a struct of plain fields; serde_json fails
/// only on an impl that chooses to fail or a map with non-string keys, so
/// this succeeds.
#[verifier::external_body]
pub fn event_json(e: &nostr::Event) -> (r: Result<String, String>)
    ensures
        r is Ok,
{
    serde_json::to_string(e).map_err(|e| e.to_string())
}

} // verus!

verus! {

/// Relies on `serde_json::to_string` on a string: serde_json writes it
/// between quotes, escaping the quote and the backslash, `\b`, `\f`,
/// `\n`, `\r` and `\t` in their short forms and every other control
/// character as `\u00` with two lowercase hex digits; nothing else is
/// escaped. Writing a string cannot fail.
#[verifier::external_body]
pub fn json_string(s: &str) -> (r: String)
    ensures
        r@ == quoted(s@),
{
    serde_json::to_string(s).unwrap_or_default()
}

/// Relies on `String::push`, which appends one character.
#[verifier::external_body]
pub fn push_char(s: &mut String, c: char)
    ensures
        final(s)@ == old(s)@.push(c),
{
    s.push(c)
}

/// The character whose scalar value is `x`.
pub open spec fn scalar(x: int) -> char {
    x as char
}

/// Relies on `char::from_u32`, which gives the character of a Unicode
/// scalar value: any value below `0xD800`, or from `0xE000` to `0x10FFFF`.
#[verifier::external_body]
pub fn char_from_u32(x: u32) -> (r: Option<char>)
    ensures
        x < 0xD800 || (0xE000 <= x && x <= 0x10FFFF) ==> r == Some(scalar(x as int)),
{
    char::from_u32(x)
}

pub open spec fn is_alphanumeric(c: char) -> bool {
    ('0' <= c && c <= '9') || ('a' <= c && c <= 'z') || ('A' <= c && c <= 'Z')
}

/// Relies on rand's `Alphanumeric` distribution, which draws each character
/// from `A-Z`, `a-z` and `0-9`; `take(n)` keeps exactly `n` of them.
#[verifier::external_body]
pub fn random_alphanumeric(n: usize) -> (r: String)
    ensures
        r@.len() == n,
        forall|i: int| 0 <= i < r@.len() ==> is_alphanumeric(#[trigger] r@[i]),
{
    rand::thread_rng().sample_iter(&rand::distributions::Alphanumeric).take(n).map(char::from).collect()
}

} // verus!
