//! JSON text of the messages sent to GraphQL websocket servers.
use vstd::prelude::*;
use vstd::string::*;

verus! {

/// The hexadecimal digit of `d`, below sixteen, in lower case.
pub open spec fn hex_digit(d: int) -> char {
    if d < 10 {
        ('0' as int + d) as char
    } else {
        ('a' as int + d - 10) as char
    }
}

/// How a JSON string literal writes the character `c`: quote and backslash behind a
/// backslash; backspace, form feed, line feed, carriage return and tab by their short
/// escapes; any other control character below U+0020 as `\u00` and two hexadecimal digits;
/// every other character as itself.
pub open spec fn json_char_escape(c: char) -> Seq<char> {
    let v = c as int;
    if c == '"' {
        seq!['\\', '"']
    } else if c == '\\' {
        seq!['\\', '\\']
    } else if v == 8 {
        seq!['\\', 'b']
    } else if v == 12 {
        seq!['\\', 'f']
    } else if c == '\n' {
        seq!['\\', 'n']
    } else if c == '\r' {
        seq!['\\', 'r']
    } else if c == '\t' {
        seq!['\\', 't']
    } else if v < 32 {
        seq!['\\', 'u', '0', '0', hex_digit(v / 16), hex_digit(v % 16)]
    } else {
        seq![c]
    }
}

/// The JSON string literal of the text `s`: its characters, each written as
/// `json_char_escape` writes it, between double quotes.
pub open spec fn json_string_literal(s: Seq<char>) -> Seq<char> {
    seq!['"'] + s.map_values(|c: char| json_char_escape(c)).flatten() + seq!['"']
}

/// `serde_json::to_string` on a string slice: the JSON string literal of `s`, as
/// `json_string_literal` states it (serde_json's escape table maps exactly the bytes below
/// 0x20, the quote and the backslash; every other byte, those of multi-byte characters
/// included, is copied). Writing a `str` cannot fail.
#[verifier::external_body]
fn json_quote(s: &str) -> (r: String)
    ensures
        r@ == json_string_literal(s@),
{
    serde_json::to_string(s).unwrap_or_default()
}

/// The text `serde_json` writes for the object `{"id": id, "type": kind, "payload":
/// {"query": query}}`: keys in sorted order, no spaces.
pub open spec fn graphql_ws_message_text(id: Seq<char>, kind: Seq<char>, query: Seq<char>) -> Seq<
    char,
> {
    "{\"id\":"@ + json_string_literal(id) + ",\"payload\":{\"query\":"@ + json_string_literal(query)
        + "},\"type\":"@ + json_string_literal(kind) + "}"@
}

/// A message of a GraphQL websocket protocol: `kind` (`start`, `subscribe`) of the query
/// `query`, under the id `id`.
pub fn graphql_ws_message(id: &str, kind: &str, query: &str) -> (r: String)
    ensures
        r@ == graphql_ws_message_text(id@, kind@, query@),
{
    let mut r = "{\"id\":".to_owned();
    r.append(json_quote(id).as_str());
    r.append(",\"payload\":{\"query\":");
    r.append(json_quote(query).as_str());
    r.append("},\"type\":");
    r.append(json_quote(kind).as_str());
    r.append("}");
    r
}

} // verus!
