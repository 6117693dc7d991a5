//! Machine-readable error codes shared with the JS bindings.
//!
//! Callers branch on `code`; the message is human-readable and may be
//! reworded at any time.
use vstd::prelude::*;

verus! {

/// The Canvas backing store cannot hold this chart, but the independently
/// bounded SVG renderer still can.
pub const CODE_CANVAS_CAPACITY: &'static str = "canvas_capacity";

/// The input exceeds a limit both renderers share, or carries dates the
/// renderer refuses.
pub const CODE_INPUT_LIMIT: &'static str = "input_limit";

/// The tasks or dependencies JSON could not be deserialized.
pub const CODE_PARSE_ERROR: &'static str = "parse_error";

/// The command buffer could not be serialized back to JSON.
pub const CODE_SERIALIZE_ERROR: &'static str = "serialize_error";

/// A refusal from an entry point: a stable `code` for control flow and a
/// message for display.
#[derive(Debug, Clone, PartialEq, Eq)]
pub struct RenderError {
    pub code: &'static str,
    pub message: String,
}

impl View for RenderError {
    type V = (Seq<char>, Seq<char>);

    open spec fn view(&self) -> (Seq<char>, Seq<char>) {
        (self.code@, self.message@)
    }
}

/// A lower-case hexadecimal digit.
pub open spec fn hex_digit(n: int) -> char {
    if n < 10 {
        ((n + 48) as u32) as char
    } else {
        ((n + 87) as u32) as char
    }
}

/// How one character stands inside a JSON string literal: quote and
/// backslash behind a backslash, the control characters with a short form
/// (backspace, tab, line feed, form feed, carriage return) in it, the other
/// control characters as `\u00xx`, everything else as itself.
pub open spec fn json_escape_char(c: char) -> Seq<char> {
    if c == '"' {
        seq!['\\', '"']
    } else if c == '\\' {
        seq!['\\', '\\']
    } else if c == '\x08' {
        seq!['\\', 'b']
    } else if c == '\t' {
        seq!['\\', 't']
    } else if c == '\n' {
        seq!['\\', 'n']
    } else if c == '\x0c' {
        seq!['\\', 'f']
    } else if c == '\r' {
        seq!['\\', 'r']
    } else if (c as int) < 0x20 {
        seq!['\\', 'u', '0', '0', hex_digit((c as int) / 16), hex_digit((c as int) % 16)]
    } else {
        seq![c]
    }
}

/// The characters of `s`, each as it stands inside a JSON string literal.
pub open spec fn json_escaped(s: Seq<char>) -> Seq<char>
    decreases s.len(),
{
    if s.len() == 0 {
        Seq::empty()
    } else {
        json_escaped(s.drop_last()) + json_escape_char(s.last())
    }
}

/// The JSON string literal for the text `s`: quoted, with its escapes.
pub open spec fn json_string_text(s: Seq<char>) -> Seq<char> {
    seq!['"'] + json_escaped(s) + seq!['"']
}

/// The JSON string literal for `s`: what `serde_json` prints for a
/// `Value::String` holding `s` (its escape table covers exactly the quote,
/// the backslash and the characters below U+0020).
#[verifier::external_body]
fn json_string(s: &str) -> (res: String)
    ensures
        res@ == json_string_text(s@),
{
    serde_json::Value::String(s.to_string()).to_string()
}

/// The error object whose `code` and `error` members are the given JSON
/// string literals, members in key order.
pub open spec fn error_object_text(code_literal: Seq<char>, message_literal: Seq<char>) -> Seq<char> {
    "{\"code\":"@ + code_literal + ",\"error\":"@ + message_literal + "}"@
}

/// Assemble `{"code":<code_literal>,"error":<message_literal>}`.
pub fn error_object_json(code_literal: &str, message_literal: &str) -> (res: String)
    ensures
        res@ == error_object_text(code_literal@, message_literal@),
{
    let mut s = String::from_str("{\"code\":");
    s.append(code_literal);
    s.append(",\"error\":");
    s.append(message_literal);
    s.append("}");
    s
}

impl RenderError {
    pub fn new(code: &'static str, message: String) -> (res: Self)
        ensures
            res@ == (code@, message@),
    {
        RenderError { code, message }
    }

    /// `{"code":"…","error":"…"}`, the only shape JS parses.
    pub fn to_json(&self) -> (res: String)
        ensures
            res@ == error_object_text(json_string_text(self.code@), json_string_text(self.message@)),
            json_read_error_object(res@) == Some((self.code@, self.message@)),
    {
        proof {
            lemma_error_json_reads_back(self.code@, self.message@);
        }
        let code = json_string(self.code);
        let message = json_string(self.message.as_str());
        error_object_json(code.as_str(), message.as_str())
    }
}

/// The value of a hexadecimal digit, in either case.
pub open spec fn hex_value(c: char) -> Option<int> {
    let v = c as int;
    if 48 <= v <= 57 {
        Some(v - 48)
    } else if 97 <= v <= 102 {
        Some(v - 87)
    } else if 65 <= v <= 70 {
        Some(v - 55)
    } else {
        None
    }
}

/// The character that the escape or plain character at the start of `t`
/// stands for inside a JSON string literal, and how many characters it
/// takes; none where JSON allows none (a quote, a raw control character, an
/// unknown escape).
pub open spec fn json_read_char(t: Seq<char>) -> Option<(char, int)> {
    if t.len() == 0 || t[0] == '"' || (t[0] as int) < 0x20 {
        None
    } else if t[0] != '\\' {
        Some((t[0], 1))
    } else if t.len() < 2 {
        None
    } else {
        let e = t[1];
        if e == '"' {
            Some(('"', 2))
        } else if e == '\\' {
            Some(('\\', 2))
        } else if e == '/' {
            Some(('/', 2))
        } else if e == 'b' {
            Some(('\x08', 2))
        } else if e == 'f' {
            Some(('\x0c', 2))
        } else if e == 'n' {
            Some(('\n', 2))
        } else if e == 'r' {
            Some(('\r', 2))
        } else if e == 't' {
            Some(('\t', 2))
        } else if e == 'u' && t.len() >= 6 && hex_value(t[2]) is Some && hex_value(t[3]) is Some && hex_value(t[4]) is Some
            && hex_value(t[5]) is Some {
            let v = hex_value(t[2]).unwrap() * 4096 + hex_value(t[3]).unwrap() * 256 + hex_value(t[4]).unwrap() * 16
                + hex_value(t[5]).unwrap();
            if 0 <= v < 0xD800 {
                Some((((v as u32) as char), 6))
            } else {
                None
            }
        } else {
            None
        }
    }
}

/// Read the body of a JSON string literal from the start of `t` (its opening
/// quote already read): the text it stands for, and what follows its closing
/// quote.
pub open spec fn json_read_string(t: Seq<char>) -> Option<(Seq<char>, Seq<char>)>
    decreases t.len(),
{
    if t.len() == 0 {
        None
    } else if t[0] == '"' {
        Some((Seq::empty(), t.drop_first()))
    } else {
        match json_read_char(t) {
            Some((c, k)) => if 1 <= k <= t.len() {
                match json_read_string(t.skip(k)) {
                    Some((d, rest)) => Some((seq![c] + d, rest)),
                    None => None,
                }
            } else {
                None
            },
            None => None,
        }
    }
}

/// Read `{"code":"…","error":"…"}`: the code and the message it carries.
pub open spec fn json_read_error_object(t: Seq<char>) -> Option<(Seq<char>, Seq<char>)> {
    let open = seq!['{', '"', 'c', 'o', 'd', 'e', '"', ':', '"'];
    let mid = seq![',', '"', 'e', 'r', 'r', 'o', 'r', '"', ':', '"'];
    if t.len() >= open.len() && t.take(open.len() as int) == open {
        match json_read_string(t.skip(open.len() as int)) {
            Some((code, rest)) => if rest.len() >= mid.len() && rest.take(mid.len() as int) == mid {
                match json_read_string(rest.skip(mid.len() as int)) {
                    Some((message, tail)) => if tail == seq!['}'] {
                        Some((code, message))
                    } else {
                        None
                    },
                    None => None,
                }
            } else {
                None
            },
            None => None,
        }
    } else {
        None
    }
}

proof fn lemma_escaped_cons(c: char, s: Seq<char>)
    ensures
        json_escaped(seq![c] + s) == json_escape_char(c) + json_escaped(s),
    decreases s.len(),
{
    let t = seq![c] + s;
    assert(json_escaped(t) == json_escaped(t.drop_last()) + json_escape_char(t.last()));
    if s.len() == 0 {
        assert(t.drop_last() =~= Seq::<char>::empty());
        assert(t.last() == c);
        assert(json_escaped(Seq::<char>::empty()) =~= Seq::<char>::empty());
        assert(json_escaped(s) =~= Seq::<char>::empty());
        assert(Seq::<char>::empty() + json_escape_char(c) =~= json_escape_char(c));
        assert(json_escape_char(c) + json_escaped(s) =~= json_escape_char(c));
    } else {
        lemma_escaped_cons(c, s.drop_last());
        assert(t.drop_last() =~= seq![c] + s.drop_last());
        assert(t.last() == s.last());
        assert(json_escaped(s) == json_escaped(s.drop_last()) + json_escape_char(s.last()));
        vstd::seq_lib::lemma_concat_associative(json_escape_char(c), json_escaped(s.drop_last()), json_escape_char(s.last()));
    }
}

proof fn lemma_hex_round_trip(n: int)
    requires
        0 <= n < 16,
    ensures
        hex_value(hex_digit(n)) == Some(n),
{
}

proof fn lemma_read_escape_char(c: char, rest: Seq<char>)
    ensures
        json_escape_char(c).len() >= 1,
        (json_escape_char(c) + rest)[0] != '"',
        json_read_char(json_escape_char(c) + rest) == Some((c, json_escape_char(c).len() as int)),
{
    let t = json_escape_char(c) + rest;
    let v = c as int;
    if c != '"' && c != '\\' && c != '\x08' && c != '\t' && c != '\n' && c != '\x0c' && c != '\r' && v < 0x20 {
        lemma_hex_round_trip(v / 16);
        lemma_hex_round_trip(v % 16);
        assert(t[2] == '0' && t[3] == '0');
        assert(hex_value('0') == Some(0int));
        assert(t[4] == hex_digit(v / 16));
        assert(t[5] == hex_digit(v % 16));
        assert((v / 16) * 16 + v % 16 == v);
        assert(((v as u32) as char) == c);
    }
}

proof fn lemma_read_escaped(s: Seq<char>, rest: Seq<char>)
    ensures
        json_read_string(json_escaped(s) + seq!['"'] + rest) == Some((s, rest)),
    decreases s.len(),
{
    let t = json_escaped(s) + seq!['"'] + rest;
    if s.len() == 0 {
        assert(json_escaped(s) =~= Seq::<char>::empty());
        assert(t[0] == '"');
        assert(t.drop_first() =~= rest);
    } else {
        let c = s[0];
        let s2 = s.drop_first();
        assert(s =~= seq![c] + s2);
        lemma_escaped_cons(c, s2);
        let e = json_escape_char(c);
        let after = json_escaped(s2) + seq!['"'] + rest;
        assert(t =~= e + after);
        lemma_read_escape_char(c, after);
        assert(t.skip(e.len() as int) =~= after);
        lemma_read_escaped(s2, rest);
        assert(seq![c] + s2 =~= s);
    }
}

/// What `to_json` writes reads back as a JSON object whose `code` and
/// `error` members are the error's code and message, whatever characters
/// they hold.
pub proof fn lemma_error_json_reads_back(code: Seq<char>, message: Seq<char>)
    ensures
        json_read_error_object(error_object_text(json_string_text(code), json_string_text(message))) == Some((code, message)),
{
    reveal_strlit("{\"code\":");
    reveal_strlit(",\"error\":");
    reveal_strlit("}");
    let open = seq!['{', '"', 'c', 'o', 'd', 'e', '"', ':', '"'];
    let mid = seq![',', '"', 'e', 'r', 'r', 'o', 'r', '"', ':', '"'];
    let tail = seq![',', '"', 'e', 'r', 'r', 'o', 'r', '"', ':'] + json_string_text(message) + seq!['}'];
    let t = error_object_text(json_string_text(code), json_string_text(message));
    assert(t =~= open + (json_escaped(code) + seq!['"'] + tail));
    assert(t.take(open.len() as int) =~= open);
    assert(t.skip(open.len() as int) =~= json_escaped(code) + seq!['"'] + tail);
    lemma_read_escaped(code, tail);
    let rest2 = seq!['}'];
    assert(tail =~= mid + (json_escaped(message) + seq!['"'] + rest2));
    assert(tail.take(mid.len() as int) =~= mid);
    assert(tail.skip(mid.len() as int) =~= json_escaped(message) + seq!['"'] + rest2);
    lemma_read_escaped(message, rest2);
}

} // verus!
