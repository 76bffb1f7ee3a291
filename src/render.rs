//! Compact JSON text of a value, for diagnostics.
use vstd::prelude::*;

use crate::value::{JsonNumber, JsonValue};

verus! {

broadcast use vstd::std_specs::vec::axiom_vec_index_decreases;

/// A lowercase hexadecimal digit.
pub open spec fn hex_char(d: nat) -> char {
    if d < 10 {
        digit_char(d)
    } else if d == 10 {
        'a'
    } else if d == 11 {
        'b'
    } else if d == 12 {
        'c'
    } else if d == 13 {
        'd'
    } else if d == 14 {
        'e'
    } else {
        'f'
    }
}

/// How one character appears inside a JSON string literal: `"` and `\`
/// behind a backslash, the control characters with a short escape as such,
/// the other control characters below 0x20 as `\u00xx`, everything else as
/// itself.
pub open spec fn escape_char(c: char) -> Seq<char> {
    if c == '"' {
        seq!['\\', '"']
    } else if c == '\\' {
        seq!['\\', '\\']
    } else if c == '\x08' {
        seq!['\\', 'b']
    } else if c == '\t' {
        seq!['\\', 't']
    } else if c == '\n' {
        seq!['\\', 'n']
    } else if c == '\x0c' {
        seq!['\\', 'f']
    } else if c == '\r' {
        seq!['\\', 'r']
    } else if (c as nat) < 0x20 {
        seq!['\\', 'u', '0', '0', hex_char(c as nat / 16), hex_char(c as nat % 16)]
    } else {
        seq![c]
    }
}

/// The characters of `s`, each escaped.
pub open spec fn escaped(s: Seq<char>) -> Seq<char>
    decreases s.len(),
{
    if s.len() == 0 {
        seq![]
    } else {
        escaped(s.drop_last()) + escape_char(s.last())
    }
}

/// The JSON string literal for `s`: its escaped characters between quotes.
pub open spec fn json_quoted(s: Seq<char>) -> Seq<char> {
    seq!['"'] + escaped(s) + seq!['"']
}

/// Relies on serde_json's `Display` for `Value::String`, which writes the
/// string as a JSON literal: a quote, each character escaped as its escape
/// table says, a closing quote.
#[verifier::external_body]
fn quote(s: &str) -> (r: String)
    ensures
        r@ == json_quoted(s@),
{
    serde_json::Value::String(s.to_owned()).to_string()
}

pub open spec fn digit_char(d: nat) -> char {
    if d == 0 {
        '0'
    } else if d == 1 {
        '1'
    } else if d == 2 {
        '2'
    } else if d == 3 {
        '3'
    } else if d == 4 {
        '4'
    } else if d == 5 {
        '5'
    } else if d == 6 {
        '6'
    } else if d == 7 {
        '7'
    } else if d == 8 {
        '8'
    } else {
        '9'
    }
}

/// The decimal digits of `n`, without leading zeros.
pub open spec fn decimal(n: nat) -> Seq<char>
    decreases n,
{
    if n < 10 {
        seq![digit_char(n)]
    } else {
        decimal(n / 10).push(digit_char(n % 10))
    }
}

/// The decimal text of a signed integer.
pub open spec fn signed_decimal(n: int) -> Seq<char> {
    if n < 0 {
        seq!['-'] + decimal((-n) as nat)
    } else {
        decimal(n as nat)
    }
}

/// The compact JSON text of a value: no whitespace, members in order.
pub open spec fn render(v: JsonValue) -> Seq<char>
    decreases v, 0int,
{
    match v {
        JsonValue::Null => "null"@,
        JsonValue::Bool(b) => if b {
            "true"@
        } else {
            "false"@
        },
        JsonValue::Number(JsonNumber::PosInt(n)) => decimal(n as nat),
        JsonValue::Number(JsonNumber::NegInt(n)) => signed_decimal(n as int),
        JsonValue::Number(JsonNumber::Float(t)) => t@,
        JsonValue::String(s) => json_quoted(s@),
        JsonValue::Array(items) => seq!['['] + render_items(items, items@.len() as int) + seq![']'],
        JsonValue::Object(members) => seq!['{'] + render_members(members, members@.len() as int)
            + seq!['}'],
    }
}

/// The first `n` elements of an array, rendered and joined by commas.
pub open spec fn render_items(items: Vec<JsonValue>, n: int) -> Seq<char>
    decreases items, n,
{
    if n <= 0 || n > items@.len() {
        seq![]
    } else if n == 1 {
        render(items@[0])
    } else {
        render_items(items, n - 1) + seq![','] + render(items@[n - 1])
    }
}

/// One member: its quoted key, a colon, and its value.
pub open spec fn render_member(m: (String, JsonValue)) -> Seq<char>
    decreases m, 0int,
{
    json_quoted(m.0@) + seq![':'] + render(m.1)
}

/// The first `n` members of an object, rendered and joined by commas.
pub open spec fn render_members(members: Vec<(String, JsonValue)>, n: int) -> Seq<char>
    decreases members, n,
{
    if n <= 0 || n > members@.len() {
        seq![]
    } else if n == 1 {
        render_member(members@[0])
    } else {
        render_members(members, n - 1) + seq![','] + render_member(members@[n - 1])
    }
}

fn digit_text(d: u64) -> (r: &'static str)
    requires
        d < 10,
    ensures
        r@ == seq![digit_char(d as nat)],
{
    proof {
        reveal_strlit("0");
        reveal_strlit("1");
        reveal_strlit("2");
        reveal_strlit("3");
        reveal_strlit("4");
        reveal_strlit("5");
        reveal_strlit("6");
        reveal_strlit("7");
        reveal_strlit("8");
        reveal_strlit("9");
    }
    if d == 0 {
        "0"
    } else if d == 1 {
        "1"
    } else if d == 2 {
        "2"
    } else if d == 3 {
        "3"
    } else if d == 4 {
        "4"
    } else if d == 5 {
        "5"
    } else if d == 6 {
        "6"
    } else if d == 7 {
        "7"
    } else if d == 8 {
        "8"
    } else {
        "9"
    }
}

/// The decimal text of an unsigned integer.
pub fn decimal_text(n: u64) -> (r: String)
    ensures
        r@ == decimal(n as nat),
    decreases n,
{
    if n < 10 {
        digit_text(n).to_owned()
    } else {
        let mut s = decimal_text(n / 10);
        s.append(digit_text(n % 10));
        s
    }
}

/// The decimal text of a signed integer, with a leading `-` when negative.
pub fn signed_decimal_text(n: i64) -> (r: String)
    ensures
        r@ == signed_decimal(n as int),
{
    if n < 0 {
        let magnitude: u64 = if n == i64::MIN {
            9223372036854775808u64
        } else {
            (-n) as u64
        };
        let mut s = "-".to_owned();
        proof { reveal_strlit("-"); }
        let digits = decimal_text(magnitude);
        s.append(digits.as_str());
        s
    } else {
        decimal_text(n as u64)
    }
}

/// Writes a value as compact JSON text.
pub fn render_value(v: &JsonValue) -> (r: String)
    ensures
        r@ == render(*v),
    decreases v,
{
    proof {
        reveal_strlit("[");
        reveal_strlit("]");
        reveal_strlit("{");
        reveal_strlit("}");
        reveal_strlit(",");
        reveal_strlit(":");
    }
    match v {
        JsonValue::Null => "null".to_owned(),
        JsonValue::Bool(b) => if *b {
            "true".to_owned()
        } else {
            "false".to_owned()
        },
        JsonValue::Number(JsonNumber::PosInt(n)) => decimal_text(*n),
        JsonValue::Number(JsonNumber::NegInt(n)) => signed_decimal_text(*n),
        JsonValue::Number(JsonNumber::Float(t)) => t.clone(),
        JsonValue::String(s) => quote(s.as_str()),
        JsonValue::Array(items) => {
            let mut out = "[".to_owned();
            let mut i: usize = 0;
            while i < items.len()
                invariant
                    *v == JsonValue::Array(*items),
                    0 <= i <= items@.len(),
                    out@ == seq!['['] + render_items(*items, i as int),
                decreases items@.len() - i,
            {
                proof {
                    reveal_strlit(",");
                    reveal_strlit(":");
                }
                if i > 0 {
                    out.append(",");
                }
                proof {
                    assert(decreases_to!(*v => (*v)->Array_0));
                    assert(decreases_to!(*items => items[i as int]));
                    assert(items[i as int] == items@[i as int]);
                }
                let ghost before = out@;
                let piece = render_value(&items[i]);
                out.append(piece.as_str());
                proof {
                    if i == 0 {
                        assert(before == seq!['[']);
                        assert(render_items(*items, 1) == render(items@[0]));
                    } else {
                        assert(out@ =~= seq!['['] + (render_items(*items, i as int) + seq![',']
                            + render(items@[i as int])));
                    }
                }
                i = i + 1;
            }
            out.append("]");
            out
        },
        JsonValue::Object(members) => {
            let mut out = "{".to_owned();
            let mut i: usize = 0;
            while i < members.len()
                invariant
                    *v == JsonValue::Object(*members),
                    0 <= i <= members@.len(),
                    out@ == seq!['{'] + render_members(*members, i as int),
                decreases members@.len() - i,
            {
                proof {
                    reveal_strlit(",");
                    reveal_strlit(":");
                }
                if i > 0 {
                    out.append(",");
                }
                let member = &members[i];
                let ghost before = out@;
                let key = quote(member.0.as_str());
                out.append(key.as_str());
                out.append(":");
                proof {
                    assert(decreases_to!(*v => (*v)->Object_0));
                    assert(decreases_to!(*members => members[i as int]));
                    assert(decreases_to!(members[i as int] => members[i as int].1));
                }
                let piece = render_value(&member.1);
                out.append(piece.as_str());
                proof {
                    let m = members@[i as int];
                    if i == 0 {
                        assert(render_members(*members, 1) == render_member(m));
                        assert(out@ =~= seq!['{'] + render_member(m));
                    } else {
                        assert(out@ =~= seq!['{'] + (render_members(*members, i as int) + seq![',']
                            + render_member(m)));
                    }
                }
                i = i + 1;
            }
            out.append("}");
            out
        },
    }
}

} // verus!
