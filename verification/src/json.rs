//! A JSON document model and its compact text form.
use vstd::prelude::*;
use crate::text::{chars_of, same_text, string_of};

verus! {

/// A JSON value as a parser reads it: numbers keep the text that the
/// serializer writes for them, and an object keeps its entries in order.
pub enum JsonValue {
    Null,
    Bool(bool),
    Number(String),
    Str(String),
    Array(Vec<JsonValue>),
    Object(Vec<(String, JsonValue)>),
}

/// The value stored under `key` in a list of object entries.
pub open spec fn entry_value(entries: Seq<(String, JsonValue)>, key: Seq<char>) -> Option<JsonValue>
    decreases entries.len(),
{
    if entries.len() == 0 {
        None
    } else if entries[0].0@ == key {
        Some(entries[0].1)
    } else {
        entry_value(entries.drop_first(), key)
    }
}

/// `Value::get(key)`: the entry `key` of an object, and nothing for any other value.
pub open spec fn json_get(v: JsonValue, key: Seq<char>) -> Option<JsonValue> {
    match v {
        JsonValue::Object(entries) => entry_value(entries@, key),
        _ => None,
    }
}

/// `Value::get(key)` on a document.
pub fn json_get_exec<'a>(v: &'a JsonValue, key: &str) -> (r: Option<&'a JsonValue>)
    ensures
        match r {
            Some(x) => json_get(*v, key@) == Some(*x),
            None => json_get(*v, key@) is None,
        },
{
    match v {
        JsonValue::Object(entries) => {
            let mut i: usize = 0;
            assert(entries@.skip(0) =~= entries@);
            while i < entries.len()
                invariant
                    i <= entries.len(),
                    entry_value(entries@, key@) == entry_value(entries@.skip(i as int), key@),
                    json_get(*v, key@) == entry_value(entries@, key@),
                decreases entries.len() - i,
            {
                assert(entries@.skip(i as int)[0] == entries@[i as int]);
                assert(entries@.skip(i as int).drop_first() =~= entries@.skip(i + 1));
                if same_text(entries[i].0.as_str(), key) {
                    assert(entry_value(entries@.skip(i as int), key@) == Some(entries@[i as int].1));
                    let r = &entries[i].1;
                    assert(*r == entries@[i as int].1);
                    return Some(r);
                }
                i = i + 1;
            }
            None
        },
        _ => None,
    }
}


/// The lower-case hexadecimal digit for `d < 16`.
pub open spec fn hex_digit(d: nat) -> char {
    if d < 10 {
        ((d + 48) as u8) as char
    } else {
        ((d + 87) as u8) as char
    }
}

/// How the JSON writer emits one character of a string: quote, backslash and
/// control characters escaped, everything else as it is.
pub open spec fn escape_char(c: char) -> Seq<char> {
    let u = c as u32;
    if c == '"' {
        seq!['\\', '"']
    } else if c == '\\' {
        seq!['\\', '\\']
    } else if u == 0x08 {
        seq!['\\', 'b']
    } else if u == 0x0c {
        seq!['\\', 'f']
    } else if c == '\n' {
        seq!['\\', 'n']
    } else if c == '\r' {
        seq!['\\', 'r']
    } else if c == '\t' {
        seq!['\\', 't']
    } else if u < 0x20 {
        seq!['\\', 'u', '0', '0', hex_digit((u / 16) as nat), hex_digit((u % 16) as nat)]
    } else {
        seq![c]
    }
}

/// The escaped body of a JSON string.
pub open spec fn escaped_text(s: Seq<char>) -> Seq<char>
    decreases s.len(),
{
    if s.len() == 0 {
        seq![]
    } else {
        escaped_text(s.drop_last()) + escape_char(s.last())
    }
}

/// A JSON string literal.
pub open spec fn quoted_text(s: Seq<char>) -> Seq<char> {
    seq!['"'] + escaped_text(s) + seq!['"']
}

/// The compact text of a JSON value, as `serde_json::to_string` writes it.
pub open spec fn json_text(v: JsonValue) -> Seq<char>
    decreases v,
{
    match v {
        JsonValue::Null => seq!['n', 'u', 'l', 'l'],
        JsonValue::Bool(b) => if b {
            seq!['t', 'r', 'u', 'e']
        } else {
            seq!['f', 'a', 'l', 's', 'e']
        },
        JsonValue::Number(t) => t@,
        JsonValue::Str(s) => quoted_text(s@),
        JsonValue::Array(items) => seq!['['] + items_text(items@) + seq![']'],
        JsonValue::Object(entries) => seq!['{'] + entries_text(entries@) + seq!['}'],
    }
}

/// The items of a JSON array, separated by commas.
pub open spec fn items_text(items: Seq<JsonValue>) -> Seq<char>
    decreases items,
{
    if items.len() == 0 {
        seq![]
    } else if items.len() == 1 {
        json_text(items[0])
    } else {
        items_text(items.drop_last()) + seq![','] + json_text(items.last())
    }
}

/// The entries of a JSON object, separated by commas.
pub open spec fn entries_text(entries: Seq<(String, JsonValue)>) -> Seq<char>
    decreases entries,
{
    if entries.len() == 0 {
        seq![]
    } else if entries.len() == 1 {
        quoted_text(entries[0].0@) + seq![':'] + json_text(entries[0].1)
    } else {
        entries_text(entries.drop_last()) + seq![','] + quoted_text(entries.last().0@) + seq![
            ':',
        ] + json_text(entries.last().1)
    }
}


/// Appends the escaped form of one character.
fn push_escaped_char(out: &mut Vec<char>, c: char)
    ensures
        final(out)@ == old(out)@ + escape_char(c),
{
    let u = c as u32;
    if c == '"' {
        out.push('\\');
        out.push('"');
    } else if c == '\\' {
        out.push('\\');
        out.push('\\');
    } else if u == 0x08 {
        out.push('\\');
        out.push('b');
    } else if u == 0x0c {
        out.push('\\');
        out.push('f');
    } else if c == '\n' {
        out.push('\\');
        out.push('n');
    } else if c == '\r' {
        out.push('\\');
        out.push('r');
    } else if c == '\t' {
        out.push('\\');
        out.push('t');
    } else if u < 0x20 {
        let hi = (u / 16) as u8;
        let lo = (u % 16) as u8;
        out.push('\\');
        out.push('u');
        out.push('0');
        out.push('0');
        out.push(if hi < 10 { (hi + 48) as char } else { (hi + 87) as char });
        out.push(if lo < 10 { (lo + 48) as char } else { (lo + 87) as char });
    } else {
        out.push(c);
    }
    assert(final(out)@ =~= old(out)@ + escape_char(c));
}

/// Appends a JSON string literal.
fn push_quoted(out: &mut Vec<char>, s: &str)
    ensures
        final(out)@ == old(out)@ + quoted_text(s@),
{
    let cs = chars_of(s);
    let ghost start = out@;
    out.push('"');
    let mut i: usize = 0;
    while i < cs.len()
        invariant
            i <= cs.len(),
            cs@ == s@,
            out@ == start + seq!['"'] + escaped_text(cs@.take(i as int)),
        decreases cs.len() - i,
    {
        push_escaped_char(out, cs[i]);
        assert(cs@.take(i + 1).drop_last() =~= cs@.take(i as int));
        i = i + 1;
    }
    out.push('"');
    assert(cs@.take(cs@.len() as int) =~= cs@);
    assert(out@ =~= start + quoted_text(s@));
}

/// Appends the compact text of a JSON value.
pub fn write_json(v: &JsonValue, out: &mut Vec<char>)
    ensures
        final(out)@ == old(out)@ + json_text(*v),
    decreases v,
{
    let ghost start = out@;
    match v {
        JsonValue::Null => {
            out.push('n');
            out.push('u');
            out.push('l');
            out.push('l');
        },
        JsonValue::Bool(b) => {
            if *b {
                out.push('t');
                out.push('r');
                out.push('u');
                out.push('e');
            } else {
                out.push('f');
                out.push('a');
                out.push('l');
                out.push('s');
                out.push('e');
            }
        },
        JsonValue::Number(t) => {
            let cs = chars_of(t.as_str());
            let mut i: usize = 0;
            while i < cs.len()
                invariant
                    i <= cs.len(),
                    out@ == start + cs@.take(i as int),
                decreases cs.len() - i,
            {
                out.push(cs[i]);
                assert(cs@.take(i + 1) =~= cs@.take(i as int).push(cs@[i as int]));
                i = i + 1;
            }
            assert(cs@.take(cs@.len() as int) =~= cs@);
        },
        JsonValue::Str(s) => {
            push_quoted(out, s.as_str());
        },
        JsonValue::Array(items) => {
            out.push('[');
            let mut i: usize = 0;
            while i < items.len()
                invariant
                    i <= items.len(),
                    *v == JsonValue::Array(*items),
                    out@ == start + seq!['['] + items_text(items@.take(i as int)),
                decreases items.len() - i,
            {
                if i > 0 {
                    out.push(',');
                }
                assert(decreases_to!(*v => (*v)->Array_0));
                assert(decreases_to!(*items => items@));
                assert(decreases_to!(items@ => items@[i as int]));
                assert(decreases_to!(*v => items@[i as int]));
                write_json(&items[i], out);
                assert(items@.take(i + 1).drop_last() =~= items@.take(i as int));
                i = i + 1;
            }
            out.push(']');
            assert(items@.take(items@.len() as int) =~= items@);
        },
        JsonValue::Object(entries) => {
            out.push('{');
            let mut i: usize = 0;
            while i < entries.len()
                invariant
                    i <= entries.len(),
                    *v == JsonValue::Object(*entries),
                    out@ == start + seq!['{'] + entries_text(entries@.take(i as int)),
                decreases entries.len() - i,
            {
                if i > 0 {
                    out.push(',');
                }
                push_quoted(out, entries[i].0.as_str());
                out.push(':');
                assert(decreases_to!(*v => (*v)->Object_0));
                assert(decreases_to!(*entries => entries@));
                assert(decreases_to!(entries@ => entries@[i as int]));
                assert(decreases_to!(entries@[i as int] => entries@[i as int].1));
                assert(decreases_to!(*v => entries@[i as int].1));
                write_json(&entries[i].1, out);
                assert(entries@.take(i + 1).drop_last() =~= entries@.take(i as int));
                i = i + 1;
            }
            out.push('}');
            assert(entries@.take(entries@.len() as int) =~= entries@);
        },
    }
    assert(out@ =~= start + json_text(*v));
}

/// The compact JSON text of a value (`serde_json::to_string`).
pub fn json_to_string(v: &JsonValue) -> (r: String)
    ensures
        r@ == json_text(*v),
{
    let mut out: Vec<char> = Vec::new();
    write_json(v, &mut out);
    assert(out@ =~= json_text(*v));
    string_of(&out)
}

} // verus!
