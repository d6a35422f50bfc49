//! JSON rendering of tables: objects whose members follow the table's
//! insertion order, in serde_json's compact and pretty layouts. The string
//! literals themselves are written by serde_json.
use vstd::prelude::*;
use vstd::string::*;

use crate::value::{lemma_child_decreases, Table, Value, ValueView};

verus! {

#[verifier::external_type_specification]
#[verifier::external_body]
pub struct ExJsonError(serde_json::Error);

/// A lowercase hexadecimal digit, for `d < 16`.
pub open spec fn hex_digit(d: nat) -> char {
    if d < 10 {
        (d + 48) as char
    } else {
        (d + 87) as char
    }
}

/// How a character is written inside a JSON string literal: `"` and `\`
/// behind a backslash; backspace, form feed, line feed, carriage return and
/// tab as `\b`, `\f`, `\n`, `\r`, `\t`; other characters below U+0020 as
/// `\u00xx` in lowercase hexadecimal; every other character as itself.
pub open spec fn json_escape(c: char) -> Seq<char> {
    let n = c as u32;
    if c == '"' {
        seq!['\\', '"']
    } else if c == '\\' {
        seq!['\\', '\\']
    } else if n == 0x08 {
        seq!['\\', 'b']
    } else if n == 0x0c {
        seq!['\\', 'f']
    } else if n == 0x0a {
        seq!['\\', 'n']
    } else if n == 0x0d {
        seq!['\\', 'r']
    } else if n == 0x09 {
        seq!['\\', 't']
    } else if n < 0x20 {
        seq!['\\', 'u', '0', '0', hex_digit((n / 16) as nat), hex_digit((n % 16) as nat)]
    } else {
        seq![c]
    }
}

/// The characters of a text, each written as [`json_escape`] gives it.
pub open spec fn json_escaped(text: Seq<char>) -> Seq<char>
    decreases text.len(),
{
    if text.len() == 0 {
        Seq::empty()
    } else {
        json_escaped(text.drop_last()) + json_escape(text.last())
    }
}

/// The JSON string literal of a text: the escaped text between double
/// quotes.
pub open spec fn json_quoted(text: Seq<char>) -> Seq<char> {
    seq!['"'] + json_escaped(text) + seq!['"']
}

proof fn lemma_plain_text_escaped(text: Seq<char>)
    requires
        forall|i: int|
            0 <= i < text.len() ==> (#[trigger] text[i]) != '"' && text[i] != '\\' && (text[i] as u32)
                >= 0x20,
    ensures
        json_escaped(text) == text,
    decreases text.len(),
{
    if text.len() > 0 {
        let rest = text.drop_last();
        assert forall|i: int| 0 <= i < rest.len() implies (#[trigger] rest[i]) != '"' && rest[i]
            != '\\' && (rest[i] as u32) >= 0x20 by {
            assert(rest[i] == text[i]);
        }
        lemma_plain_text_escaped(rest);
        assert(text[text.len() - 1] == text.last());
        assert(json_escape(text.last()) == seq![text.last()]);
        assert(rest + seq![text.last()] =~= text);
    } else {
        assert(json_escaped(text) =~= text);
    }
}

/// A text with no `"`, no `\\` and no character below U+0020 is written
/// between quotes unchanged.
pub proof fn lemma_plain_text_quoted(text: Seq<char>)
    requires
        forall|i: int|
            0 <= i < text.len() ==> (#[trigger] text[i]) != '"' && text[i] != '\\' && (text[i] as u32)
                >= 0x20,
    ensures
        json_quoted(text) == seq!['"'] + text + seq!['"'],
{
    lemma_plain_text_escaped(text);
}

/// `serde_json::to_string` applied to a `str`. The contract states that the
/// call succeeds, since it serializes into an in-memory `Vec<u8>`, whose
/// writes never fail, and a `str` has no other failure; and that the text it
/// returns is [`json_quoted`] of the argument: serde_json's escape table and
/// `write_char_escape` escape exactly the characters listed there.
#[verifier::external_body]
fn quote(text: &str) -> (r: Result<String, serde_json::Error>)
    ensures
        r is Ok,
        r is Ok ==> r->Ok_0@ == json_quoted(text@),
{
    serde_json::to_string(text)
}

/// Compact JSON for a value: a string literal, or an object.
pub open spec fn json_value(v: ValueView) -> Seq<char>
    decreases v,
{
    match v {
        ValueView::Text(s) => json_quoted(s),
        ValueView::Nested(es) => "{"@ + json_members(es) + "}"@,
    }
}

/// Compact JSON for the members of an object, `"key":value` joined by `,`.
pub open spec fn json_members(es: Seq<(Seq<char>, ValueView)>) -> Seq<char>
    decreases es,
{
    if es.len() == 0 {
        Seq::empty()
    } else {
        let m = json_quoted(es.last().0) + ":"@ + json_value(es.last().1);
        if es.len() == 1 {
            m
        } else {
            json_members(es.drop_last()) + ","@ + m
        }
    }
}

/// Two spaces per level of nesting.
pub open spec fn indent(depth: nat) -> Seq<char> {
    Seq::new(2 * depth, |i: int| ' ')
}

/// Pretty JSON for a value at nesting `depth`: an empty object is `{}`,
/// other objects put each member on a line of its own, indented one level
/// deeper, and close on a line indented at `depth`.
pub open spec fn json_pretty(v: ValueView, depth: nat) -> Seq<char>
    decreases v,
{
    match v {
        ValueView::Text(s) => json_quoted(s),
        ValueView::Nested(es) => if es.len() == 0 {
            "{}"@
        } else {
            "{"@ + pretty_members(es, depth + 1) + "\n"@ + indent(depth) + "}"@
        },
    }
}

/// Pretty JSON for the members of an object at member depth `depth`.
pub open spec fn pretty_members(es: Seq<(Seq<char>, ValueView)>, depth: nat) -> Seq<char>
    decreases es,
{
    if es.len() == 0 {
        Seq::empty()
    } else {
        let sep = if es.len() == 1 {
            "\n"@
        } else {
            ",\n"@
        };
        pretty_members(es.drop_last(), depth) + sep + indent(depth) + json_quoted(es.last().0)
            + ": "@ + json_pretty(es.last().1, depth)
    }
}

fn write_quoted(text: &str, out: &mut String)
    ensures
        final(out)@ == old(out)@ + json_quoted(text@),
{
    match quote(text) {
        Ok(q) => out.append(q.as_str()),
        Err(_) => {},
    }
}

fn write_compact(t: &Table, out: &mut String)
    ensures
        final(out)@ == old(out)@ + json_value(ValueView::Nested(t@)),
    decreases t@,
{
    let ghost es = t@;
    out.append("{");
    let items = t.iter();
    let mut i: usize = 0;
    while i < items.len()
        invariant
            es == t@,
            items@.len() == es.len(),
            forall|j: int|
                0 <= j < items@.len() ==> (#[trigger] items@[j]).0@ == es[j].0 && items@[j].1@
                    == es[j].1,
            i <= items@.len(),
            out@ == old(out)@ + "{"@ + json_members(es.take(i as int)),
        decreases items@.len() - i,
    {
        let (k, v) = items[i];
        if i > 0 {
            out.append(",");
        }
        write_quoted(k, out);
        out.append(":");
        match v {
            Value::String(s) => write_quoted(s.as_str(), out),
            Value::Table(sub) => {
                proof {
                    lemma_child_decreases(es, i as int, sub@);
                }
                write_compact(sub, out);
            },
        }
        proof {
            let prefix = es.take(i as int + 1);
            assert(prefix.drop_last() =~= es.take(i as int));
            assert(prefix.last() == es[i as int]);
            assert(json_value(v@) == json_value(es[i as int].1));
        }
        i += 1;
        assert(out@ =~= old(out)@ + "{"@ + json_members(es.take(i as int)));
    }
    out.append("}");
    assert(es.take(es.len() as int) =~= es);
    assert(out@ =~= old(out)@ + json_value(ValueView::Nested(t@)));
}

fn write_pretty(t: &Table, depth: Ghost<nat>, pad: &String, out: &mut String)
    requires
        pad@ == indent(depth@),
    ensures
        final(out)@ == old(out)@ + json_pretty(ValueView::Nested(t@), depth@),
    decreases t@,
{
    let ghost es = t@;
    let items = t.iter();
    if items.len() == 0 {
        out.append("{}");
        return;
    }
    let mut inner = pad.clone();
    inner.append("  ");
    proof {
        reveal_strlit("  ");
    }
    assert(inner@ =~= indent(depth@ + 1));
    out.append("{");
    let mut i: usize = 0;
    while i < items.len()
        invariant
            es == t@,
            items@.len() == es.len(),
            forall|j: int|
                0 <= j < items@.len() ==> (#[trigger] items@[j]).0@ == es[j].0 && items@[j].1@
                    == es[j].1,
            i <= items@.len(),
            inner@ == indent(depth@ + 1),
            out@ == old(out)@ + "{"@ + pretty_members(es.take(i as int), depth@ + 1),
        decreases items@.len() - i,
    {
        let (k, v) = items[i];
        if i > 0 {
            out.append(",\n");
        } else {
            out.append("\n");
        }
        out.append(inner.as_str());
        write_quoted(k, out);
        out.append(": ");
        match v {
            Value::String(s) => write_quoted(s.as_str(), out),
            Value::Table(sub) => {
                proof {
                    lemma_child_decreases(es, i as int, sub@);
                }
                write_pretty(sub, Ghost(depth@ + 1), &inner, out);
            },
        }
        proof {
            let prefix = es.take(i as int + 1);
            assert(prefix.drop_last() =~= es.take(i as int));
            assert(prefix.last() == es[i as int]);
            assert(json_pretty(v@, depth@ + 1) == json_pretty(es[i as int].1, depth@ + 1));
        }
        i += 1;
        assert(out@ =~= old(out)@ + "{"@ + pretty_members(es.take(i as int), depth@ + 1));
    }
    out.append("\n");
    out.append(pad.as_str());
    out.append("}");
    assert(es.take(es.len() as int) =~= es);
    assert(out@ =~= old(out)@ + json_pretty(ValueView::Nested(t@), depth@));
}

impl Table {
    /// The table as one line of JSON, members in insertion order.
    pub fn to_json(&self) -> (r: String)
        ensures
            r@ == json_value(ValueView::Nested(self@)),
    {
        let mut out = String::new();
        write_compact(self, &mut out);
        assert(out@ =~= json_value(ValueView::Nested(self@)));
        out
    }

    /// The table as indented JSON, members in insertion order.
    pub fn to_json_pretty(&self) -> (r: String)
        ensures
            r@ == json_pretty(ValueView::Nested(self@), 0),
    {
        let mut out = String::new();
        let pad = String::new();
        assert(pad@ =~= indent(0));
        write_pretty(self, Ghost(0), &pad, &mut out);
        assert(out@ =~= json_pretty(ValueView::Nested(self@), 0));
        out
    }
}

} // verus!
