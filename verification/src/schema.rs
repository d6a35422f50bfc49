//! Schemas that say which keys a configuration must have and what type of
//! value each holds.
//!
//! A schema file has one `key -> type` line per key; blank lines and lines
//! starting with `#` or `;` are skipped:
//!
//! ```text
//! endpoint -> string
//! debug -> bool
//! log.file -> string
//! retry -> integer
//! ```
use vstd::prelude::*;
use vstd::string::*;

use crate::config::{flat_entries, pair_views, resolve, SysctlConfig};
use crate::parser::{line_at, line_error, ParseError};
use crate::text::{
    chars_of, decimal, digit, find_type_arrow, lemma_position, lemma_position_absent, lemma_position_at, lines, lines_of,
    position, slice_of, split_chars, split_on, string_of, strip_leading_chars, trim, trim_chars,
    type_arrow_position, views,
};
use crate::value::{Value, ValueView};

verus! {

/// The type a schema requires of a value.
#[derive(Debug, Clone, Copy, PartialEq, Eq, Structural)]
pub enum ValueType {
    /// Any text that reads neither as a bool nor as an integer.
    String,
    /// `true` or `false`.
    Bool,
    /// A text that reads as a 64-bit signed integer.
    Integer,
}

/// The type a schema file names.
pub open spec fn type_named(name: Seq<char>) -> Option<ValueType> {
    if name == "string"@ {
        Some(ValueType::String)
    } else if name == "bool"@ {
        Some(ValueType::Bool)
    } else if name == "integer"@ {
        Some(ValueType::Integer)
    } else {
        None
    }
}

/// The name of a type, as schema files and messages write it.
pub open spec fn type_label(t: ValueType) -> Seq<char> {
    match t {
        ValueType::String => "string"@,
        ValueType::Bool => "bool"@,
        ValueType::Integer => "integer"@,
    }
}

/// Each type's name reads back as that type, and exactly the names
/// `string`, `bool` and `integer` (in lowercase) name a type.
pub proof fn lemma_type_names(t: ValueType, name: Seq<char>)
    ensures
        type_named(type_label(t)) == Some(t),
        type_named(name) is Some <==> (name == "string"@ || name == "bool"@ || name == "integer"@),
{
    reveal_strlit("string");
    reveal_strlit("bool");
    reveal_strlit("integer");
    assert("string"@ != "bool"@) by {
        assert("string"@.len() != "bool"@.len());
    }
    assert("string"@ != "integer"@) by {
        assert("string"@.len() != "integer"@.len());
    }
    assert("bool"@ != "integer"@) by {
        assert("bool"@.len() != "integer"@.len());
    }
}

pub open spec fn is_digit(c: char) -> bool {
    48 <= (c as u32) <= 57
}

/// Whether every character is an ASCII digit.
pub open spec fn all_digits(s: Seq<char>) -> bool {
    forall|i: int| 0 <= i < s.len() ==> is_digit(#[trigger] s[i])
}

/// The number that a run of ASCII digits denotes.
pub open spec fn digits_value(s: Seq<char>) -> nat
    decreases s.len(),
{
    if s.len() == 0 {
        0
    } else {
        digits_value(s.drop_last()) * 10 + ((s.last() as u32) - 48) as nat
    }
}

/// Whether the text reads as an `i64` the way `str::parse::<i64>` reads
/// it: an optional `+` or `-`, then at least one ASCII digit and nothing
/// else, denoting a number in the range of `i64`.
pub open spec fn is_i64_text(s: Seq<char>) -> bool {
    let signed = s.len() > 0 && (s[0] == '+' || s[0] == '-');
    let digits = if signed {
        s.drop_first()
    } else {
        s
    };
    &&& digits.len() > 0
    &&& all_digits(digits)
    &&& if signed && s[0] == '-' {
        digits_value(digits) <= 0x8000_0000_0000_0000
    } else {
        digits_value(digits) <= 0x7fff_ffff_ffff_ffff
    }
}

proof fn lemma_digits_value_leading_zero(d: Seq<char>)
    ensures
        digits_value(seq!['0'] + d) == digits_value(d),
        all_digits(seq!['0'] + d) == all_digits(d),
    decreases d.len(),
{
    let z = seq!['0'] + d;
    if d.len() == 0 {
        assert(z.drop_last().len() == 0);
        assert(digits_value(z.drop_last()) == 0);
        assert(('0' as u32) == 48);
    } else {
        assert(z.drop_last() =~= seq!['0'] + d.drop_last());
        assert(z.last() == d.last());
        lemma_digits_value_leading_zero(d.drop_last());
    }
    assert(all_digits(z) == all_digits(d)) by {
        if all_digits(d) {
            assert forall|i: int| 0 <= i < z.len() implies is_digit(#[trigger] z[i]) by {
                if i > 0 {
                    assert(z[i] == d[i - 1]);
                }
            }
        }
        if all_digits(z) {
            assert forall|i: int| 0 <= i < d.len() implies is_digit(#[trigger] d[i]) by {
                assert(z[i + 1] == d[i]);
            }
        }
    }
}

/// `k` zero digits.
pub open spec fn zeros(k: nat) -> Seq<char> {
    Seq::new(k, |_i: int| '0')
}

proof fn lemma_digits_value_zeros(k: nat, d: Seq<char>)
    ensures
        digits_value(zeros(k) + d) == digits_value(d),
        all_digits(zeros(k) + d) == all_digits(d),
    decreases k,
{
    if k > 0 {
        let k1 = (k - 1) as nat;
        lemma_digits_value_zeros(k1, d);
        assert(zeros(k) + d =~= seq!['0'] + (zeros(k1) + d));
        lemma_digits_value_leading_zero(zeros(k1) + d);
    }
}

proof fn lemma_decimal_digits(n: nat)
    ensures
        decimal(n).len() > 0,
        all_digits(decimal(n)),
        digits_value(decimal(n)) == n,
    decreases n,
{
    let d = decimal(n);
    if n < 10 {
        assert((digit(n) as u32) == n + 48);
        assert(d.drop_last().len() == 0);
        assert(digits_value(d.drop_last()) == 0);
    } else {
        lemma_decimal_digits(n / 10);
        let c = digit(n % 10);
        assert((c as u32) == n % 10 + 48);
        assert(d.drop_last() =~= decimal(n / 10));
        assert((n / 10) * 10 + n % 10 == n) by (nonlinear_arith);
        assert forall|i: int| 0 <= i < d.len() implies is_digit(#[trigger] d[i]) by {
            if i < d.len() - 1 {
                assert(d[i] == decimal(n / 10)[i]);
            }
        }
    }
}

/// A text of digits reads as an integer by its value, leading zeros
/// allowed: the decimal notation of `n` after any number of zeros reads as
/// an `i64` exactly when `n <= i64::MAX`, also after `+`, and after `-`
/// exactly when `n <= 2^63`.
pub proof fn lemma_decimal_reads_as_integer(n: nat, k: nat)
    ensures
        is_i64_text(zeros(k) + decimal(n)) <==> n <= 0x7fff_ffff_ffff_ffff,
        is_i64_text(seq!['+'] + zeros(k) + decimal(n)) <==> n <= 0x7fff_ffff_ffff_ffff,
        is_i64_text(seq!['-'] + zeros(k) + decimal(n)) <==> n <= 0x8000_0000_0000_0000,
{
    lemma_decimal_digits(n);
    lemma_digits_value_zeros(k, decimal(n));
    let t = zeros(k) + decimal(n);
    assert(t.len() > 0);
    assert(is_digit(t[0]));
    assert(t[0] != '+' && t[0] != '-');
    let plus = seq!['+'] + t;
    let minus = seq!['-'] + t;
    assert(plus.drop_first() =~= t);
    assert(minus.drop_first() =~= t);
    assert(seq!['+'] + zeros(k) + decimal(n) =~= plus);
    assert(seq!['-'] + zeros(k) + decimal(n) =~= minus);
}

/// A leading zero after the optional sign does not change how a text of
/// digits reads: it is an integer with the zero exactly when it is one
/// without (`0755` is an integer as `755` is).
pub proof fn lemma_leading_zero_keeps_type(sign: Seq<char>, d: Seq<char>)
    requires
        sign == Seq::<char>::empty() || sign == seq!['+'] || sign == seq!['-'],
        d.len() > 0,
        all_digits(d),
    ensures
        is_i64_text(sign + seq!['0'] + d) == is_i64_text(sign + d),
        infer(sign + seq!['0'] + d) == infer(sign + d),
{
    reveal_strlit("true");
    reveal_strlit("false");
    lemma_digits_value_leading_zero(d);
    let a = sign + seq!['0'] + d;
    let b = sign + d;
    assert(is_digit(d[0]));
    if sign.len() == 0 {
        assert(a =~= seq!['0'] + d);
        assert(b =~= d);
    } else {
        assert(a.drop_first() =~= seq!['0'] + d);
        assert(b.drop_first() =~= d);
    }
    assert(a != "true"@ && a != "false"@) by {
        if sign.len() == 0 {
            assert(a[0] == '0');
        } else {
            assert(a[0] == sign[0]);
        }
    }
    assert(b != "true"@ && b != "false"@) by {
        if sign.len() == 0 {
            assert(b[0] == d[0]);
        } else {
            assert(b[0] == sign[0]);
        }
    }
}

/// The type that a value's text looks like: `true` and `false` are bools,
/// texts that read as an `i64` are integers, anything else is a string.
pub open spec fn infer(value: Seq<char>) -> ValueType {
    if value == "true"@ || value == "false"@ {
        ValueType::Bool
    } else if is_i64_text(value) {
        ValueType::Integer
    } else {
        ValueType::String
    }
}

/// The keys of a schema, in order.
pub open spec fn schema_keys(s: Seq<(Seq<char>, ValueType)>) -> Seq<Seq<char>> {
    s.map_values(|e: (Seq<char>, ValueType)| e.0)
}

/// Whether `.` splits the key into a part that is empty.
pub open spec fn has_empty_segment(key: Seq<char>) -> bool {
    exists|j: int| 0 <= j < split_on(key, '.').len() && (#[trigger] split_on(key, '.')[j]).len() == 0
}

/// What a schema line holds, given the entries read before it: nothing
/// (blank or comment), a `(key, type)` entry, or the reason it is refused.
pub open spec fn schema_line(seen: Seq<(Seq<char>, ValueType)>, line: Seq<char>) -> Result<
    Option<(Seq<char>, ValueType)>,
    Seq<char>,
> {
    let t = trim(line);
    if t.len() == 0 || t[0] == '#' || t[0] == ';' {
        Ok(None)
    } else {
        let i = type_arrow_position(t);
        if i < 0 {
            Err("missing `->` separator"@)
        } else {
            let key = trim(t.take(i));
            if key.len() == 0 {
                Err("key is empty"@)
            } else if has_empty_segment(key) {
                Err("key contains an empty segment"@)
            } else if position(schema_keys(seen), key) >= 0 {
                Err("duplicate key"@)
            } else {
                match type_named(trim(t.skip(i + 2))) {
                    Some(ty) => Ok(Some((key, ty))),
                    None => Err("unknown type (expected string, bool or integer)"@),
                }
            }
        }
    }
}

/// Reading the schema lines from index `i` on, after the entries `seen`.
pub open spec fn run_schema(ls: Seq<Seq<char>>, i: int, seen: Seq<(Seq<char>, ValueType)>) -> Result<
    Seq<(Seq<char>, ValueType)>,
    Seq<char>,
>
    decreases ls.len() - i,
{
    if i < 0 || i >= ls.len() {
        Ok(seen)
    } else {
        match schema_line(seen, line_at(ls, i)) {
            Err(m) => Err(line_error((i + 1) as nat, line_at(ls, i), m)),
            Ok(None) => run_schema(ls, i + 1, seen),
            Ok(Some(e)) => run_schema(ls, i + 1, seen.push(e)),
        }
    }
}

/// What reading the schema text `text` gives: its entries, or the first
/// error.
pub open spec fn parse_schema(text: Seq<char>) -> Result<Seq<(Seq<char>, ValueType)>, Seq<char>> {
    run_schema(lines(text), 0, Seq::empty())
}

/// No key occurs twice.
pub open spec fn distinct_keys(s: Seq<(Seq<char>, ValueType)>) -> bool {
    forall|i: int, j: int| 0 <= i < j < s.len() ==> s[i].0 != s[j].0
}

pub open spec fn missing_message(key: Seq<char>) -> Seq<char> {
    "key `"@ + key + "`: required by the schema but missing"@
}

pub open spec fn nested_message(key: Seq<char>, expected: ValueType) -> Seq<char> {
    "key `"@ + key + "`: expected "@ + type_label(expected) + ", but got nested keys"@
}

pub open spec fn mismatch_message(
    key: Seq<char>,
    expected: ValueType,
    actual: ValueType,
    value: Seq<char>,
) -> Seq<char> {
    "key `"@ + key + "`: expected "@ + type_label(expected) + ", but got "@ + type_label(actual)
        + " (`"@ + value + "`)"@
}

pub open spec fn undefined_message(key: Seq<char>) -> Seq<char> {
    "key `"@ + key + "`: not defined in the schema"@
}

/// The complaints about one schema entry: a missing key, a key holding
/// nested keys, or a value of another type.
pub open spec fn entry_messages(
    key: Seq<char>,
    expected: ValueType,
    config: Seq<(Seq<char>, ValueView)>,
) -> Seq<Seq<char>> {
    match resolve(config, key) {
        None => seq![missing_message(key)],
        Some(ValueView::Nested(_)) => seq![nested_message(key, expected)],
        Some(ValueView::Text(v)) => if infer(v) != expected {
            seq![mismatch_message(key, expected, infer(v), v)]
        } else {
            seq![]
        },
    }
}

/// The complaints about every schema entry, in schema order.
pub open spec fn type_messages(
    schema: Seq<(Seq<char>, ValueType)>,
    config: Seq<(Seq<char>, ValueView)>,
) -> Seq<Seq<char>>
    decreases schema.len(),
{
    if schema.len() == 0 {
        seq![]
    } else {
        type_messages(schema.drop_last(), config) + entry_messages(
            schema.last().0,
            schema.last().1,
            config,
        )
    }
}

/// The complaints about configured keys that the schema does not define,
/// in the order of the configuration's leaves.
pub open spec fn undefined_messages(
    schema: Seq<(Seq<char>, ValueType)>,
    flat: Seq<(Seq<char>, Seq<char>)>,
) -> Seq<Seq<char>>
    decreases flat.len(),
{
    if flat.len() == 0 {
        seq![]
    } else {
        undefined_messages(schema, flat.drop_last()) + if position(
            schema_keys(schema),
            flat.last().0,
        ) < 0 {
            seq![undefined_message(flat.last().0)]
        } else {
            seq![]
        }
    }
}

/// Every complaint of a validation, schema entries first.
pub open spec fn validation_messages(
    schema: Seq<(Seq<char>, ValueType)>,
    config: Seq<(Seq<char>, ValueView)>,
) -> Seq<Seq<char>> {
    type_messages(schema, config) + undefined_messages(schema, flat_entries(config, Seq::empty()))
}

/// The texts of a list of strings.
pub open spec fn texts(v: Seq<String>) -> Seq<Seq<char>> {
    Seq::new(v.len(), |i: int| v[i]@)
}

/// `schema validation failed:` followed by one `  - ` line per complaint.
pub open spec fn report(messages: Seq<Seq<char>>) -> Seq<char>
    decreases messages.len(),
{
    if messages.len() == 0 {
        "schema validation failed:"@
    } else {
        report(messages.drop_last()) + "\n  - "@ + messages.last()
    }
}

/// Whether `key` holds a string whose text has type `t`.
pub open spec fn holds_type(config: Seq<(Seq<char>, ValueView)>, key: Seq<char>, t: ValueType) -> bool {
    match resolve(config, key) {
        Some(ValueView::Text(v)) => infer(v) == t,
        _ => false,
    }
}

/// A configuration follows a schema: every schema key holds a string of
/// its type, and every leaf key of the configuration is in the schema.
pub open spec fn conforms(
    schema: Seq<(Seq<char>, ValueType)>,
    config: Seq<(Seq<char>, ValueView)>,
) -> bool {
    &&& forall|i: int| 0 <= i < schema.len() ==> holds_type(config, #[trigger] schema[i].0, schema[i].1)
    &&& forall|j: int|
        0 <= j < flat_entries(config, Seq::empty()).len() ==> position(
            schema_keys(schema),
            #[trigger] flat_entries(config, Seq::empty())[j].0,
        ) >= 0
}

proof fn lemma_type_messages_empty(
    schema: Seq<(Seq<char>, ValueType)>,
    config: Seq<(Seq<char>, ValueView)>,
)
    ensures
        type_messages(schema, config).len() == 0 <==> forall|i: int|
            0 <= i < schema.len() ==> holds_type(config, #[trigger] schema[i].0, schema[i].1),
    decreases schema.len(),
{
    if schema.len() > 0 {
        let rest = schema.drop_last();
        lemma_type_messages_empty(rest, config);
        let last = schema.last();
        assert(entry_messages(last.0, last.1, config).len() == 0 <==> holds_type(
            config,
            last.0,
            last.1,
        ));
        if type_messages(schema, config).len() == 0 {
            assert forall|i: int| 0 <= i < schema.len() implies holds_type(
                config,
                #[trigger] schema[i].0,
                schema[i].1,
            ) by {
                if i < schema.len() - 1 {
                    assert(schema[i] == rest[i]);
                }
            }
        }
        if forall|i: int| 0 <= i < schema.len() ==> holds_type(config, #[trigger] schema[i].0, schema[i].1) {
            assert forall|i: int| 0 <= i < rest.len() implies holds_type(
                config,
                #[trigger] rest[i].0,
                rest[i].1,
            ) by {
                assert(schema[i] == rest[i]);
            }
            assert(holds_type(config, schema[schema.len() - 1].0, schema[schema.len() - 1].1));
        }
    }
}

proof fn lemma_undefined_messages_empty(
    schema: Seq<(Seq<char>, ValueType)>,
    flat: Seq<(Seq<char>, Seq<char>)>,
)
    ensures
        undefined_messages(schema, flat).len() == 0 <==> forall|j: int|
            0 <= j < flat.len() ==> position(schema_keys(schema), #[trigger] flat[j].0) >= 0,
    decreases flat.len(),
{
    if flat.len() > 0 {
        let rest = flat.drop_last();
        lemma_undefined_messages_empty(schema, rest);
        if undefined_messages(schema, flat).len() == 0 {
            assert forall|j: int| 0 <= j < flat.len() implies position(
                schema_keys(schema),
                #[trigger] flat[j].0,
            ) >= 0 by {
                if j < flat.len() - 1 {
                    assert(flat[j] == rest[j]);
                }
            }
        }
        if forall|j: int| 0 <= j < flat.len() ==> position(schema_keys(schema), #[trigger] flat[j].0) >= 0 {
            assert forall|j: int| 0 <= j < rest.len() implies position(
                schema_keys(schema),
                #[trigger] rest[j].0,
            ) >= 0 by {
                assert(flat[j] == rest[j]);
            }
            assert(position(schema_keys(schema), flat[flat.len() - 1].0) >= 0);
        }
    }
}

/// Validation finds nothing to report exactly when the configuration
/// follows the schema.
pub proof fn lemma_validation_passes_iff_conforms(
    schema: Seq<(Seq<char>, ValueType)>,
    config: Seq<(Seq<char>, ValueView)>,
)
    ensures
        validation_messages(schema, config).len() == 0 <==> conforms(schema, config),
{
    lemma_type_messages_empty(schema, config);
    lemma_undefined_messages_empty(schema, flat_entries(config, Seq::empty()));
}

/// Every entry read from a schema has a key with no empty part, and no key
/// is read twice.
pub open spec fn sound_entries(s: Seq<(Seq<char>, ValueType)>) -> bool {
    &&& distinct_keys(s)
    &&& forall|i: int|
        0 <= i < s.len() ==> (#[trigger] s[i]).0.len() > 0 && !has_empty_segment(s[i].0)
}

proof fn lemma_run_schema_sound(ls: Seq<Seq<char>>, i: int, seen: Seq<(Seq<char>, ValueType)>)
    requires
        sound_entries(seen),
    ensures
        run_schema(ls, i, seen) matches Ok(s) ==> sound_entries(s),
    decreases ls.len() - i,
{
    if 0 <= i < ls.len() {
        match schema_line(seen, line_at(ls, i)) {
            Ok(Some(e)) => {
                lemma_position(schema_keys(seen), e.0);
                let next = seen.push(e);
                assert forall|a: int, b: int| 0 <= a < b < next.len() implies next[a].0
                    != next[b].0 by {
                    if b == next.len() - 1 {
                        assert(schema_keys(seen)[a] == seen[a].0);
                    }
                }
                lemma_run_schema_sound(ls, i + 1, next);
            },
            Ok(None) => {
                lemma_run_schema_sound(ls, i + 1, seen);
            },
            Err(_) => {},
        }
    }
}

/// A schema that reads without error has distinct keys, none with an empty
/// part.
pub proof fn lemma_parsed_schema_is_sound(text: Seq<char>)
    ensures
        parse_schema(text) matches Ok(s) ==> sound_entries(s),
{
    lemma_run_schema_sound(lines(text), 0, Seq::empty());
}

proof fn lemma_undefined_as_filter(
    schema: Seq<(Seq<char>, ValueType)>,
    flat: Seq<(Seq<char>, Seq<char>)>,
)
    ensures
        undefined_messages(schema, flat) == flat.filter(
            |e: (Seq<char>, Seq<char>)| !schema_keys(schema).contains(e.0),
        ).map_values(|e: (Seq<char>, Seq<char>)| "key `"@ + e.0 + "`: not defined in the schema"@),
    decreases flat.len(),
{
    reveal(Seq::filter);
    let outside = |e: (Seq<char>, Seq<char>)| !schema_keys(schema).contains(e.0);
    let text = |e: (Seq<char>, Seq<char>)| "key `"@ + e.0 + "`: not defined in the schema"@;
    if flat.len() > 0 {
        lemma_undefined_as_filter(schema, flat.drop_last());
        let ks = schema_keys(schema);
        let k = flat.last().0;
        lemma_position(ks, k);
        if ks.contains(k) {
            let m = choose|m: int| 0 <= m < ks.len() && ks[m] == k;
            assert(position(ks, k) >= 0);
        }
        let before = flat.drop_last().filter(outside);
        if outside(flat.last()) {
            assert(before.push(flat.last()).map_values(text) =~= before.map_values(text).push(
                text(flat.last()),
            ));
        }
    }
}

/// Every configured leaf whose key the schema does not define is reported,
/// once, in the order of the leaves: the complaints of a validation are
/// those about the schema's entries followed by `key `k`: not defined in
/// the schema` for each such leaf key `k`.
pub proof fn lemma_every_undefined_key_is_reported(
    schema: Seq<(Seq<char>, ValueType)>,
    config: Seq<(Seq<char>, ValueView)>,
)
    ensures
        validation_messages(schema, config) == type_messages(schema, config) + flat_entries(
            config,
            Seq::empty(),
        ).filter(|e: (Seq<char>, Seq<char>)| !schema_keys(schema).contains(e.0)).map_values(
            |e: (Seq<char>, Seq<char>)| "key `"@ + e.0 + "`: not defined in the schema"@,
        ),
        forall|j: int|
            0 <= j < flat_entries(config, Seq::empty()).len() && !schema_keys(schema).contains(
                (#[trigger] flat_entries(config, Seq::empty())[j]).0,
            ) ==> validation_messages(schema, config).contains(
                "key `"@ + flat_entries(config, Seq::empty())[j].0 + "`: not defined in the schema"@,
            ),
{
    let flat = flat_entries(config, Seq::empty());
    let outside = |e: (Seq<char>, Seq<char>)| !schema_keys(schema).contains(e.0);
    let text = |e: (Seq<char>, Seq<char>)| "key `"@ + e.0 + "`: not defined in the schema"@;
    lemma_undefined_as_filter(schema, flat);
    let picked = flat.filter(outside);
    let tm = type_messages(schema, config);
    let all = validation_messages(schema, config);
    assert forall|j: int|
        0 <= j < flat.len() && !schema_keys(schema).contains((#[trigger] flat[j]).0) implies all.contains(
        "key `"@ + flat[j].0 + "`: not defined in the schema"@,
    ) by {
        assert(outside(flat[j]));
        flat.lemma_filter_contains(outside, j);
        assert(picked.contains(flat[j]));
        let m = choose|m: int| 0 <= m < picked.len() && picked[m] == flat[j];
        assert(all[tm.len() + m] == text(picked[m]));
    }
}

proof fn lemma_type_messages_include(
    schema: Seq<(Seq<char>, ValueType)>,
    config: Seq<(Seq<char>, ValueView)>,
    i: int,
    x: Seq<char>,
)
    requires
        0 <= i < schema.len(),
        entry_messages(schema[i].0, schema[i].1, config).contains(x),
    ensures
        type_messages(schema, config).contains(x),
    decreases schema.len(),
{
    let rest = schema.drop_last();
    let before = type_messages(rest, config);
    let here = entry_messages(schema.last().0, schema.last().1, config);
    let all = type_messages(schema, config);
    assert(all == before + here);
    if i < schema.len() - 1 {
        assert(rest[i] == schema[i]);
        lemma_type_messages_include(rest, config, i, x);
        let m = choose|m: int| 0 <= m < before.len() && before[m] == x;
        assert(all[m] == x);
    } else {
        let m = choose|m: int| 0 <= m < here.len() && here[m] == x;
        assert(all[before.len() + m] == x);
    }
}

/// Every schema entry that the configuration does not follow is reported:
/// a missing key as missing, a key holding nested keys as such, and a
/// string of another type with the expected type, the inferred type and
/// the value.
pub proof fn lemma_every_schema_violation_is_reported(
    schema: Seq<(Seq<char>, ValueType)>,
    config: Seq<(Seq<char>, ValueView)>,
    i: int,
)
    requires
        0 <= i < schema.len(),
    ensures
        resolve(config, schema[i].0) is None ==> validation_messages(schema, config).contains(
            "key `"@ + schema[i].0 + "`: required by the schema but missing"@,
        ),
        resolve(config, schema[i].0) matches Some(ValueView::Nested(_))
            ==> validation_messages(schema, config).contains(
            "key `"@ + schema[i].0 + "`: expected "@ + type_label(schema[i].1)
                + ", but got nested keys"@,
        ),
        match resolve(config, schema[i].0) {
            Some(ValueView::Text(v)) => infer(v) != schema[i].1 ==> validation_messages(
                schema,
                config,
            ).contains(
                "key `"@ + schema[i].0 + "`: expected "@ + type_label(schema[i].1) + ", but got "@
                    + type_label(infer(v)) + " (`"@ + v + "`)"@,
            ),
            _ => true,
        },
{
    let k = schema[i].0;
    let t = schema[i].1;
    let here = entry_messages(k, t, config);
    let tm = type_messages(schema, config);
    let all = validation_messages(schema, config);
    if here.len() > 0 {
        assert(here.contains(here[0]));
        lemma_type_messages_include(schema, config, i, here[0]);
        let m = choose|m: int| 0 <= m < tm.len() && tm[m] == here[0];
        assert(all[m] == here[0]);
    }
}

/// A blank or comment line of a schema (empty once trimmed, or starting
/// with `#` or `;` after its leading whitespace) holds nothing, whatever
/// was read before it.
pub proof fn lemma_schema_comment_line(seen: Seq<(Seq<char>, ValueType)>, line: Seq<char>)
    requires
        trim(line).len() == 0 || trim(line)[0] == '#' || trim(line)[0] == ';',
    ensures
        schema_line(seen, line) == Ok::<Option<(Seq<char>, ValueType)>, Seq<char>>(None),
{
}

proof fn lemma_run_schema_shifted(
    ls: Seq<Seq<char>>,
    m: int,
    c: Seq<char>,
    j: int,
    seen: Seq<(Seq<char>, ValueType)>,
)
    requires
        0 < m <= j <= ls.len(),
    ensures
        run_schema(ls.insert(m, c), j + 1, seen) is Ok <==> run_schema(ls, j, seen) is Ok,
        run_schema(ls, j, seen) is Ok ==> run_schema(ls.insert(m, c), j + 1, seen) == run_schema(
            ls,
            j,
            seen,
        ),
    decreases ls.len() - j,
{
    let longer = ls.insert(m, c);
    if j < ls.len() {
        assert(line_at(longer, j + 1) == line_at(ls, j));
        match schema_line(seen, line_at(ls, j)) {
            Err(_) => {},
            Ok(None) => lemma_run_schema_shifted(ls, m, c, j + 1, seen),
            Ok(Some(e)) => lemma_run_schema_shifted(ls, m, c, j + 1, seen.push(e)),
        }
    }
}

proof fn lemma_run_schema_inserted(
    ls: Seq<Seq<char>>,
    m: int,
    c: Seq<char>,
    i: int,
    seen: Seq<(Seq<char>, ValueType)>,
)
    requires
        0 < m <= ls.len(),
        0 <= i <= m,
        trim(c).len() == 0 || trim(c)[0] == '#' || trim(c)[0] == ';',
    ensures
        run_schema(ls.insert(m, c), i, seen) is Ok <==> run_schema(ls, i, seen) is Ok,
        run_schema(ls, i, seen) is Ok ==> run_schema(ls.insert(m, c), i, seen) == run_schema(
            ls,
            i,
            seen,
        ),
    decreases m - i,
{
    let longer = ls.insert(m, c);
    if i == m {
        assert(line_at(longer, m) == c);
        lemma_run_schema_shifted(ls, m, c, m, seen);
    } else {
        assert(line_at(longer, i) == line_at(ls, i));
        match schema_line(seen, line_at(ls, i)) {
            Err(_) => {},
            Ok(None) => lemma_run_schema_inserted(ls, m, c, i + 1, seen),
            Ok(Some(e)) => lemma_run_schema_inserted(ls, m, c, i + 1, seen.push(e)),
        }
    }
}

/// Adding a blank or comment line after the first line of a schema (at
/// line `m + 1`) changes neither whether the schema reads nor the entries
/// it reads.
pub proof fn lemma_schema_comment_lines_change_nothing(ls: Seq<Seq<char>>, m: int, c: Seq<char>)
    requires
        0 < m <= ls.len(),
        trim(c).len() == 0 || trim(c)[0] == '#' || trim(c)[0] == ';',
    ensures
        run_schema(ls.insert(m, c), 0, Seq::empty()) is Ok <==> run_schema(ls, 0, Seq::empty()) is Ok,
        run_schema(ls, 0, Seq::empty()) is Ok ==> run_schema(ls.insert(m, c), 0, Seq::empty())
            == run_schema(ls, 0, Seq::empty()),
{
    lemma_run_schema_inserted(ls, m, c, 0, Seq::empty());
}

/// The places where a configuration does not follow its schema.
#[derive(Debug, Clone, PartialEq, Eq)]
pub struct ValidationError(pub Vec<String>);

impl ValidationError {
    /// The complaints as one text, one per line.
    pub fn to_string(&self) -> (s: String)
        ensures
            s@ == report(texts(self.0@)),
    {
        let mut s = String::from_str("schema validation failed:");
        let mut i: usize = 0;
        while i < self.0.len()
            invariant
                i <= self.0@.len(),
                s@ == report(texts(self.0@).take(i as int)),
            decreases self.0@.len() - i,
        {
            s.append("\n  - ");
            s.append(self.0[i].as_str());
            proof {
                let m = texts(self.0@).take(i + 1);
                assert(m.drop_last() =~= texts(self.0@).take(i as int));
            }
            i += 1;
        }
        assert(texts(self.0@).take(self.0@.len() as int) =~= texts(self.0@));
        s
    }
}

fn type_label_str(t: ValueType) -> (r: &'static str)
    ensures
        r@ == type_label(t),
{
    match t {
        ValueType::String => "string",
        ValueType::Bool => "bool",
        ValueType::Integer => "integer",
    }
}

fn is_digit_char(c: char) -> (r: bool)
    ensures
        r == is_digit(c),
{
    let n = c as u32;
    48 <= n && n <= 57
}

/// Whether the text reads as an `i64`.
fn reads_as_i64(s: &Vec<char>) -> (r: bool)
    ensures
        r == is_i64_text(s@),
{
    if s.len() == 0 {
        return false;
    }
    let signed = s[0] == '+' || s[0] == '-';
    let negative = s[0] == '-';
    let start: usize = if signed {
        1
    } else {
        0
    };
    let ghost digits = if signed {
        s@.drop_first()
    } else {
        s@
    };
    assert(digits =~= s@.skip(start as int));
    if start == s.len() {
        return false;
    }
    let limit: u128 = if negative {
        0x8000_0000_0000_0000
    } else {
        0x7fff_ffff_ffff_ffff
    };
    let mut acc: u128 = 0;
    let mut over = false;
    let mut i: usize = start;
    while i < s.len()
        invariant
            start <= i <= s@.len(),
            digits == s@.skip(start as int),
            forall|j: int| start <= j < i ==> is_digit(#[trigger] s@[j]),
            s@.len() > 0,
            signed == (s@[0] == '+' || s@[0] == '-'),
            negative == (s@[0] == '-'),
            start == (if signed { 1usize } else { 0usize }),
            digits == (if signed { s@.drop_first() } else { s@ }),
            limit == (if negative { 0x8000_0000_0000_0000u128 } else { 0x7fff_ffff_ffff_ffffu128 }),
            !over ==> acc == digits_value(s@.subrange(start as int, i as int)) && acc <= limit,
            over ==> digits_value(s@.subrange(start as int, i as int)) > limit,
        decreases s@.len() - i,
    {
        let c = s[i];
        if !is_digit_char(c) {
            assert(digits[i - start] == c);
            return false;
        }
        let d = (c as u32 - 48) as u128;
        let ghost before = s@.subrange(start as int, i as int);
        let ghost after = s@.subrange(start as int, i + 1);
        assert(after.drop_last() =~= before);
        assert(digits_value(after) == digits_value(before) * 10 + d);
        if !over {
            acc = acc * 10 + d;
            if acc > limit {
                over = true;
            }
        }
        i += 1;
    }
    assert(s@.subrange(start as int, s@.len() as int) =~= digits);
    assert forall|j: int| 0 <= j < digits.len() implies is_digit(#[trigger] digits[j]) by {
        assert(digits[j] == s@[j + start]);
    }
    !over
}

impl ValueType {
    /// The type a schema file names.
    fn parse(name: &Vec<char>) -> (r: Option<ValueType>)
        ensures
            r == type_named(name@),
    {
        let s = string_of(name);
        if s == String::from_str("string") {
            Some(ValueType::String)
        } else if s == String::from_str("bool") {
            Some(ValueType::Bool)
        } else if s == String::from_str("integer") {
            Some(ValueType::Integer)
        } else {
            None
        }
    }

    /// The type that a value's text looks like.
    fn infer(value: &str) -> (r: ValueType)
        ensures
            r == infer(value@),
    {
        let s = String::from_str(value);
        if s == String::from_str("true") || s == String::from_str("false") {
            return ValueType::Bool;
        }
        let chars = chars_of(value);
        if reads_as_i64(&chars) {
            ValueType::Integer
        } else {
            ValueType::String
        }
    }

    /// The type's name, as schema files and messages write it.
    pub fn to_string(&self) -> (r: String)
        ensures
            r@ == type_label(*self),
    {
        String::from_str(type_label_str(*self))
    }
}

/// Keys with the type each must hold.
#[derive(Debug, Clone, PartialEq, Eq)]
pub struct Schema {
    entries: Vec<(String, ValueType)>,
}

/// The (key text, type) pairs of a list of schema entries.
pub open spec fn entry_views(s: Seq<(String, ValueType)>) -> Seq<(Seq<char>, ValueType)> {
    Seq::new(s.len(), |i: int| (s[i].0@, s[i].1))
}

impl View for Schema {
    type V = Seq<(Seq<char>, ValueType)>;

    closed spec fn view(&self) -> Seq<(Seq<char>, ValueType)> {
        entry_views(self.entries@)
    }
}

fn key_position(entries: &Vec<(String, ValueType)>, key: &String) -> (r: Option<usize>)
    ensures
        match r {
            Some(i) => position(schema_keys(entry_views(entries@)), key@) == i,
            None => position(schema_keys(entry_views(entries@)), key@) == -1,
        },
{
    let ghost ks = schema_keys(entry_views(entries@));
    let mut i: usize = 0;
    while i < entries.len()
        invariant
            i <= entries@.len(),
            ks == schema_keys(entry_views(entries@)),
            forall|j: int| 0 <= j < i ==> #[trigger] ks[j] != key@,
        decreases entries@.len() - i,
    {
        if entries[i].0 == *key {
            proof {
                lemma_position_at(ks, key@, i as int);
            }
            return Some(i);
        }
        assert(ks[i as int] == entries@[i as int].0@);
        i += 1;
    }
    proof {
        lemma_position_absent(ks, key@);
    }
    None
}

fn any_empty_segment(key: &Vec<char>) -> (r: bool)
    ensures
        r == has_empty_segment(key@),
{
    let parts = split_chars(key, '.');
    let ghost ps = split_on(key@, '.');
    let mut i: usize = 0;
    while i < parts.len()
        invariant
            i <= parts@.len(),
            views(parts@) == ps,
            ps == split_on(key@, '.'),
            forall|j: int| 0 <= j < i ==> (#[trigger] ps[j]).len() != 0,
        decreases parts@.len() - i,
    {
        assert(ps[i as int] == parts@[i as int]@);
        if parts[i].len() == 0 {
            return true;
        }
        i += 1;
    }
    false
}

fn read_schema_line(seen: &Vec<(String, ValueType)>, line: &Vec<char>) -> (r: Result<
    Option<(String, ValueType)>,
    &'static str,
>)
    ensures
        match r {
            Ok(None) => schema_line(entry_views(seen@), line@) == Ok::<_, Seq<char>>(
                None::<(Seq<char>, ValueType)>,
            ),
            Ok(Some((k, t))) => schema_line(entry_views(seen@), line@) == Ok::<_, Seq<char>>(
                Some((k@, t)),
            ),
            Err(m) => schema_line(entry_views(seen@), line@) == Err::<
                Option<(Seq<char>, ValueType)>,
                _,
            >(m@),
        },
{
    let t = trim_chars(line);
    if t.len() == 0 || t[0] == '#' || t[0] == ';' {
        return Ok(None);
    }
    let i = match find_type_arrow(&t) {
        Some(i) => i,
        None => return Err("missing `->` separator"),
    };
    proof {
        crate::text::lemma_type_arrow_position(t@);
    }
    let key = trim_chars(&slice_of(&t, 0, i));
    assert(t@.subrange(0, i as int) =~= t@.take(i as int));
    if key.len() == 0 {
        return Err("key is empty");
    }
    if any_empty_segment(&key) {
        return Err("key contains an empty segment");
    }
    let key_string = string_of(&key);
    if key_position(seen, &key_string).is_some() {
        return Err("duplicate key");
    }
    let name = trim_chars(&slice_of(&t, i + 2, t.len()));
    assert(t@.subrange(i + 2, t@.len() as int) =~= t@.skip(i + 2));
    match ValueType::parse(&name) {
        Some(ty) => Ok(Some((key_string, ty))),
        None => Err("unknown type (expected string, bool or integer)"),
    }
}

fn push_message(messages: &mut Vec<String>, m: String)
    ensures
        texts(final(messages)@) == texts(old(messages)@).push(m@),
{
    messages.push(m);
    assert(texts(messages@) =~= texts(old(messages)@).push(m@));
}

impl Default for Schema {
    fn default() -> (s: Self)
        ensures
            s@ == Seq::<(Seq<char>, ValueType)>::empty(),
    {
        let s = Schema { entries: Vec::new() };
        assert(s@ =~= Seq::<(Seq<char>, ValueType)>::empty());
        s
    }
}

impl Schema {
    /// The entries in the order of the schema text.
    pub fn entries(&self) -> (r: &[(String, ValueType)])
        ensures
            entry_views(r@) == self@,
    {
        self.entries.as_slice()
    }

    /// Reads a schema text: one `key -> type` line per key, stopping at the
    /// first malformed line.
    pub fn parse_str(input: &str) -> (r: Result<Schema, ParseError>)
        ensures
            match r {
                Ok(s) => parse_schema(input@) == Ok::<_, Seq<char>>(s@),
                Err(e) => parse_schema(input@) == Err::<Seq<(Seq<char>, ValueType)>, _>(e.0@),
            },
    {
        let chars = chars_of(input);
        let ls = lines_of(&chars);
        let ghost lv = views(ls@);
        let mut entries: Vec<(String, ValueType)> = Vec::new();
        assert(entry_views(entries@) =~= Seq::<(Seq<char>, ValueType)>::empty());
        let mut index: usize = 0;
        while index < ls.len()
            invariant
                lv == views(ls@),
                lv == lines(input@),
                index <= ls@.len(),
                parse_schema(input@) == run_schema(lv, index as int, entry_views(entries@)),
            decreases ls@.len() - index,
        {
            let line = if index == 0 {
                strip_leading_chars(&ls[0], '\u{feff}')
            } else {
                slice_of(&ls[index], 0, ls[index].len())
            };
            assert(line@ == line_at(lv, index as int)) by {
                assert(lv[index as int] == ls@[index as int]@);
                assert(ls@[index as int]@.subrange(0, ls@[index as int]@.len() as int)
                    =~= ls@[index as int]@);
            }
            match read_schema_line(&entries, &line) {
                Err(m) => {
                    let content = string_of(&line);
                    return Err(ParseError::new(index + 1, content.as_str(), m));
                },
                Ok(None) => {},
                Ok(Some(e)) => {
                    let ghost before = entry_views(entries@);
                    let ghost ev = (e.0@, e.1);
                    entries.push(e);
                    assert(entry_views(entries@) =~= before.push(ev));
                },
            }
            index += 1;
        }
        Ok(Schema { entries })
    }

    /// Checks a configuration against the schema and reports every
    /// complaint: each schema key must hold a string of its type, and each
    /// configured key must be in the schema.
    pub fn validate(&self, config: &SysctlConfig) -> (r: Result<(), ValidationError>)
        ensures
            match r {
                Ok(()) => validation_messages(self@, config@).len() == 0,
                Err(e) => texts(e.0@) == validation_messages(self@, config@) && e.0@.len() > 0,
            },
    {
        let ghost schema = self@;
        let mut messages: Vec<String> = Vec::new();
        let mut i: usize = 0;
        while i < self.entries.len()
            invariant
                schema == self@,
                schema == entry_views(self.entries@),
                i <= self.entries@.len(),
                texts(messages@) == type_messages(schema.take(i as int), config@),
            decreases self.entries@.len() - i,
        {
            let key = &self.entries[i].0;
            let expected = self.entries[i].1;
            let ghost before = texts(messages@);
            match config.get(key.as_str()) {
                None => {
                    let mut m = String::from_str("key `");
                    m.append(key.as_str());
                    m.append("`: required by the schema but missing");
                    push_message(&mut messages, m);
                },
                Some(Value::Table(_)) => {
                    let mut m = String::from_str("key `");
                    m.append(key.as_str());
                    m.append("`: expected ");
                    m.append(type_label_str(expected));
                    m.append(", but got nested keys");
                    push_message(&mut messages, m);
                },
                Some(Value::String(value)) => {
                    let actual = ValueType::infer(value.as_str());
                    if actual != expected {
                        let mut m = String::from_str("key `");
                        m.append(key.as_str());
                        m.append("`: expected ");
                        m.append(type_label_str(expected));
                        m.append(", but got ");
                        m.append(type_label_str(actual));
                        m.append(" (`");
                        m.append(value.as_str());
                        m.append("`)");
                        push_message(&mut messages, m);
                    }
                },
            }
            proof {
                let p = schema.take(i + 1);
                assert(p.drop_last() =~= schema.take(i as int));
                assert(p.last() == schema[i as int]);
                assert(texts(messages@) =~= before + entry_messages(schema[i as int].0, schema[i as int].1, config@));
            }
            i += 1;
        }
        assert(schema.take(schema.len() as int) =~= schema);
        let ghost typed = texts(messages@);
        let flat = config.flatten();
        let ghost fv = pair_views(flat@);
        let mut j: usize = 0;
        while j < flat.len()
            invariant
                schema == self@,
                schema == entry_views(self.entries@),
                fv == pair_views(flat@),
                fv == flat_entries(config@, Seq::empty()),
                j <= flat@.len(),
                texts(messages@) == typed + undefined_messages(schema, fv.take(j as int)),
            decreases flat@.len() - j,
        {
            let key = &flat[j].0;
            let ghost before = texts(messages@);
            let found = key_position(&self.entries, key);
            if found.is_none() {
                let mut m = String::from_str("key `");
                m.append(key.as_str());
                m.append("`: not defined in the schema");
                push_message(&mut messages, m);
            }
            proof {
                let p = fv.take(j + 1);
                assert(p.drop_last() =~= fv.take(j as int));
                assert(p.last() == fv[j as int]);
                assert(texts(messages@) =~= typed + undefined_messages(schema, fv.take(j + 1)));
            }
            j += 1;
        }
        assert(fv.take(fv.len() as int) =~= fv);
        if messages.len() == 0 {
            Ok(())
        } else {
            Err(ValidationError(messages))
        }
    }
}

} // verus!
