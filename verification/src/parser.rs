//! The `sysctl.conf(5)` grammar: `token = value` lines, blank lines, and
//! comments starting with `#` or `;`.
use vstd::prelude::*;
use vstd::string::*;

use crate::config::{
    insert_result, lemma_insert_keeps_other_values, lemma_insert_keeps_well_formed,
    lemma_insert_then_resolve, resolve, well_formed, SysctlConfig,
};
use crate::text::{
    chars_of, find_char, decimal, lines, lines_of, push_decimal, slice_of, string_of,
    strip_leading, strip_leading_chars, trim, trim_chars, views,
};
use crate::value::ValueView;

verus! {

/// The text of an error on line `n` whose content is `content`.
pub open spec fn line_error(n: nat, content: Seq<char>, message: Seq<char>) -> Seq<char> {
    "line "@ + decimal(n) + ": "@ + message + " (`"@ + content + "`)"@
}

/// What a line holds: nothing (blank or comment), a `(key, value)` pair,
/// or the reason it is malformed.
///
/// The line is trimmed; a `-` before the key (sysctl's "ignore failure"
/// mark) is dropped; the value is everything after the first `=`, trimmed,
/// and may itself contain `=` or `#`.
pub open spec fn classify_line(line: Seq<char>) -> Result<Option<(Seq<char>, Seq<char>)>, Seq<char>> {
    let t = trim(line);
    if t.len() == 0 || t[0] == '#' || t[0] == ';' {
        Ok(None)
    } else {
        let i = crate::text::position(t, '=');
        if i < 0 {
            Err("missing `=` separator"@)
        } else {
            let raw_key = trim(t.take(i));
            let key = if raw_key.len() > 0 && raw_key[0] == '-' {
                trim(raw_key.drop_first())
            } else {
                raw_key
            };
            if key.len() == 0 {
                Err("key is empty"@)
            } else {
                Ok(Some((key, trim(t.skip(i + 1)))))
            }
        }
    }
}

/// The table after line number `n`, or the error it causes.
pub open spec fn line_effect(es: Seq<(Seq<char>, ValueView)>, line: Seq<char>, n: nat) -> Result<
    Seq<(Seq<char>, ValueView)>,
    Seq<char>,
> {
    match classify_line(line) {
        Err(m) => Err(line_error(n, line, m)),
        Ok(None) => Ok(es),
        Ok(Some((key, value))) => {
            let (after, r) = insert_result(es, key, value);
            match r {
                Ok(()) => Ok(after),
                Err(m) => Err(line_error(n, line, m)),
            }
        },
    }
}

/// Line `i` as it is read: the first line without leading byte order marks.
pub open spec fn line_at(ls: Seq<Seq<char>>, i: int) -> Seq<char> {
    if i == 0 {
        strip_leading(ls[0], '\u{feff}')
    } else {
        ls[i]
    }
}

/// Applying the lines from index `i` on to the table `es`, stopping at the
/// first error.
pub open spec fn run_lines(ls: Seq<Seq<char>>, i: int, es: Seq<(Seq<char>, ValueView)>) -> Result<
    Seq<(Seq<char>, ValueView)>,
    Seq<char>,
>
    decreases ls.len() - i,
{
    if i < 0 || i >= ls.len() {
        Ok(es)
    } else {
        match line_effect(es, line_at(ls, i), (i + 1) as nat) {
            Ok(after) => run_lines(ls, i + 1, after),
            Err(m) => Err(m),
        }
    }
}

/// What loading the text `text` gives: the table, or the first error.
pub open spec fn parse_config(text: Seq<char>) -> Result<Seq<(Seq<char>, ValueView)>, Seq<char>> {
    run_lines(lines(text), 0, Seq::empty())
}

proof fn lemma_run_lines_well_formed(ls: Seq<Seq<char>>, i: int, es: Seq<(Seq<char>, ValueView)>)
    requires
        well_formed(es),
    ensures
        run_lines(ls, i, es) matches Ok(out) ==> well_formed(out),
    decreases ls.len() - i,
{
    if 0 <= i < ls.len() {
        match classify_line(line_at(ls, i)) {
            Ok(Some((k, v))) => {
                lemma_insert_keeps_well_formed(es, k, v);
                lemma_run_lines_well_formed(ls, i + 1, insert_result(es, k, v).0);
            },
            Ok(None) => {
                lemma_run_lines_well_formed(ls, i + 1, es);
            },
            Err(_) => {},
        }
    }
}

/// Everything that loads without error is a well-formed table: its keys
/// are non-empty, hold no `.`, and occur once per table.
pub proof fn lemma_loaded_config_is_well_formed(text: Seq<char>)
    ensures
        parse_config(text) matches Ok(es) ==> well_formed(es),
{
    lemma_run_lines_well_formed(lines(text), 0, Seq::empty());
}

proof fn lemma_run_reaches(
    ls: Seq<Seq<char>>,
    i: int,
    m: int,
    es: Seq<(Seq<char>, ValueView)>,
) -> (mid: Seq<(Seq<char>, ValueView)>)
    requires
        0 <= i <= m < ls.len(),
        run_lines(ls, i, es) is Ok,
    ensures
        run_lines(ls, m, mid) == run_lines(ls, i, es),
    decreases m - i,
{
    if i == m {
        es
    } else {
        match line_effect(es, line_at(ls, i), (i + 1) as nat) {
            Ok(after) => lemma_run_reaches(ls, i + 1, m, after),
            Err(_) => es,
        }
    }
}

/// Whether line `j` assigns to `key`.
pub open spec fn assigns(ls: Seq<Seq<char>>, j: int, key: Seq<char>) -> bool {
    classify_line(line_at(ls, j)) matches Ok(Some((k, _))) && k == key
}

proof fn lemma_run_keeps_value(
    ls: Seq<Seq<char>>,
    j: int,
    es: Seq<(Seq<char>, ValueView)>,
    key: Seq<char>,
    value: Seq<char>,
)
    requires
        0 <= j,
        resolve(es, key) == Some(ValueView::Text(value)),
        forall|k: int| j <= k < ls.len() ==> !#[trigger] assigns(ls, k, key),
        run_lines(ls, j, es) is Ok,
    ensures
        resolve(run_lines(ls, j, es)->Ok_0, key) == Some(ValueView::Text(value)),
    decreases ls.len() - j,
{
    if j < ls.len() {
        assert(!assigns(ls, j, key));
        match classify_line(line_at(ls, j)) {
            Ok(Some((k2, v2))) => {
                lemma_insert_keeps_other_values(es, k2, v2, key, value);
                lemma_run_keeps_value(ls, j + 1, insert_result(es, k2, v2).0, key, value);
            },
            Ok(None) => {
                lemma_run_keeps_value(ls, j + 1, es, key, value);
            },
            Err(_) => {},
        }
    }
}

/// When a text loads, the last line that assigns a key decides its value:
/// reading the key gives the value of that line.
pub proof fn lemma_last_assignment_wins(text: Seq<char>, m: int, key: Seq<char>, value: Seq<char>)
    requires
        parse_config(text) is Ok,
        0 <= m < lines(text).len(),
        classify_line(line_at(lines(text), m)) == Ok::<_, Seq<char>>(Some((key, value))),
        forall|k: int| m < k < lines(text).len() ==> !#[trigger] assigns(lines(text), k, key),
    ensures
        resolve(parse_config(text)->Ok_0, key) == Some(ValueView::Text(value)),
{
    let ls = lines(text);
    let mid = lemma_run_reaches(ls, 0, m, Seq::empty());
    let (after, r) = insert_result(mid, key, value);
    assert(r is Ok);
    lemma_insert_then_resolve(mid, key, value);
    lemma_run_keeps_value(ls, m + 1, after, key, value);
}

/// Blank lines and comment lines leave the table as it is.
pub proof fn lemma_comment_lines_change_nothing(
    es: Seq<(Seq<char>, ValueView)>,
    line: Seq<char>,
    n: nat,
)
    requires
        trim(line).len() == 0 || trim(line)[0] == '#' || trim(line)[0] == ';',
    ensures
        line_effect(es, line, n) == Ok::<_, Seq<char>>(es),
{
}

proof fn lemma_run_lines_shifted(
    ls: Seq<Seq<char>>,
    m: int,
    c: Seq<char>,
    j: int,
    es: Seq<(Seq<char>, ValueView)>,
)
    requires
        0 < m <= j <= ls.len(),
    ensures
        run_lines(ls.insert(m, c), j + 1, es) is Ok <==> run_lines(ls, j, es) is Ok,
        run_lines(ls, j, es) is Ok ==> run_lines(ls.insert(m, c), j + 1, es) == run_lines(ls, j, es),
    decreases ls.len() - j,
{
    let longer = ls.insert(m, c);
    if j < ls.len() {
        assert(line_at(longer, j + 1) == line_at(ls, j));
        match classify_line(line_at(ls, j)) {
            Ok(Some((k, v))) => {
                if insert_result(es, k, v).1 is Ok {
                    lemma_run_lines_shifted(ls, m, c, j + 1, insert_result(es, k, v).0);
                }
            },
            Ok(None) => lemma_run_lines_shifted(ls, m, c, j + 1, es),
            Err(_) => {},
        }
    }
}

proof fn lemma_run_lines_inserted(
    ls: Seq<Seq<char>>,
    m: int,
    c: Seq<char>,
    i: int,
    es: Seq<(Seq<char>, ValueView)>,
)
    requires
        0 < m <= ls.len(),
        0 <= i <= m,
        trim(c).len() == 0 || trim(c)[0] == '#' || trim(c)[0] == ';',
    ensures
        run_lines(ls.insert(m, c), i, es) is Ok <==> run_lines(ls, i, es) is Ok,
        run_lines(ls, i, es) is Ok ==> run_lines(ls.insert(m, c), i, es) == run_lines(ls, i, es),
    decreases m - i,
{
    let longer = ls.insert(m, c);
    if i == m {
        assert(line_at(longer, m) == c);
        lemma_run_lines_shifted(ls, m, c, m, es);
    } else {
        assert(line_at(longer, i) == line_at(ls, i));
        match classify_line(line_at(ls, i)) {
            Ok(Some((k, v))) => {
                if insert_result(es, k, v).1 is Ok {
                    lemma_run_lines_inserted(ls, m, c, i + 1, insert_result(es, k, v).0);
                }
            },
            Ok(None) => lemma_run_lines_inserted(ls, m, c, i + 1, es),
            Err(_) => {},
        }
    }
}

/// Adding a blank or comment line after the first line of a file (at line
/// `m + 1`) changes neither whether the file loads nor what it loads.
pub proof fn lemma_comment_lines_change_no_load(ls: Seq<Seq<char>>, m: int, c: Seq<char>)
    requires
        0 < m <= ls.len(),
        trim(c).len() == 0 || trim(c)[0] == '#' || trim(c)[0] == ';',
    ensures
        run_lines(ls.insert(m, c), 0, Seq::empty()) is Ok <==> run_lines(ls, 0, Seq::empty()) is Ok,
        run_lines(ls, 0, Seq::empty()) is Ok ==> run_lines(ls.insert(m, c), 0, Seq::empty())
            == run_lines(ls, 0, Seq::empty()),
{
    lemma_run_lines_inserted(ls, m, c, 0, Seq::empty());
}

/// A load failure, as `line N: message (`content`)`.
#[derive(Debug, Clone, PartialEq, Eq)]
pub struct ParseError(pub String);

impl ParseError {
    /// The error for line `line`, whose text is `content`.
    pub fn new(line: usize, content: &str, message: &str) -> (e: ParseError)
        ensures
            e.0@ == line_error(line as nat, content@, message@),
    {
        let mut s = String::from_str("line ");
        push_decimal(&mut s, line);
        s.append(": ");
        s.append(message);
        s.append(" (`");
        s.append(content);
        s.append("`)");
        ParseError(s)
    }

    /// The error text.
    pub fn to_string(&self) -> (s: String)
        ensures
            s@ == self.0@,
    {
        self.0.clone()
    }
}

/// The loader.
#[derive(Debug, Clone)]
pub struct Parser;

fn classify(line: &Vec<char>) -> (r: Result<Option<(Vec<char>, Vec<char>)>, &'static str>)
    ensures
        match r {
            Ok(None) => classify_line(line@) == Ok::<_, Seq<char>>(None::<(Seq<char>, Seq<char>)>),
            Ok(Some((k, v))) => classify_line(line@) == Ok::<_, Seq<char>>(Some((k@, v@))),
            Err(m) => classify_line(line@) == Err::<Option<(Seq<char>, Seq<char>)>, _>(m@),
        },
{
    let t = trim_chars(line);
    if t.len() == 0 || t[0] == '#' || t[0] == ';' {
        return Ok(None);
    }
    let i = match find_char(&t, '=') {
        Some(i) => i,
        None => return Err("missing `=` separator"),
    };
    proof {
        crate::text::lemma_position(t@, '=');
    }
    let raw_key = trim_chars(&slice_of(&t, 0, i));
    assert(t@.subrange(0, i as int) =~= t@.take(i as int));
    let key = if raw_key.len() > 0 && raw_key[0] == '-' {
        let rest = slice_of(&raw_key, 1, raw_key.len());
        assert(raw_key@.subrange(1, raw_key@.len() as int) =~= raw_key@.drop_first());
        trim_chars(&rest)
    } else {
        raw_key
    };
    if key.len() == 0 {
        return Err("key is empty");
    }
    let value = trim_chars(&slice_of(&t, i + 1, t.len()));
    assert(t@.subrange(i + 1, t@.len() as int) =~= t@.skip(i + 1));
    Ok(Some((key, value)))
}

fn apply_line(config: &mut SysctlConfig, line: &Vec<char>, n: usize) -> (r: Result<(), ParseError>)
    ensures
        match r {
            Ok(()) => line_effect(old(config)@, line@, n as nat) == Ok::<_, Seq<char>>(final(config)@),
            Err(e) => line_effect(old(config)@, line@, n as nat) == Err::<Seq<(Seq<char>, ValueView)>, _>(e.0@),
        },
{
    let content = string_of(line);
    match classify(line) {
        Err(m) => Err(ParseError::new(n, content.as_str(), m)),
        Ok(None) => Ok(()),
        Ok(Some((key, value))) => {
            let k = string_of(&key);
            let v = string_of(&value);
            match config.insert(k.as_str(), v.as_str()) {
                Ok(()) => Ok(()),
                Err(m) => Err(ParseError::new(n, content.as_str(), m.as_str())),
            }
        },
    }
}

impl Default for Parser {
    fn default() -> (p: Self) {
        Parser
    }
}

impl Parser {
    /// A loader.
    pub fn new() -> (p: Parser) {
        Parser
    }

    /// Loads the text `input`: each line in turn, stopping at the first
    /// malformed one.
    pub fn parse_str(&self, input: &str) -> (r: Result<SysctlConfig, ParseError>)
        ensures
            match r {
                Ok(c) => parse_config(input@) == Ok::<_, Seq<char>>(c@),
                Err(e) => parse_config(input@) == Err::<Seq<(Seq<char>, ValueView)>, _>(e.0@),
            },
    {
        let chars = chars_of(input);
        let ls = lines_of(&chars);
        let ghost lv = views(ls@);
        let mut config = SysctlConfig::new();
        let mut index: usize = 0;
        while index < ls.len()
            invariant
                lv == views(ls@),
                lv == lines(input@),
                index <= ls@.len(),
                parse_config(input@) == run_lines(lv, index as int, config@),
            decreases ls@.len() - index,
        {
            let line = if index == 0 {
                strip_leading_chars(&ls[0], '\u{feff}')
            } else {
                slice_of(&ls[index], 0, ls[index].len())
            };
            assert(line@ == line_at(lv, index as int)) by {
                assert(lv[index as int] == ls@[index as int]@);
                assert(ls@[index as int]@.subrange(0, ls@[index as int]@.len() as int) =~= ls@[index as int]@);
            }
            match apply_line(&mut config, &line, index + 1) {
                Ok(()) => {},
                Err(e) => return Err(e),
            }
            index += 1;
        }
        Ok(config)
    }
}

} // verus!
