//! Character-level text handling: whitespace trimming, line splitting,
//! separator search and decimal rendering, each with its mathematical
//! meaning over `Seq<char>`.
use vstd::prelude::*;

verus! {

/// `String::push` appends one character to the end of the string, as its
/// std documentation says; nothing else about the string changes.
pub assume_specification[ std::string::String::push ](text: &mut std::string::String, ch: char)
    ensures
        final(text)@ == old(text)@.push(ch),
;

/// Whether `c` has the Unicode `White_Space` property (the characters that
/// `char::is_whitespace` accepts and `str::trim` removes).
pub open spec fn is_space(c: char) -> bool {
    let n = c as u32;
    ||| 0x09 <= n <= 0x0d
    ||| n == 0x20
    ||| n == 0x85
    ||| n == 0xa0
    ||| n == 0x1680
    ||| 0x2000 <= n <= 0x200a
    ||| n == 0x2028
    ||| n == 0x2029
    ||| n == 0x202f
    ||| n == 0x205f
    ||| n == 0x3000
}

pub(crate) fn is_space_char(c: char) -> (r: bool)
    ensures
        r == is_space(c),
{
    let n = c as u32;
    (0x09 <= n && n <= 0x0d) || n == 0x20 || n == 0x85 || n == 0xa0 || n == 0x1680 || (0x2000 <= n
        && n <= 0x200a) || n == 0x2028 || n == 0x2029 || n == 0x202f || n == 0x205f || n == 0x3000
}

/// The text without its leading whitespace.
pub open spec fn trim_start(s: Seq<char>) -> Seq<char>
    decreases s.len(),
{
    if s.len() > 0 && is_space(s[0]) {
        trim_start(s.drop_first())
    } else {
        s
    }
}

/// The text without its trailing whitespace.
pub open spec fn trim_end(s: Seq<char>) -> Seq<char>
    decreases s.len(),
{
    if s.len() > 0 && is_space(s.last()) {
        trim_end(s.drop_last())
    } else {
        s
    }
}

/// The text without leading and trailing whitespace (`str::trim`).
pub open spec fn trim(s: Seq<char>) -> Seq<char> {
    trim_end(trim_start(s))
}

/// The text without any number of leading `c` (`str::trim_start_matches`
/// with a character).
pub open spec fn strip_leading(s: Seq<char>, c: char) -> Seq<char>
    decreases s.len(),
{
    if s.len() > 0 && s[0] == c {
        strip_leading(s.drop_first(), c)
    } else {
        s
    }
}

/// Index of the first occurrence of `x` in `s`, or -1 when there is none.
pub open spec fn position<A>(s: Seq<A>, x: A) -> int
    decreases s.len(),
{
    if s.len() == 0 {
        -1
    } else if s[0] == x {
        0
    } else {
        let r = position(s.drop_first(), x);
        if r < 0 {
            -1
        } else {
            r + 1
        }
    }
}

/// Index of the first `->` in `s`, or -1 when there is none.
pub open spec fn type_arrow_position(s: Seq<char>) -> int
    decreases s.len(),
{
    if s.len() < 2 {
        -1
    } else if s[0] == '-' && s[1] == '>' {
        0
    } else {
        let r = type_arrow_position(s.drop_first());
        if r < 0 {
            -1
        } else {
            r + 1
        }
    }
}

/// The pieces of `s` between occurrences of `sep` (`str::split` with a
/// character); there is always at least one piece.
pub open spec fn split_on(s: Seq<char>, sep: char) -> Seq<Seq<char>>
    decreases s.len(),
{
    let i = position(s, sep);
    if 0 <= i < s.len() {
        seq![s.take(i)] + split_on(s.skip(i + 1), sep)
    } else {
        seq![s]
    }
}

/// A line without the `\r` of a `\r\n` ending.
pub open spec fn drop_cr(p: Seq<char>) -> Seq<char> {
    if p.len() > 0 && p.last() == '\r' {
        p.drop_last()
    } else {
        p
    }
}

/// The lines of a text as `str::lines` yields them: split at `\n`, with the
/// `\r` of `\r\n` removed, and no empty line after a final line ending.
pub open spec fn lines(s: Seq<char>) -> Seq<Seq<char>>
    decreases s.len(),
{
    if s.len() == 0 {
        seq![]
    } else {
        let i = position(s, '\n');
        if 0 <= i < s.len() {
            seq![drop_cr(s.take(i))] + lines(s.skip(i + 1))
        } else {
            seq![s]
        }
    }
}

/// The ASCII digit for `d < 10`.
pub open spec fn digit(d: nat) -> char {
    (d + 48) as char
}

/// The decimal notation of `n`, without leading zeros.
pub open spec fn decimal(n: nat) -> Seq<char>
    decreases n,
{
    if n < 10 {
        seq![digit(n)]
    } else {
        decimal(n / 10).push(digit(n % 10))
    }
}

/// The parts joined back with `sep` between them.
pub open spec fn join_parts(ps: Seq<Seq<char>>, sep: char) -> Seq<char>
    decreases ps.len(),
{
    if ps.len() <= 1 {
        if ps.len() == 1 {
            ps[0]
        } else {
            Seq::empty()
        }
    } else {
        ps[0] + seq![sep] + join_parts(ps.drop_first(), sep)
    }
}

/// Splitting at `sep` and joining the pieces with `sep` gives the text
/// back, so distinct texts split into distinct pieces.
pub proof fn lemma_join_split(s: Seq<char>, sep: char)
    ensures
        join_parts(split_on(s, sep), sep) == s,
        split_on(s, sep).len() >= 1,
    decreases s.len(),
{
    lemma_position(s, sep);
    let i = position(s, sep);
    if 0 <= i < s.len() {
        let rest = s.skip(i + 1);
        lemma_join_split(rest, sep);
        let ps = split_on(s, sep);
        assert(ps.drop_first() =~= split_on(rest, sep));
        assert(s.take(i) + seq![sep] + rest =~= s);
    }
}

/// No piece of a split holds the separator.
pub proof fn lemma_split_pieces_lack_separator(s: Seq<char>, sep: char)
    ensures
        forall|i: int|
            0 <= i < split_on(s, sep).len() ==> !(#[trigger] split_on(s, sep)[i]).contains(sep),
    decreases s.len(),
{
    lemma_position(s, sep);
    let i = position(s, sep);
    let ps = split_on(s, sep);
    if 0 <= i < s.len() {
        let rest = s.skip(i + 1);
        lemma_split_pieces_lack_separator(rest, sep);
        assert forall|k: int| 0 <= k < ps.len() implies !(#[trigger] ps[k]).contains(sep) by {
            if k == 0 {
                assert forall|m: int| 0 <= m < ps[0].len() implies ps[0][m] != sep by {
                    assert(ps[0][m] == s[m]);
                }
            } else {
                assert(ps[k] == split_on(rest, sep)[k - 1]);
            }
        }
    } else {
        assert forall|m: int| 0 <= m < s.len() implies s[m] != sep by {}
    }
}

/// Joining pieces that lack the separator and splitting again gives the
/// pieces back.
pub proof fn lemma_split_join(ps: Seq<Seq<char>>, sep: char)
    requires
        ps.len() >= 1,
        forall|i: int| 0 <= i < ps.len() ==> !(#[trigger] ps[i]).contains(sep),
    ensures
        split_on(join_parts(ps, sep), sep) == ps,
    decreases ps.len(),
{
    let s = join_parts(ps, sep);
    lemma_position(s, sep);
    if ps.len() == 1 {
        assert forall|m: int| 0 <= m < s.len() implies s[m] != sep by {
            assert(!ps[0].contains(sep));
        }
        lemma_position_absent(s, sep);
        assert(split_on(s, sep) =~= ps);
    } else {
        let first = ps[0];
        let rest = ps.drop_first();
        assert forall|i: int| 0 <= i < rest.len() implies !(#[trigger] rest[i]).contains(sep) by {
            assert(rest[i] == ps[i + 1]);
        }
        lemma_split_join(rest, sep);
        assert(!first.contains(sep));
        assert forall|m: int| 0 <= m < first.len() implies s[m] != sep by {
            assert(s[m] == first[m]);
        }
        assert(s[first.len() as int] == sep);
        lemma_position_at(s, sep, first.len() as int);
        assert(s.take(first.len() as int) =~= first);
        assert(s.skip(first.len() as int + 1) =~= join_parts(rest, sep));
        assert(split_on(s, sep) =~= ps);
    }
}

/// Joining the lines of a text that holds no `\r` with `\n` gives the
/// text back, less one final line ending: no character is lost, and the
/// last line is read whether or not a line ending follows it.
pub proof fn lemma_lines_join(s: Seq<char>)
    requires
        !s.contains('\r'),
    ensures
        join_parts(lines(s), '\n') == (if s.len() > 0 && s.last() == '\n' {
            s.drop_last()
        } else {
            s
        }),
    decreases s.len(),
{
    if s.len() > 0 {
        lemma_position(s, '\n');
        let i = position(s, '\n');
        if 0 <= i < s.len() {
            let head = s.take(i);
            let rest = s.skip(i + 1);
            assert(!head.contains('\r')) by {
                if head.contains('\r') {
                    let k = choose|k: int| 0 <= k < head.len() && head[k] == '\r';
                    assert(s[k] == '\r');
                }
            }
            assert(head.len() == 0 || head.last() != '\r');
            assert(drop_cr(head) == head);
            assert(!rest.contains('\r')) by {
                if rest.contains('\r') {
                    let k = choose|k: int| 0 <= k < rest.len() && rest[k] == '\r';
                    assert(s[i + 1 + k] == '\r');
                }
            }
            lemma_lines_join(rest);
            assert(s =~= head + seq!['\n'] + rest);
            if rest.len() == 0 {
                assert(lines(s) =~= seq![head]);
                assert(s.drop_last() =~= head);
            } else {
                lemma_lines_len(rest);
                let ls = lines(s);
                assert(ls =~= seq![head] + lines(rest));
                assert(ls.drop_first() =~= lines(rest));
                assert(ls.len() > 1);
                assert(join_parts(ls, '\n') == head + seq!['\n'] + join_parts(lines(rest), '\n'));
                assert(s.last() == rest.last());
                if rest.last() == '\n' {
                    assert(s.drop_last() =~= head + seq!['\n'] + rest.drop_last());
                }
            }
        } else {
            assert(lines(s) =~= seq![s]);
            assert(s.last() != '\n') by {
                assert(s[s.len() - 1] != '\n');
            }
        }
    }
}

/// A non-empty text has at least one line.
proof fn lemma_lines_len(s: Seq<char>)
    requires
        s.len() > 0,
    ensures
        lines(s).len() >= 1,
{
    lemma_position(s, '\n');
}

/// A text has one line per `\n`, and one more when its last character is
/// not a line ending.
pub proof fn lemma_lines_count(s: Seq<char>)
    ensures
        lines(s).len() == s.filter(|c: char| c == '\n').len() + (if s.len() > 0 && s.last()
            != '\n' {
            1int
        } else {
            0int
        }),
    decreases s.len(),
{
    let is_lf = |c: char| c == '\n';
    reveal(Seq::filter);
    if s.len() == 0 {
        assert(s.filter(is_lf) =~= Seq::<char>::empty());
    } else {
        lemma_position(s, '\n');
        let i = position(s, '\n');
        if 0 <= i < s.len() {
            let head = s.take(i);
            let rest = s.skip(i + 1);
            lemma_lines_count(rest);
            lemma_no_match_filter_empty(head, is_lf);
            assert(s =~= head + (seq!['\n'] + rest));
            Seq::filter_distributes_over_add(head, seq!['\n'] + rest, is_lf);
            Seq::filter_distributes_over_add(seq!['\n'], rest, is_lf);
            assert(seq!['\n'].drop_last() =~= Seq::<char>::empty());
            assert(seq!['\n'].filter(is_lf) =~= seq!['\n']);
            assert(lines(s) =~= seq![drop_cr(head)] + lines(rest));
            if rest.len() > 0 {
                assert(s.last() == rest.last());
            }
        } else {
            lemma_no_match_filter_empty(s, is_lf);
            assert(s.last() != '\n') by {
                assert(s[s.len() - 1] != '\n');
            }
        }
    }
}

proof fn lemma_no_match_filter_empty(s: Seq<char>, p: spec_fn(char) -> bool)
    requires
        forall|k: int| 0 <= k < s.len() ==> !p(#[trigger] s[k]),
    ensures
        s.filter(p).len() == 0,
    decreases s.len(),
{
    reveal(Seq::filter);
    if s.len() > 0 {
        lemma_no_match_filter_empty(s.drop_last(), p);
        assert(!p(s[s.len() - 1]));
    }
}

/// Joining one more piece appends the separator and the piece.
pub proof fn lemma_join_push(ps: Seq<Seq<char>>, x: Seq<char>, sep: char)
    requires
        ps.len() >= 1,
    ensures
        join_parts(ps.push(x), sep) == join_parts(ps, sep) + seq![sep] + x,
    decreases ps.len(),
{
    let longer = ps.push(x);
    if ps.len() == 1 {
        assert(longer.drop_first() =~= seq![x]);
        assert(join_parts(seq![x], sep) == x);
        assert(longer[0] == ps[0]);
        assert(join_parts(longer, sep) =~= join_parts(ps, sep) + seq![sep] + x);
    } else {
        lemma_join_push(ps.drop_first(), x, sep);
        assert(longer.drop_first() =~= ps.drop_first().push(x));
        assert(join_parts(longer, sep) =~= join_parts(ps, sep) + seq![sep] + x);
    }
}

/// Texts that split into the same pieces are equal.
pub proof fn lemma_split_injective(a: Seq<char>, b: Seq<char>, sep: char)
    requires
        split_on(a, sep) == split_on(b, sep),
    ensures
        a == b,
{
    lemma_join_split(a, sep);
    lemma_join_split(b, sep);
}

pub proof fn lemma_position<A>(s: Seq<A>, x: A)
    ensures
        -1 <= position(s, x) < s.len(),
        position(s, x) >= 0 ==> s[position(s, x)] == x,
        forall|j: int|
            0 <= j < s.len() && (position(s, x) < 0 || j < position(s, x)) ==> s[j] != x,
    decreases s.len(),
{
    if s.len() > 0 && s[0] != x {
        lemma_position(s.drop_first(), x);
        assert forall|j: int|
            0 <= j < s.len() && (position(s, x) < 0 || j < position(s, x)) implies s[j] != x by {
            if j > 0 {
                assert(s[j] == s.drop_first()[j - 1]);
            }
        }
    }
}

/// The first occurrence found by a scan is the one `position` names.
pub proof fn lemma_position_at<A>(s: Seq<A>, x: A, i: int)
    requires
        0 <= i < s.len(),
        s[i] == x,
        forall|j: int| 0 <= j < i ==> s[j] != x,
    ensures
        position(s, x) == i,
{
    lemma_position(s, x);
}

pub proof fn lemma_position_absent<A>(s: Seq<A>, x: A)
    requires
        forall|j: int| 0 <= j < s.len() ==> s[j] != x,
    ensures
        position(s, x) == -1,
{
    lemma_position(s, x);
}

pub proof fn lemma_type_arrow_position(s: Seq<char>)
    ensures
        type_arrow_position(s) == -1 || 0 <= type_arrow_position(s) < s.len() - 1,
        type_arrow_position(s) >= 0 ==> s[type_arrow_position(s)] == '-' && s[type_arrow_position(s)
            + 1] == '>',
        forall|j: int|
            0 <= j < s.len() - 1 && (type_arrow_position(s) < 0 || j < type_arrow_position(s)) ==> !(
            #[trigger] s[j] == '-' && s[j + 1] == '>'),
    decreases s.len(),
{
    if s.len() >= 2 && !(s[0] == '-' && s[1] == '>') {
        let t = s.drop_first();
        lemma_type_arrow_position(t);
        assert forall|j: int|
            0 <= j < s.len() - 1 && (type_arrow_position(s) < 0 || j < type_arrow_position(
                s,
            )) implies !(#[trigger] s[j] == '-' && s[j + 1] == '>') by {
            if j > 0 {
                assert(s[j] == t[j - 1] && s[j + 1] == t[j]);
            }
        }
    }
}

proof fn lemma_trim_start_at(s: Seq<char>, a: int)
    requires
        0 <= a <= s.len(),
        forall|j: int| 0 <= j < a ==> is_space(#[trigger] s[j]),
        a == s.len() || !is_space(s[a]),
    ensures
        trim_start(s) == s.skip(a),
    decreases a,
{
    if a == 0 {
        assert(s.skip(0) =~= s);
    } else {
        let t = s.drop_first();
        assert forall|j: int| 0 <= j < a - 1 implies is_space(#[trigger] t[j]) by {
            assert(t[j] == s[j + 1]);
        }
        lemma_trim_start_at(t, a - 1);
        assert(t.skip(a - 1) =~= s.skip(a));
    }
}

proof fn lemma_trim_end_at(s: Seq<char>, b: int)
    requires
        0 <= b <= s.len(),
        forall|j: int| b <= j < s.len() ==> is_space(#[trigger] s[j]),
        b == 0 || !is_space(s[b - 1]),
    ensures
        trim_end(s) == s.take(b),
    decreases s.len() - b,
{
    if b == s.len() {
        assert(s.take(b) =~= s);
    } else {
        let t = s.drop_last();
        assert forall|j: int| b <= j < t.len() implies is_space(#[trigger] t[j]) by {
            assert(t[j] == s[j]);
        }
        lemma_trim_end_at(t, b);
        assert(t.take(b) =~= s.take(b));
    }
}

proof fn lemma_strip_leading_at(s: Seq<char>, c: char, a: int)
    requires
        0 <= a <= s.len(),
        forall|j: int| 0 <= j < a ==> #[trigger] s[j] == c,
        a == s.len() || s[a] != c,
    ensures
        strip_leading(s, c) == s.skip(a),
    decreases a,
{
    if a == 0 {
        assert(s.skip(0) =~= s);
    } else {
        let t = s.drop_first();
        assert forall|j: int| 0 <= j < a - 1 implies #[trigger] t[j] == c by {
            assert(t[j] == s[j + 1]);
        }
        lemma_strip_leading_at(t, c, a - 1);
        assert(t.skip(a - 1) =~= s.skip(a));
    }
}

/// The texts held by a vector of character vectors.
pub open spec fn views(v: Seq<Vec<char>>) -> Seq<Seq<char>> {
    Seq::new(v.len(), |i: int| v[i]@)
}

/// The characters of `s`.
pub(crate) fn chars_of(s: &str) -> (v: Vec<char>)
    ensures
        v@ == s@,
{
    let mut v: Vec<char> = Vec::new();
    for c in it: s.chars()
        invariant
            v@ == it.seq().take(it.index() as int),
    {
        v.push(c);
    }
    v
}

/// The characters `s[from..to]` as a vector.
pub(crate) fn slice_of(s: &Vec<char>, from: usize, to: usize) -> (r: Vec<char>)
    requires
        from <= to <= s.len(),
    ensures
        r@ == s@.subrange(from as int, to as int),
{
    let mut r: Vec<char> = Vec::new();
    let mut i = from;
    while i < to
        invariant
            from <= i <= to <= s.len(),
            r@ == s@.subrange(from as int, i as int),
        decreases to - i,
    {
        r.push(s[i]);
        i += 1;
        assert(r@ =~= s@.subrange(from as int, i as int));
    }
    r
}

/// Appends the characters `s[from..to]` to `out`.
pub(crate) fn push_chars(out: &mut String, s: &Vec<char>, from: usize, to: usize)
    requires
        from <= to <= s.len(),
    ensures
        final(out)@ == old(out)@ + s@.subrange(from as int, to as int),
{
    let mut i = from;
    while i < to
        invariant
            from <= i <= to <= s.len(),
            out@ == old(out)@ + s@.subrange(from as int, i as int),
        decreases to - i,
    {
        out.push(s[i]);
        i += 1;
        assert(out@ =~= old(out)@ + s@.subrange(from as int, i as int));
    }
}

/// A string holding exactly the characters of `s`.
pub(crate) fn string_of(s: &Vec<char>) -> (r: String)
    ensures
        r@ == s@,
{
    let mut r = String::new();
    push_chars(&mut r, s, 0, s.len());
    assert(s@.subrange(0, s@.len() as int) =~= s@);
    r
}

/// Index of the first `c` in `s` at or after `from`.
pub(crate) fn find_from(s: &Vec<char>, c: char, from: usize) -> (r: Option<usize>)
    requires
        from <= s.len(),
    ensures
        match r {
            Some(i) => from <= i < s.len() && s@[i as int] == c && position(s@.skip(from as int), c)
                == i - from,
            None => position(s@.skip(from as int), c) == -1,
        },
{
    let ghost t = s@.skip(from as int);
    let mut i = from;
    while i < s.len()
        invariant
            from <= i <= s.len(),
            t == s@.skip(from as int),
            forall|j: int| from <= j < i ==> s@[j] != c,
        decreases s.len() - i,
    {
        if s[i] == c {
            proof {
                assert forall|j: int| 0 <= j < i - from implies t[j] != c by {
                    assert(t[j] == s@[j + from]);
                }
                lemma_position_at(t, c, i - from);
            }
            return Some(i);
        }
        i += 1;
    }
    proof {
        assert forall|j: int| 0 <= j < t.len() implies t[j] != c by {
            assert(t[j] == s@[j + from]);
        }
        lemma_position_absent(t, c);
    }
    None
}

/// Index of the first `c` in `s`.
pub(crate) fn find_char(s: &Vec<char>, c: char) -> (r: Option<usize>)
    ensures
        match r {
            Some(i) => position(s@, c) == i,
            None => position(s@, c) == -1,
        },
{
    let r = find_from(s, c, 0);
    assert(s@.skip(0) =~= s@);
    r
}

/// Index of the first `->` in `s`.
pub(crate) fn find_type_arrow(s: &Vec<char>) -> (r: Option<usize>)
    ensures
        match r {
            Some(i) => type_arrow_position(s@) == i,
            None => type_arrow_position(s@) == -1,
        },
{
    proof {
        lemma_type_arrow_position(s@);
    }
    let mut i: usize = 0;
    while i < s.len() && i + 1 < s.len()
        invariant
            forall|j: int| 0 <= j < i && j + 1 < s.len() ==> !(#[trigger] s@[j] == '-' && s@[j + 1] == '>'),
            i <= s.len(),
        decreases s.len() - i,
    {
        if s[i] == '-' && s[i + 1] == '>' {
            proof {
                lemma_type_arrow_position(s@);
                let p = type_arrow_position(s@);
                assert(s@[i as int] == '-');
                if 0 <= p < i {
                    assert(s@[p] == '-');
                }
            }
            return Some(i);
        }
        i += 1;
    }
    None
}

/// `s` with leading and trailing whitespace removed.
pub(crate) fn trim_chars(s: &Vec<char>) -> (r: Vec<char>)
    ensures
        r@ == trim(s@),
{
    let mut a: usize = 0;
    while a < s.len() && is_space_char(s[a])
        invariant
            a <= s.len(),
            forall|j: int| 0 <= j < a ==> is_space(#[trigger] s@[j]),
        decreases s.len() - a,
    {
        a += 1;
    }
    proof {
        lemma_trim_start_at(s@, a as int);
    }
    let mut b: usize = s.len();
    while b > a && is_space_char(s[b - 1])
        invariant
            a <= b <= s.len(),
            forall|j: int| b <= j < s.len() ==> is_space(#[trigger] s@[j]),
        decreases b,
    {
        b -= 1;
    }
    let ghost t = s@.skip(a as int);
    proof {
        assert forall|j: int| b - a <= j < t.len() implies is_space(#[trigger] t[j]) by {
            assert(t[j] == s@[j + a]);
        }
        if b > a {
            assert(t[b - a - 1] == s@[b - 1]);
        }
        lemma_trim_end_at(t, b - a);
        assert(t.take(b - a) =~= s@.subrange(a as int, b as int));
    }
    slice_of(s, a, b)
}

/// `s` without any leading `c`.
pub(crate) fn strip_leading_chars(s: &Vec<char>, c: char) -> (r: Vec<char>)
    ensures
        r@ == strip_leading(s@, c),
{
    let mut a: usize = 0;
    while a < s.len() && s[a] == c
        invariant
            a <= s.len(),
            forall|j: int| 0 <= j < a ==> #[trigger] s@[j] == c,
        decreases s.len() - a,
    {
        a += 1;
    }
    proof {
        lemma_strip_leading_at(s@, c, a as int);
        assert(s@.subrange(a as int, s@.len() as int) =~= s@.skip(a as int));
    }
    slice_of(s, a, s.len())
}

/// The pieces of `s` between occurrences of `sep`.
pub(crate) fn split_chars(s: &Vec<char>, sep: char) -> (r: Vec<Vec<char>>)
    ensures
        views(r@) == split_on(s@, sep),
{
    let mut r: Vec<Vec<char>> = Vec::new();
    let mut start: usize = 0;
    assert(views(r@) + split_on(s@.skip(0), sep) =~= split_on(s@, sep)) by {
        assert(s@.skip(0) =~= s@);
    }
    loop
        invariant
            start <= s.len(),
            split_on(s@, sep) == views(r@) + split_on(s@.skip(start as int), sep),
        decreases s.len() - start,
    {
        let ghost t = s@.skip(start as int);
        match find_from(s, sep, start) {
            Some(j) => {
                let piece = slice_of(s, start, j);
                let ghost old_r = views(r@);
                r.push(piece);
                proof {
                    assert(t.take(j - start) =~= s@.subrange(start as int, j as int));
                    assert(t.skip(j - start + 1) =~= s@.skip(j + 1));
                    assert(views(r@) =~= old_r.push(s@.subrange(start as int, j as int)));
                    assert(split_on(t, sep) =~= seq![t.take(j - start)] + split_on(t.skip(j - start + 1), sep));
                    assert(views(r@) + split_on(s@.skip(j + 1), sep) =~= old_r + split_on(t, sep));
                }
                start = j + 1;
            },
            None => {
                let piece = slice_of(s, start, s.len());
                let ghost old_r = views(r@);
                r.push(piece);
                proof {
                    assert(t =~= s@.subrange(start as int, s@.len() as int));
                    assert(views(r@) =~= old_r.push(t));
                    assert(split_on(t, sep) == seq![t]);
                    assert(split_on(s@, sep) =~= views(r@));
                }
                return r;
            },
        }
    }
}

/// The lines of `s`, as `str::lines` yields them.
pub(crate) fn lines_of(s: &Vec<char>) -> (r: Vec<Vec<char>>)
    ensures
        views(r@) == lines(s@),
{
    let mut r: Vec<Vec<char>> = Vec::new();
    let mut start: usize = 0;
    assert(views(r@) + lines(s@.skip(0)) =~= lines(s@)) by {
        assert(s@.skip(0) =~= s@);
    }
    loop
        invariant
            start <= s.len(),
            lines(s@) == views(r@) + lines(s@.skip(start as int)),
        decreases s.len() - start,
    {
        let ghost t = s@.skip(start as int);
        if start == s.len() {
            assert(t.len() == 0);
            assert(lines(s@) =~= views(r@));
            return r;
        }
        let ghost old_r = views(r@);
        match find_from(s, '\n', start) {
            Some(j) => {
                let end = if j > start && s[j - 1] == '\r' {
                    j - 1
                } else {
                    j
                };
                let piece = slice_of(s, start, end);
                r.push(piece);
                proof {
                    let p = t.take(j - start);
                    assert(p =~= s@.subrange(start as int, j as int));
                    assert(drop_cr(p) =~= s@.subrange(start as int, end as int));
                    assert(t.skip(j - start + 1) =~= s@.skip(j + 1));
                    assert(views(r@) =~= old_r.push(drop_cr(p)));
                    assert(lines(t) =~= seq![drop_cr(p)] + lines(t.skip(j - start + 1)));
                    assert(views(r@) + lines(s@.skip(j + 1)) =~= old_r + lines(t));
                }
                start = j + 1;
            },
            None => {
                let piece = slice_of(s, start, s.len());
                r.push(piece);
                proof {
                    assert(t =~= s@.subrange(start as int, s@.len() as int));
                    assert(views(r@) =~= old_r.push(t));
                    assert(lines(t) == seq![t]);
                    assert(lines(s@) =~= views(r@));
                }
                return r;
            },
        }
    }
}

/// Appends the decimal notation of `n` to `out`.
pub(crate) fn push_decimal(out: &mut String, n: usize)
    ensures
        final(out)@ == old(out)@ + decimal(n as nat),
    decreases n,
{
    if n >= 10 {
        push_decimal(out, n / 10);
    }
    let d = (n % 10) as u8;
    let c = (d + 48) as char;
    proof {
        assert(c == digit((n % 10) as nat));
    }
    out.push(c);
    proof {
        if n < 10 {
            assert(old(out)@ + decimal(n as nat) =~= old(out)@.push(c));
        } else {
            assert(decimal(n as nat) == decimal((n / 10) as nat).push(c));
            assert(out@ =~= old(out)@ + decimal(n as nat));
        }
    }
}

} // verus!
