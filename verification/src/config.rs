//! The loaded configuration: nested tables addressed by dotted keys.
use vstd::prelude::*;
use vstd::string::*;

use crate::text::{
    chars_of, join_parts, lemma_join_push, lemma_join_split, lemma_split_injective, lemma_split_join,
    split_chars, split_on, string_of, views,
};
use crate::value::{
    assign, child_start, lemma_child_decreases, lemma_lookup_after_assign, lookup, Table, Value,
    ValueView,
};

verus! {

/// The value reached from `v` by following `path`, one key per level.
pub open spec fn walk(v: ValueView, path: Seq<Seq<char>>) -> Option<ValueView>
    decreases path.len(),
{
    if path.len() == 0 {
        Some(v)
    } else {
        match v {
            ValueView::Nested(es) => match lookup(es, path[0]) {
                Some(c) => walk(c, path.drop_first()),
                None => None,
            },
            ValueView::Text(_) => None,
        }
    }
}

/// The value that a dotted key such as `log.file` names in a table.
pub open spec fn resolve(es: Seq<(Seq<char>, ValueView)>, key: Seq<char>) -> Option<ValueView> {
    walk(ValueView::Nested(es), split_on(key, '.'))
}

/// `prefix.key`, or `key` alone when the prefix is empty.
pub open spec fn joined(prefix: Seq<char>, key: Seq<char>) -> Seq<char> {
    if prefix.len() == 0 {
        key
    } else {
        prefix + seq!['.'] + key
    }
}

pub open spec fn empty_segment_message() -> Seq<char> {
    "key contains an empty segment"@
}

pub open spec fn holds_value_message(key: Seq<char>) -> Seq<char> {
    "key `"@ + key + "` already holds a value and cannot have children"@
}

pub open spec fn holds_children_message(key: Seq<char>) -> Seq<char> {
    "key `"@ + key + "` already holds child keys and cannot hold a value"@
}

/// Storing `value` under the key segments `segs`, below the key `visited`
/// already walked: the table afterwards, and the error if there is one.
///
/// Segments are taken in order. An empty segment is an error. A segment
/// that is not the last one descends into its table, creating it empty
/// when absent, and fails if it holds a string; the last segment takes the
/// value unless it holds a table. Tables created before a failure remain.
pub open spec fn put(
    es: Seq<(Seq<char>, ValueView)>,
    segs: Seq<Seq<char>>,
    visited: Seq<char>,
    value: Seq<char>,
) -> (Seq<(Seq<char>, ValueView)>, Result<(), Seq<char>>)
    decreases segs.len(),
{
    if segs.len() == 0 {
        (es, Ok(()))
    } else {
        let seg = segs[0];
        let here = joined(visited, seg);
        if seg.len() == 0 {
            (es, Err(empty_segment_message()))
        } else if segs.len() == 1 {
            match lookup(es, seg) {
                Some(ValueView::Nested(_)) => (es, Err(holds_children_message(here))),
                _ => (assign(es, seg, ValueView::Text(value)), Ok(())),
            }
        } else {
            match lookup(es, seg) {
                Some(ValueView::Text(_)) => (es, Err(holds_value_message(here))),
                found => {
                    let (sub, r) = put(child_start(found), segs.drop_first(), here, value);
                    (assign(es, seg, ValueView::Nested(sub)), r)
                },
            }
        }
    }
}

/// Storing `value` under the dotted `key`.
pub open spec fn insert_result(
    es: Seq<(Seq<char>, ValueView)>,
    key: Seq<char>,
    value: Seq<char>,
) -> (Seq<(Seq<char>, ValueView)>, Result<(), Seq<char>>) {
    put(es, split_on(key, '.'), Seq::empty(), value)
}

/// The leaves below a table as (dotted key, value) pairs, in order.
pub open spec fn flat_entries(es: Seq<(Seq<char>, ValueView)>, prefix: Seq<char>) -> Seq<
    (Seq<char>, Seq<char>),
>
    decreases es,
{
    if es.len() == 0 {
        Seq::empty()
    } else {
        flat_entries(es.drop_last(), prefix) + flat_value(
            es.last().1,
            joined(prefix, es.last().0),
        )
    }
}

/// The leaves of a value stored under the dotted key `path`.
pub open spec fn flat_value(v: ValueView, path: Seq<char>) -> Seq<(Seq<char>, Seq<char>)>
    decreases v,
{
    match v {
        ValueView::Text(s) => seq![(path, s)],
        ValueView::Nested(es) => flat_entries(es, path),
    }
}

/// An outcome without error, or the error's text.
pub open spec fn outcome(r: Result<(), String>) -> Result<(), Seq<char>> {
    match r {
        Ok(()) => Ok(()),
        Err(e) => Err(e@),
    }
}

/// The (key, value) texts of a flattened list.
pub open spec fn pair_views(s: Seq<(String, &str)>) -> Seq<(Seq<char>, Seq<char>)> {
    Seq::new(s.len(), |i: int| (s[i].0@, s[i].1@))
}

/// The string that the dotted `key` reads in a table, if it reads one.
pub open spec fn text_of(es: Seq<(Seq<char>, ValueView)>, key: Seq<char>) -> Option<Seq<char>> {
    text_at(ValueView::Nested(es), split_on(key, '.'))
}

/// Whether a dotted key has an empty part, as `a..b`, `.a` and `a.` do.
pub open spec fn has_empty_part(key: Seq<char>) -> bool {
    exists|j: int|
        0 <= j < split_on(key, '.').len() && (#[trigger] split_on(key, '.')[j]).len() == 0
}

/// The result of loading a file or a string.
///
/// Values are kept nested along the `.`-separated parts of their keys, and
/// can be looked up with the dotted key, as with [`SysctlConfig::get`].
#[derive(Debug, PartialEq, Eq)]
pub struct SysctlConfig {
    root: Table,
}

impl View for SysctlConfig {
    type V = Seq<(Seq<char>, ValueView)>;

    closed spec fn view(&self) -> Seq<(Seq<char>, ValueView)> {
        self.root@
    }
}

fn message_with_key(before: &str, key: &Vec<char>, after: &str) -> (r: String)
    ensures
        r@ == before@ + key@ + after@,
{
    let mut r = String::from_str(before);
    let k = string_of(key);
    r.append(k.as_str());
    r.append(after);
    r
}

fn joined_chars(prefix: &Vec<char>, key: &Vec<char>) -> (r: Vec<char>)
    ensures
        r@ == joined(prefix@, key@),
{
    let mut r: Vec<char> = Vec::new();
    let mut i: usize = 0;
    while i < prefix.len()
        invariant
            i <= prefix@.len(),
            r@ == prefix@.take(i as int),
        decreases prefix@.len() - i,
    {
        r.push(prefix[i]);
        i += 1;
        assert(r@ =~= prefix@.take(i as int));
    }
    if prefix.len() > 0 {
        r.push('.');
    }
    let ghost base = r@;
    let mut j: usize = 0;
    while j < key.len()
        invariant
            j <= key@.len(),
            r@ == base + key@.take(j as int),
        decreases key@.len() - j,
    {
        r.push(key[j]);
        j += 1;
        assert(r@ =~= base + key@.take(j as int));
    }
    assert(key@.take(key@.len() as int) =~= key@);
    assert(prefix@.take(prefix@.len() as int) =~= prefix@);
    assert(r@ =~= joined(prefix@, key@));
    r
}

fn put_path(
    table: &mut Table,
    segs: &Vec<Vec<char>>,
    i: usize,
    visited: &Vec<char>,
    value: &str,
) -> (r: Result<(), String>)
    requires
        i < segs@.len(),
    ensures
        (final(table)@, outcome(r)) == put(old(table)@, views(segs@).skip(i as int), visited@, value@),
    decreases segs@.len() - i,
{
    let ghost path = views(segs@).skip(i as int);
    assert(path[0] == segs@[i as int]@);
    assert(path.drop_first() =~= views(segs@).skip(i + 1));
    let seg = &segs[i];
    if seg.len() == 0 {
        return Err(String::from_str("key contains an empty segment"));
    }
    let here = joined_chars(visited, seg);
    let name = string_of(seg);
    if i == segs.len() - 1 {
        let holds_table = match table.get(name.as_str()) {
            Some(v) => v.is_table(),
            None => false,
        };
        if holds_table {
            return Err(
                message_with_key("key `", &here, "` already holds child keys and cannot hold a value"),
            );
        }
        table.insert(name.as_str(), Value::String(String::from_str(value)));
        Ok(())
    } else {
        match table.child_table(name.as_str()) {
            None => Err(
                message_with_key("key `", &here, "` already holds a value and cannot have children"),
            ),
            Some(child) => put_path(child, segs, i + 1, &here, value),
        }
    }
}

impl Clone for SysctlConfig {
    fn clone(&self) -> (r: Self)
        ensures
            r@ == self@,
    {
        proof {
            use_type_invariant(self);
        }
        SysctlConfig { root: self.root.clone() }
    }
}

impl Default for SysctlConfig {
    fn default() -> (c: Self)
        ensures
            c@ == Seq::<(Seq<char>, ValueView)>::empty(),
    {
        SysctlConfig::new()
    }
}

impl SysctlConfig {
    /// Every configuration is [`well_formed`]: it starts empty and changes
    /// only by [`SysctlConfig::insert`].
    #[verifier::type_invariant]
    spec fn shaped(self) -> bool {
        well_formed(self.root@)
    }

    /// An empty configuration.
    pub fn new() -> (c: SysctlConfig)
        ensures
            c@ == Seq::<(Seq<char>, ValueView)>::empty(),
    {
        SysctlConfig { root: Table::new() }
    }

    /// The top-level table, which is [`well_formed`].
    pub fn root(&self) -> (r: &Table)
        ensures
            r@ == self@,
            well_formed(r@),
    {
        proof {
            use_type_invariant(self);
        }
        &self.root
    }

    /// The value of a dotted key such as `log.file`; an intermediate key
    /// such as `log` gives its [`Value::Table`].
    pub fn get(&self, key: &str) -> (r: Option<&Value>)
        ensures
            match r {
                Some(v) => resolve(self@, key@) == Some(v@),
                None => resolve(self@, key@) is None,
            },
            has_empty_part(key@) ==> r is None,
    {
        proof {
            use_type_invariant(self);
            if has_empty_part(key@) {
                let j = choose|j: int|
                    0 <= j < split_on(key@, '.').len() && (#[trigger] split_on(key@, '.')[j]).len()
                        == 0;
                lemma_empty_part_reads_nothing(self@, key@, j);
            }
        }
        let chars = chars_of(key);
        let segs = split_chars(&chars, '.');
        let ghost path = split_on(key@, '.');
        assert(views(segs@) == path);
        assert(segs@.len() >= 1);
        let first = string_of(&segs[0]);
        assert(first@ == path[0]);
        let mut value = match self.root.get(first.as_str()) {
            Some(v) => v,
            None => return None,
        };
        assert(path.skip(1) =~= path.drop_first());
        let mut i: usize = 1;
        while i < segs.len()
            invariant
                1 <= i <= segs@.len(),
                views(segs@) == path,
                path == split_on(key@, '.'),
                walk(ValueView::Nested(self@), path) == walk(value@, path.skip(i as int)),
            decreases segs@.len() - i,
        {
            let t = match value.as_table() {
                Some(t) => t,
                None => return None,
            };
            let seg = string_of(&segs[i]);
            assert(path.skip(i as int)[0] == seg@);
            assert(path.skip(i as int).drop_first() =~= path.skip(i + 1));
            value = match t.get(seg.as_str()) {
                Some(v) => v,
                None => return None,
            };
            i += 1;
        }
        assert(path.skip(i as int) =~= Seq::<Seq<char>>::empty());
        Some(value)
    }

    /// The string value of a dotted key; `None` for a missing key and for
    /// an intermediate key.
    pub fn get_str(&self, key: &str) -> (r: Option<&str>)
        ensures
            match resolve(self@, key@) {
                Some(ValueView::Text(s)) => r matches Some(x) && x@ == s,
                _ => r is None,
            },
            match r {
                Some(x) => text_of(self@, key@) == Some(x@),
                None => text_of(self@, key@) is None,
            },
            has_empty_part(key@) ==> r is None,
    {
        match self.get(key) {
            Some(v) => v.as_str(),
            None => None,
        }
    }

    /// Every leaf value paired with its dotted key, in the order of
    /// appearance.
    ///
    /// A pair is listed exactly when its key reads its value, and no key is
    /// listed twice.
    pub fn flatten(&self) -> (r: Vec<(String, &str)>)
        ensures
            pair_views(r@) == flat_entries(self@, Seq::empty()),
            forall|k: Seq<char>, v: Seq<char>|
                #[trigger] pair_views(r@).contains((k, v)) <==> text_of(self@, k) == Some(v),
            forall|a: int, b: int|
                0 <= a < b < r@.len() ==> (#[trigger] r@[a]).0@ != (#[trigger] r@[b]).0@,
    {
        let mut flat: Vec<(String, &str)> = Vec::new();
        let prefix: Vec<char> = Vec::new();
        push_flattened(&self.root, &prefix, &mut flat);
        let ghost flat_view = flat_entries(self@, Seq::empty());
        assert(pair_views(flat@) =~= flat_view);
        proof {
            use_type_invariant(self);
            lemma_flatten_reads_back(self@);
            lemma_flatten_keys_distinct(self@);
            assert forall|k: Seq<char>, v: Seq<char>|
                #[trigger] pair_views(flat@).contains((k, v)) <==> text_of(self@, k) == Some(v) by {
                if text_of(self@, k) == Some(v) {
                    lemma_flatten_lists_every_leaf(self@, k, v);
                }
                if pair_views(flat@).contains((k, v)) {
                    let j = choose|j: int| 0 <= j < flat_view.len() && flat_view[j] == (k, v);
                    assert(resolve(self@, flat_view[j].0) == Some(ValueView::Text(flat_view[j].1)));
                }
            }
            assert forall|a: int, b: int| 0 <= a < b < flat@.len() implies (#[trigger] flat@[a]).0@
                != (#[trigger] flat@[b]).0@ by {
                assert(flat_view[a].0 == flat@[a].0@ && flat_view[b].0 == flat@[b].0@);
            }
        }
        flat
    }

    /// The nested tables as one line of JSON.
    pub fn to_json(&self) -> (r: String)
        ensures
            r@ == crate::json::json_value(ValueView::Nested(self@)),
    {
        self.root.to_json()
    }

    /// The nested tables as indented JSON.
    pub fn to_json_pretty(&self) -> (r: String)
        ensures
            r@ == crate::json::json_pretty(ValueView::Nested(self@), 0),
    {
        self.root.to_json_pretty()
    }

    /// Stores `value` under the dotted `key`, creating the tables on the
    /// way. Fails on an empty key segment, on a key below a string, and on
    /// a key that already holds child keys.
    ///
    /// After a success the key reads `value`, every other key reads what
    /// it read before (a string or nothing), and there is one more leaf
    /// unless the key held a string already. After a failure the leaves are
    /// those of before; tables made on the way may remain, empty.
    pub fn insert(&mut self, key: &str, value: &str) -> (r: Result<(), String>)
        ensures
            (final(self)@, outcome(r)) == insert_result(old(self)@, key@, value@),
            r is Ok ==> text_of(final(self)@, key@) == Some(value@),
            r is Ok ==> forall|other: Seq<char>|
                other != key@ ==> #[trigger] text_of(final(self)@, other) == text_of(
                    old(self)@,
                    other,
                ),
            r is Ok ==> flat_entries(final(self)@, Seq::empty()).len() == flat_entries(
                old(self)@,
                Seq::empty(),
            ).len() + (if text_of(old(self)@, key@) is Some {
                0int
            } else {
                1int
            }),
            r is Err ==> flat_entries(final(self)@, Seq::empty()) == flat_entries(
                old(self)@,
                Seq::empty(),
            ),
    {
        proof {
            use_type_invariant(&*self);
            let es = self@;
            lemma_insert_keeps_well_formed(es, key@, value@);
            if insert_result(es, key@, value@).1 is Ok {
                lemma_insert_then_resolve(es, key@, value@);
                lemma_insert_adds_at_most_one_leaf(es, key@, value@);
                assert forall|other: Seq<char>| other != key@ implies #[trigger] text_of(
                    insert_result(es, key@, value@).0,
                    other,
                ) == text_of(es, other) by {
                    lemma_insert_changes_only_its_key(es, key@, value@, other);
                }
            } else {
                lemma_failed_insert_keeps_leaves(es, key@, value@);
            }
        }
        let mut root = Table::new();
        std::mem::swap(&mut root, &mut self.root);
        let chars = chars_of(key);
        let segs = split_chars(&chars, '.');
        assert(views(segs@) == split_on(key@, '.'));
        assert(split_on(key@, '.').len() >= 1);
        assert(segs@.len() >= 1);
        assert(views(segs@).skip(0) =~= views(segs@));
        let visited: Vec<char> = Vec::new();
        assert(visited@ =~= Seq::<char>::empty());
        let r = put_path(&mut root, &segs, 0, &visited, value);
        self.root = root;
        r
    }
}

fn push_flattened<'a>(table: &'a Table, prefix: &Vec<char>, flat: &mut Vec<(String, &'a str)>)
    ensures
        pair_views(final(flat)@) == pair_views(old(flat)@) + flat_entries(table@, prefix@),
    decreases table@,
{
    let ghost es = table@;
    let items = table.iter();
    let mut i: usize = 0;
    while i < items.len()
        invariant
            es == table@,
            items@.len() == es.len(),
            forall|j: int|
                0 <= j < items@.len() ==> (#[trigger] items@[j]).0@ == es[j].0 && items@[j].1@
                    == es[j].1,
            i <= items@.len(),
            pair_views(flat@) == pair_views(old(flat)@) + flat_entries(es.take(i as int), prefix@),
        decreases items@.len() - i,
    {
        let (key, value) = items[i];
        let key_chars = chars_of(key);
        let path = joined_chars(prefix, &key_chars);
        let ghost before = pair_views(flat@);
        match value {
            Value::String(text) => {
                flat.push((string_of(&path), text.as_str()));
                assert(pair_views(flat@) =~= before + flat_value(es[i as int].1, path@));
            },
            Value::Table(child) => {
                proof {
                    lemma_child_decreases(es, i as int, child@);
                }
                push_flattened(child, &path, flat);
                assert(value@ == ValueView::Nested(child@));
            },
        }
        proof {
            let prefix_es = es.take(i as int + 1);
            assert(prefix_es.drop_last() =~= es.take(i as int));
            assert(prefix_es.last() == es[i as int]);
            assert(path@ == joined(prefix@, es[i as int].0));
            assert(flat_entries(prefix_es, prefix@) == flat_entries(es.take(i as int), prefix@)
                + flat_value(es[i as int].1, path@));
            assert(pair_views(flat@) == before + flat_value(es[i as int].1, path@));
        }
        i += 1;
        assert(pair_views(flat@) =~= pair_views(old(flat)@) + flat_entries(es.take(i as int), prefix@));
    }
    assert(es.take(es.len() as int) =~= es);
}

proof fn lemma_put_then_walk(
    es: Seq<(Seq<char>, ValueView)>,
    segs: Seq<Seq<char>>,
    visited: Seq<char>,
    value: Seq<char>,
)
    requires
        segs.len() >= 1,
        put(es, segs, visited, value).1 is Ok,
    ensures
        walk(ValueView::Nested(put(es, segs, visited, value).0), segs) == Some(
            ValueView::Text(value),
        ),
    decreases segs.len(),
{
    let seg = segs[0];
    let here = joined(visited, seg);
    if segs.len() == 1 {
        let after = assign(es, seg, ValueView::Text(value));
        assert(put(es, segs, visited, value).0 == after);
        lemma_lookup_after_assign(es, seg, ValueView::Text(value), seg);
        assert(segs.drop_first().len() == 0);
        assert(walk(ValueView::Text(value), segs.drop_first()) == Some(ValueView::Text(value)));
        assert(walk(ValueView::Nested(after), segs) == walk(ValueView::Text(value), segs.drop_first()));
    } else {
        let found = lookup(es, seg);
        let (sub, r) = put(child_start(found), segs.drop_first(), here, value);
        let after = assign(es, seg, ValueView::Nested(sub));
        assert(put(es, segs, visited, value).0 == after);
        lemma_put_then_walk(child_start(found), segs.drop_first(), here, value);
        lemma_lookup_after_assign(es, seg, ValueView::Nested(sub), seg);
        assert(walk(ValueView::Nested(after), segs) == walk(ValueView::Nested(sub), segs.drop_first()));
    }
}

/// Storing a value under a dotted key and then reading that key gives the
/// value back.
pub proof fn lemma_insert_then_resolve(
    es: Seq<(Seq<char>, ValueView)>,
    key: Seq<char>,
    value: Seq<char>,
)
    requires
        insert_result(es, key, value).1 is Ok,
    ensures
        resolve(insert_result(es, key, value).0, key) == Some(ValueView::Text(value)),
{
    lemma_join_split(key, '.');
    lemma_put_then_walk(es, split_on(key, '.'), Seq::empty(), value);
}

proof fn lemma_put_keeps_other_leaves(
    es: Seq<(Seq<char>, ValueView)>,
    segs: Seq<Seq<char>>,
    visited: Seq<char>,
    value: Seq<char>,
    q: Seq<Seq<char>>,
    t: Seq<char>,
)
    requires
        segs.len() >= 1,
        put(es, segs, visited, value).1 is Ok,
        q != segs,
        walk(ValueView::Nested(es), q) == Some(ValueView::Text(t)),
    ensures
        walk(ValueView::Nested(put(es, segs, visited, value).0), q) == Some(ValueView::Text(t)),
    decreases segs.len(),
{
    let seg = segs[0];
    let here = joined(visited, seg);
    let found = lookup(es, seg);
    assert(q.len() > 0);
    assert(walk(ValueView::Nested(es), q) == match lookup(es, q[0]) {
        Some(c) => walk(c, q.drop_first()),
        None => None,
    });
    if segs.len() == 1 {
        let after = assign(es, seg, ValueView::Text(value));
        assert(put(es, segs, visited, value).0 == after);
        lemma_lookup_after_assign(es, seg, ValueView::Text(value), q[0]);
        assert(walk(ValueView::Nested(after), q) == match lookup(after, q[0]) {
            Some(c) => walk(c, q.drop_first()),
            None => None,
        });
        if q[0] == seg {
            let c = found.unwrap();
            assert(c is Text);
            if q.drop_first().len() > 0 {
                assert(walk(c, q.drop_first()) is None);
            }
            assert(q =~= segs);
        }
    } else {
        let (sub, r) = put(child_start(found), segs.drop_first(), here, value);
        let after = assign(es, seg, ValueView::Nested(sub));
        assert(put(es, segs, visited, value).0 == after);
        lemma_lookup_after_assign(es, seg, ValueView::Nested(sub), q[0]);
        assert(walk(ValueView::Nested(after), q) == match lookup(after, q[0]) {
            Some(c) => walk(c, q.drop_first()),
            None => None,
        });
        if q[0] == seg {
            if q.drop_first() == segs.drop_first() {
                assert forall|k: int| 0 <= k < q.len() implies q[k] == segs[k] by {
                    if k > 0 {
                        assert(q[k] == q.drop_first()[k - 1]);
                        assert(segs[k] == segs.drop_first()[k - 1]);
                    }
                }
                assert(q =~= segs);
            }
            lemma_put_keeps_other_leaves(
                child_start(found),
                segs.drop_first(),
                here,
                value,
                q.drop_first(),
                t,
            );
        }
    }
}

/// Storing a value under one dotted key leaves the string value of every
/// other key as it was.
pub proof fn lemma_insert_keeps_other_values(
    es: Seq<(Seq<char>, ValueView)>,
    key: Seq<char>,
    value: Seq<char>,
    other: Seq<char>,
    t: Seq<char>,
)
    requires
        insert_result(es, key, value).1 is Ok,
        other != key,
        resolve(es, other) == Some(ValueView::Text(t)),
    ensures
        resolve(insert_result(es, key, value).0, other) == Some(ValueView::Text(t)),
{
    lemma_join_split(key, '.');
    if split_on(other, '.') == split_on(key, '.') {
        lemma_split_injective(other, key, '.');
    }
    lemma_put_keeps_other_leaves(
        es,
        split_on(key, '.'),
        Seq::empty(),
        value,
        split_on(other, '.'),
        t,
    );
}

/// A key of one level: not empty, and without `.`.
pub open spec fn key_part(k: Seq<char>) -> bool {
    k.len() > 0 && !k.contains('.')
}

/// The shape of every table that loading builds: each key is a
/// [`key_part`], no key occurs twice in one table, and nested tables have
/// the same shape.
pub open spec fn well_formed(es: Seq<(Seq<char>, ValueView)>) -> bool
    decreases es,
{
    if es.len() == 0 {
        true
    } else {
        let last = es.last();
        &&& well_formed(es.drop_last())
        &&& key_part(last.0)
        &&& !crate::value::keys_of(es.drop_last()).contains(last.0)
        &&& match last.1 {
            ValueView::Nested(sub) => well_formed(sub),
            ValueView::Text(_) => true,
        }
    }
}

/// A leaf, or a well-formed nested table.
pub open spec fn value_ok(v: ValueView) -> bool {
    match v {
        ValueView::Nested(sub) => well_formed(sub),
        ValueView::Text(_) => true,
    }
}

/// [`well_formed`] stated entry by entry.
pub open spec fn well_shaped(es: Seq<(Seq<char>, ValueView)>) -> bool {
    &&& forall|i: int, j: int| 0 <= i < j < es.len() ==> (#[trigger] es[i]).0 != (#[trigger] es[j]).0
    &&& forall|i: int| 0 <= i < es.len() ==> key_part((#[trigger] es[i]).0)
    &&& forall|i: int| 0 <= i < es.len() ==> value_ok((#[trigger] es[i]).1)
}

pub proof fn lemma_well_formed_shape(es: Seq<(Seq<char>, ValueView)>)
    ensures
        well_formed(es) == well_shaped(es),
    decreases es.len(),
{
    if es.len() > 0 {
        let rest = es.drop_last();
        let last = es.last();
        let n = es.len() - 1;
        lemma_well_formed_shape(rest);
        let ks = crate::value::keys_of(rest);
        assert(ks.contains(last.0) <==> exists|i: int| 0 <= i < n && rest[i].0 == last.0) by {
            if ks.contains(last.0) {
                let i = choose|i: int| 0 <= i < ks.len() && ks[i] == last.0;
                assert(rest[i].0 == last.0);
            }
            if exists|i: int| 0 <= i < n && rest[i].0 == last.0 {
                let i = choose|i: int| 0 <= i < n && rest[i].0 == last.0;
                assert(ks[i] == last.0);
            }
        }
        if well_formed(es) {
            assert forall|i: int, j: int| 0 <= i < j < es.len() implies (#[trigger] es[i]).0 != (
            #[trigger] es[j]).0 by {
                assert(es[i] == rest[i]);
                if j < n {
                    assert(es[j] == rest[j]);
                }
            }
            assert forall|i: int| 0 <= i < es.len() implies key_part((#[trigger] es[i]).0) && value_ok(
                es[i].1,
            ) by {
                if i < n {
                    assert(es[i] == rest[i]);
                }
            }
        }
        if well_shaped(es) {
            assert forall|i: int, j: int| 0 <= i < j < rest.len() implies (#[trigger] rest[i]).0
                != (#[trigger] rest[j]).0 by {
                assert(es[i] == rest[i] && es[j] == rest[j]);
            }
            assert forall|i: int| 0 <= i < rest.len() implies key_part((#[trigger] rest[i]).0)
                && value_ok(rest[i].1) by {
                assert(es[i] == rest[i]);
            }
            assert forall|i: int| 0 <= i < n implies rest[i].0 != last.0 by {
                assert(es[i] == rest[i]);
                assert(es[n] == last);
            }
            assert(key_part(es[n].0) && value_ok(es[n].1));
        }
    }
}

/// The value under a key of a well-formed table is a leaf or a
/// well-formed table.
pub proof fn lemma_lookup_well_formed(es: Seq<(Seq<char>, ValueView)>, key: Seq<char>)
    requires
        well_formed(es),
    ensures
        lookup(es, key) matches Some(v) ==> value_ok(v),
{
    lemma_well_formed_shape(es);
    crate::text::lemma_position(crate::value::keys_of(es), key);
}

/// Setting a key part to a leaf or well-formed table keeps a table well
/// formed.
pub proof fn lemma_assign_well_formed(es: Seq<(Seq<char>, ValueView)>, key: Seq<char>, v: ValueView)
    requires
        well_formed(es),
        key_part(key),
        value_ok(v),
    ensures
        well_formed(assign(es, key, v)),
{
    lemma_well_formed_shape(es);
    let ks = crate::value::keys_of(es);
    crate::text::lemma_position(ks, key);
    let i = crate::text::position(ks, key);
    let after = assign(es, key, v);
    if 0 <= i < es.len() {
        assert forall|a: int, b: int| 0 <= a < b < after.len() implies (#[trigger] after[a]).0 != (
        #[trigger] after[b]).0 by {
            assert(es[i].0 == key);
            assert(after[a].0 == es[a].0 && after[b].0 == es[b].0);
        }
        assert forall|a: int| 0 <= a < after.len() implies key_part((#[trigger] after[a]).0)
            && value_ok(after[a].1) by {
            if a != i {
                assert(after[a] == es[a]);
            }
        }
    } else {
        assert forall|a: int, b: int| 0 <= a < b < after.len() implies (#[trigger] after[a]).0 != (
        #[trigger] after[b]).0 by {
            assert(after[a] == es[a]);
            if b < es.len() {
                assert(after[b] == es[b]);
            } else {
                assert(ks[a] == es[a].0);
            }
        }
        assert forall|a: int| 0 <= a < after.len() implies key_part((#[trigger] after[a]).0)
            && value_ok(after[a].1) by {
            if a < es.len() {
                assert(after[a] == es[a]);
            }
        }
    }
    lemma_well_formed_shape(after);
}

proof fn lemma_put_well_formed(
    es: Seq<(Seq<char>, ValueView)>,
    segs: Seq<Seq<char>>,
    visited: Seq<char>,
    value: Seq<char>,
)
    requires
        well_formed(es),
        forall|i: int| 0 <= i < segs.len() ==> !(#[trigger] segs[i]).contains('.'),
    ensures
        well_formed(put(es, segs, visited, value).0),
    decreases segs.len(),
{
    if segs.len() > 0 {
        let seg = segs[0];
        let here = joined(visited, seg);
        if seg.len() > 0 {
            let found = lookup(es, seg);
            lemma_lookup_well_formed(es, seg);
            if segs.len() == 1 {
                if !(found matches Some(ValueView::Nested(_))) {
                    lemma_assign_well_formed(es, seg, ValueView::Text(value));
                }
            } else if !(found matches Some(ValueView::Text(_))) {
                let rest = segs.drop_first();
                assert forall|i: int| 0 <= i < rest.len() implies !(#[trigger] rest[i]).contains('.') by {
                    assert(rest[i] == segs[i + 1]);
                }
                lemma_put_well_formed(child_start(found), rest, here, value);
                let (sub, r) = put(child_start(found), rest, here, value);
                lemma_assign_well_formed(es, seg, ValueView::Nested(sub));
            }
        }
    }
}

/// Storing under a dotted key keeps a table well formed, whether the
/// insertion succeeds or not.
pub proof fn lemma_insert_keeps_well_formed(
    es: Seq<(Seq<char>, ValueView)>,
    key: Seq<char>,
    value: Seq<char>,
)
    requires
        well_formed(es),
    ensures
        well_formed(insert_result(es, key, value).0),
{
    crate::text::lemma_split_pieces_lack_separator(key, '.');
    lemma_put_well_formed(es, split_on(key, '.'), Seq::empty(), value);
}

/// Walking one key further looks the key up in the table reached so far.
pub proof fn lemma_walk_push(v: ValueView, path: Seq<Seq<char>>, k: Seq<char>)
    ensures
        walk(v, path.push(k)) == match walk(v, path) {
            Some(ValueView::Nested(es)) => lookup(es, k),
            _ => None,
        },
    decreases path.len(),
{
    let longer = path.push(k);
    if path.len() == 0 {
        assert(longer.drop_first().len() == 0);
        if let ValueView::Nested(es) = v {
            if let Some(c) = lookup(es, k) {
                assert(walk(c, longer.drop_first()) == Some(c));
            }
        }
    } else {
        assert(longer.drop_first() =~= path.drop_first().push(k));
        if let ValueView::Nested(es) = v {
            if let Some(c) = lookup(es, path[0]) {
                lemma_walk_push(c, path.drop_first(), k);
            }
        }
    }
}

/// A dotted key is read one part at a time: a key of one part is looked
/// up in the top-level table, and `prefix.part` is `part` looked up in the
/// table that `prefix` reads (nothing when `prefix` reads none).
pub proof fn lemma_resolve_dotted(es: Seq<(Seq<char>, ValueView)>, prefix: Seq<char>, part: Seq<char>)
    requires
        !part.contains('.'),
    ensures
        resolve(es, part) == lookup(es, part),
        resolve(es, prefix + seq!['.'] + part) == match resolve(es, prefix) {
            Some(ValueView::Nested(sub)) => lookup(sub, part),
            _ => None,
        },
{
    let one = seq![part];
    assert(join_parts(one, '.') == part);
    lemma_split_join(one, '.');
    let none: Seq<Seq<char>> = Seq::empty();
    assert(one =~= none.push(part));
    lemma_walk_push(ValueView::Nested(es), none, part);
    let ps = split_on(prefix, '.');
    lemma_join_split(prefix, '.');
    crate::text::lemma_split_pieces_lack_separator(prefix, '.');
    let longer = ps.push(part);
    lemma_join_push(ps, part, '.');
    assert forall|i: int| 0 <= i < longer.len() implies !(#[trigger] longer[i]).contains('.') by {
        if i < ps.len() {
            assert(longer[i] == ps[i]);
        }
    }
    lemma_split_join(longer, '.');
    lemma_walk_push(ValueView::Nested(es), ps, part);
}

/// In a well-formed table, each entry is what its key looks up.
pub proof fn lemma_lookup_entry(es: Seq<(Seq<char>, ValueView)>, i: int)
    requires
        well_formed(es),
        0 <= i < es.len(),
    ensures
        lookup(es, es[i].0) == Some(es[i].1),
{
    lemma_well_formed_shape(es);
    let ks = crate::value::keys_of(es);
    assert forall|j: int| 0 <= j < i implies ks[j] != es[i].0 by {
        assert(ks[j] == es[j].0);
    }
    crate::text::lemma_position_at(ks, es[i].0, i);
}

proof fn lemma_flat_sound(
    root: Seq<(Seq<char>, ValueView)>,
    pp: Seq<Seq<char>>,
    es: Seq<(Seq<char>, ValueView)>,
    n: int,
)
    requires
        walk(ValueView::Nested(root), pp) == Some(ValueView::Nested(es)),
        well_formed(es),
        0 <= n <= es.len(),
        forall|i: int| 0 <= i < pp.len() ==> key_part(#[trigger] pp[i]),
    ensures
        forall|j: int|
            0 <= j < flat_entries(es.take(n), join_parts(pp, '.')).len() ==> resolve(
                root,
                (#[trigger] flat_entries(es.take(n), join_parts(pp, '.'))[j]).0,
            ) == Some(ValueView::Text(flat_entries(es.take(n), join_parts(pp, '.'))[j].1)),
    decreases es, n,
{
    if n > 0 {
        let prefix = join_parts(pp, '.');
        let front = es.take(n);
        assert(front.drop_last() =~= es.take(n - 1));
        assert(front.last() == es[n - 1]);
        lemma_flat_sound(root, pp, es, n - 1);
        let e = es[n - 1];
        let k = e.0;
        let path = pp.push(k);
        lemma_well_formed_shape(es);
        assert(key_part(es[n - 1].0));
        assert forall|i: int| 0 <= i < path.len() implies key_part(#[trigger] path[i]) by {
            if i < pp.len() {
                assert(path[i] == pp[i]);
            }
        }
        let full = joined(prefix, k);
        if pp.len() == 0 {
            assert(join_parts(path, '.') == k);
        } else {
            lemma_join_push(pp, k, '.');
        }
        assert(full == join_parts(path, '.'));
        assert forall|i: int| 0 <= i < path.len() implies !(#[trigger] path[i]).contains('.') by {
            assert(key_part(path[i]));
        }
        lemma_split_join(path, '.');
        lemma_walk_push(ValueView::Nested(root), pp, k);
        lemma_lookup_entry(es, n - 1);
        assert(walk(ValueView::Nested(root), path) == Some(e.1));
        assert(resolve(root, full) == Some(e.1));
        let earlier = flat_entries(es.take(n - 1), prefix);
        let here = flat_value(e.1, full);
        assert(flat_entries(front, prefix) == earlier + here);
        match e.1 {
            ValueView::Text(v) => {},
            ValueView::Nested(sub) => {
                assert(value_ok(es[n - 1].1));
                crate::value::lemma_child_decreases(es, n - 1, sub);
                lemma_flat_sound(root, path, sub, sub.len() as int);
                assert(sub.take(sub.len() as int) =~= sub);
            },
        }
        assert forall|j: int| 0 <= j < flat_entries(front, prefix).len() implies resolve(
            root,
            (#[trigger] flat_entries(front, prefix)[j]).0,
        ) == Some(ValueView::Text(flat_entries(front, prefix)[j].1)) by {
            if j < earlier.len() {
                assert(flat_entries(front, prefix)[j] == earlier[j]);
            } else {
                assert(flat_entries(front, prefix)[j] == here[j - earlier.len()]);
            }
        }
    }
}

/// Every (key, value) pair that `flatten` lists for a well-formed table is
/// what the key reads: the flattened list is made of real leaves.
pub proof fn lemma_flatten_reads_back(es: Seq<(Seq<char>, ValueView)>)
    requires
        well_formed(es),
    ensures
        forall|j: int|
            0 <= j < flat_entries(es, Seq::empty()).len() ==> resolve(
                es,
                (#[trigger] flat_entries(es, Seq::empty())[j]).0,
            ) == Some(ValueView::Text(flat_entries(es, Seq::empty())[j].1)),
{
    let none: Seq<Seq<char>> = Seq::empty();
    assert(walk(ValueView::Nested(es), none) == Some(ValueView::Nested(es)));
    lemma_flat_sound(es, none, es, es.len() as int);
    assert(es.take(es.len() as int) =~= es);
    assert(join_parts(none, '.') =~= Seq::<char>::empty());
}

/// Whether storing under the key parts `segs` can succeed: no part is
/// empty, no proper prefix of the path holds a string, and the whole path
/// does not hold a table.
pub open spec fn insertable(es: Seq<(Seq<char>, ValueView)>, segs: Seq<Seq<char>>) -> bool {
    &&& forall|i: int| 0 <= i < segs.len() ==> (#[trigger] segs[i]).len() > 0
    &&& forall|j: int|
        1 <= j < segs.len() ==> !(walk(ValueView::Nested(es), #[trigger] segs.take(j)) matches Some(
            ValueView::Text(_),
        ))
    &&& !(walk(ValueView::Nested(es), segs) matches Some(ValueView::Nested(_)))
}

proof fn lemma_put_ok_iff(
    es: Seq<(Seq<char>, ValueView)>,
    segs: Seq<Seq<char>>,
    visited: Seq<char>,
    value: Seq<char>,
)
    requires
        segs.len() >= 1,
    ensures
        put(es, segs, visited, value).1 is Ok <==> insertable(es, segs),
    decreases segs.len(),
{
    let seg = segs[0];
    let rest = segs.drop_first();
    let here = joined(visited, seg);
    let found = lookup(es, seg);
    assert(walk(ValueView::Nested(es), segs) == match found {
        Some(c) => walk(c, rest),
        None => None,
    });
    if seg.len() == 0 {
        assert(!insertable(es, segs));
    } else if segs.len() == 1 {
        assert(rest.len() == 0);
        if let Some(c) = found {
            assert(walk(c, rest) == Some(c));
        }
        if !(found matches Some(ValueView::Nested(_))) {
            assert forall|i: int| 0 <= i < segs.len() implies (#[trigger] segs[i]).len() > 0 by {}
        }
    } else {
        let one = segs.take(1);
        assert(one.drop_first().len() == 0);
        assert(one[0] == seg);
        assert(walk(ValueView::Nested(es), one) == match found {
            Some(c) => walk(c, one.drop_first()),
            None => None,
        });
        if found matches Some(ValueView::Text(_)) {
            assert(!insertable(es, segs));
        } else {
            let child = child_start(found);
            lemma_put_ok_iff(child, rest, here, value);
            let empty_walks = found is None;
            assert forall|j: int| 1 <= j < segs.len() implies walk(
                ValueView::Nested(es),
                #[trigger] segs.take(j),
            ) == (if j == 1 {
                match found {
                    Some(c) => Some(c),
                    None => None,
                }
            } else {
                walk(ValueView::Nested(child), rest.take(j - 1))
            }) by {
                let p = segs.take(j);
                assert(p[0] == seg);
                assert(p.drop_first() =~= rest.take(j - 1));
                assert(walk(ValueView::Nested(es), p) == match found {
                    Some(c) => walk(c, p.drop_first()),
                    None => None,
                });
                if j > 1 && found is None {
                    let q = rest.take(j - 1);
                    assert(walk(ValueView::Nested(child), q) == match lookup(child, q[0]) {
                        Some(c) => walk(c, q.drop_first()),
                        None => None,
                    });
                    assert(child.len() == 0);
                    crate::text::lemma_position(crate::value::keys_of(child), q[0]);
                }
                if j == 1 {
                    if let Some(c) = found {
                        assert(walk(c, p.drop_first()) == Some(c));
                    }
                }
            }
            if found is None {
                assert(walk(ValueView::Nested(child), rest) == match lookup(child, rest[0]) {
                    Some(c) => walk(c, rest.drop_first()),
                    None => None,
                });
                crate::text::lemma_position(crate::value::keys_of(child), rest[0]);
            }
            if insertable(es, segs) {
                assert forall|i: int| 0 <= i < rest.len() implies (#[trigger] rest[i]).len() > 0 by {
                    assert(rest[i] == segs[i + 1]);
                }
                assert forall|j: int| 1 <= j < rest.len() implies !(walk(
                    ValueView::Nested(child),
                    #[trigger] rest.take(j),
                ) matches Some(ValueView::Text(_))) by {
                    assert(segs.take(j + 1).len() == j + 1);
                }
            }
            if insertable(child, rest) {
                assert forall|i: int| 0 <= i < segs.len() implies (#[trigger] segs[i]).len() > 0 by {
                    if i > 0 {
                        assert(segs[i] == rest[i - 1]);
                    }
                }
                assert forall|j: int| 1 <= j < segs.len() implies !(walk(
                    ValueView::Nested(es),
                    #[trigger] segs.take(j),
                ) matches Some(ValueView::Text(_))) by {
                    if j > 1 {
                        assert(rest.take(j - 1).len() == j - 1);
                    }
                }
            }
        }
    }
}

/// Storing under a dotted key succeeds exactly when no part of the key is
/// empty, no shorter prefix of it holds a string, and the key itself does
/// not hold child keys.
pub proof fn lemma_insert_succeeds_iff(
    es: Seq<(Seq<char>, ValueView)>,
    key: Seq<char>,
    value: Seq<char>,
)
    ensures
        insert_result(es, key, value).1 is Ok <==> insertable(es, split_on(key, '.')),
{
    lemma_join_split(key, '.');
    lemma_put_ok_iff(es, split_on(key, '.'), Seq::empty(), value);
}

proof fn lemma_flat_entries_include(
    es: Seq<(Seq<char>, ValueView)>,
    prefix: Seq<char>,
    i: int,
    x: (Seq<char>, Seq<char>),
)
    requires
        0 <= i < es.len(),
        flat_value(es[i].1, joined(prefix, es[i].0)).contains(x),
    ensures
        flat_entries(es, prefix).contains(x),
    decreases es.len(),
{
    let rest = es.drop_last();
    let earlier = flat_entries(rest, prefix);
    let last = flat_value(es.last().1, joined(prefix, es.last().0));
    assert(flat_entries(es, prefix) == earlier + last);
    if i == es.len() - 1 {
        let k = choose|k: int| 0 <= k < last.len() && last[k] == x;
        assert((earlier + last)[earlier.len() + k] == x);
    } else {
        assert(es[i] == rest[i]);
        lemma_flat_entries_include(rest, prefix, i, x);
        let k = choose|k: int| 0 <= k < earlier.len() && earlier[k] == x;
        assert((earlier + last)[k] == x);
    }
}

proof fn lemma_flat_complete(
    es: Seq<(Seq<char>, ValueView)>,
    pp: Seq<Seq<char>>,
    path: Seq<Seq<char>>,
    v: Seq<char>,
)
    requires
        well_formed(es),
        path.len() >= 1,
        walk(ValueView::Nested(es), path) == Some(ValueView::Text(v)),
        pp.len() >= 1 ==> join_parts(pp, '.').len() > 0,
    ensures
        flat_entries(es, join_parts(pp, '.')).contains((join_parts(pp + path, '.'), v)),
    decreases path.len(),
{
    let k = path[0];
    let ks = crate::value::keys_of(es);
    crate::text::lemma_position(ks, k);
    let i = crate::text::position(ks, k);
    assert(0 <= i < es.len());
    assert(es[i].0 == ks[i]);
    let c = es[i].1;
    lemma_well_formed_shape(es);
    assert(key_part(es[i].0));
    let prefix = join_parts(pp, '.');
    let longer = pp.push(k);
    if pp.len() == 0 {
        assert(join_parts(longer, '.') == k);
    } else {
        lemma_join_push(pp, k, '.');
    }
    assert(joined(prefix, k) == join_parts(longer, '.'));
    assert(longer + path.drop_first() =~= pp + path);
    assert(walk(ValueView::Nested(es), path) == walk(c, path.drop_first()));
    if path.len() == 1 {
        assert(path.drop_first().len() == 0);
        assert(c == ValueView::Text(v));
        assert(longer =~= pp + path);
        assert(flat_value(c, joined(prefix, k)) == seq![(join_parts(pp + path, '.'), v)]);
        assert(flat_value(c, joined(prefix, k))[0] == (join_parts(pp + path, '.'), v));
    } else {
        assert(path.drop_first().len() > 0);
        if let ValueView::Nested(sub) = c {
            assert(value_ok(es[i].1));
            lemma_flat_complete(sub, longer, path.drop_first(), v);
            assert(flat_value(c, joined(prefix, k)) == flat_entries(sub, join_parts(longer, '.')));
        } else {
            assert(walk(c, path.drop_first()) is None);
        }
    }
    lemma_flat_entries_include(es, prefix, i, (join_parts(pp + path, '.'), v));
}

/// Every key that reads as a string in a well-formed table is listed by
/// `flatten`, paired with that string.
pub proof fn lemma_flatten_lists_every_leaf(
    es: Seq<(Seq<char>, ValueView)>,
    key: Seq<char>,
    v: Seq<char>,
)
    requires
        well_formed(es),
        resolve(es, key) == Some(ValueView::Text(v)),
    ensures
        flat_entries(es, Seq::empty()).contains((key, v)),
{
    let none: Seq<Seq<char>> = Seq::empty();
    let path = split_on(key, '.');
    lemma_join_split(key, '.');
    lemma_flat_complete(es, none, path, v);
    assert(none + path =~= path);
    assert(join_parts(none, '.') =~= Seq::<char>::empty());
}

/// The string that `path` reads in `v`, if it reads one.
pub open spec fn text_at(v: ValueView, path: Seq<Seq<char>>) -> Option<Seq<char>> {
    match walk(v, path) {
        Some(ValueView::Text(t)) => Some(t),
        _ => None,
    }
}

proof fn lemma_flat_concat(
    a: Seq<(Seq<char>, ValueView)>,
    b: Seq<(Seq<char>, ValueView)>,
    p: Seq<char>,
)
    ensures
        flat_entries(a + b, p) == flat_entries(a, p) + flat_entries(b, p),
    decreases b.len(),
{
    if b.len() == 0 {
        assert(a + b =~= a);
        assert(flat_entries(a, p) + flat_entries(b, p) =~= flat_entries(a, p));
    } else {
        lemma_flat_concat(a, b.drop_last(), p);
        assert((a + b).drop_last() =~= a + b.drop_last());
        assert((a + b).last() == b.last());
        let last = flat_value(b.last().1, joined(p, b.last().0));
        assert(flat_entries(a + b, p) == flat_entries(a + b.drop_last(), p) + last);
        assert(flat_entries(b, p) == flat_entries(b.drop_last(), p) + last);
        assert(flat_entries(a, p) + flat_entries(b, p) =~= flat_entries(a, p) + flat_entries(
            b.drop_last(),
            p,
        ) + last);
    }
}

/// The leaves of a table are those of the entries before `i`, of entry
/// `i`, and of the entries after it.
proof fn lemma_flat_around(es: Seq<(Seq<char>, ValueView)>, i: int, p: Seq<char>)
    requires
        0 <= i < es.len(),
    ensures
        flat_entries(es, p) == flat_entries(es.take(i), p) + flat_value(
            es[i].1,
            joined(p, es[i].0),
        ) + flat_entries(es.skip(i + 1), p),
{
    let one = seq![es[i]];
    assert(es =~= es.take(i) + one + es.skip(i + 1));
    lemma_flat_concat(es.take(i) + one, es.skip(i + 1), p);
    lemma_flat_concat(es.take(i), one, p);
    assert(one.drop_last() =~= Seq::<(Seq<char>, ValueView)>::empty());
    assert(one.last() == es[i]);
    lemma_flat_empty(p);
    assert(flat_entries(one, p) == flat_entries(one.drop_last(), p) + flat_value(
        es[i].1,
        joined(p, es[i].0),
    ));
    assert(flat_entries(one, p) =~= flat_value(es[i].1, joined(p, es[i].0)));
}

/// Replacing the value of entry `i` changes the leaves of that entry only.
proof fn lemma_flat_replace(
    es: Seq<(Seq<char>, ValueView)>,
    i: int,
    v: ValueView,
    p: Seq<char>,
)
    requires
        0 <= i < es.len(),
    ensures
        flat_entries(es.update(i, (es[i].0, v)), p) == flat_entries(es.take(i), p) + flat_value(
            v,
            joined(p, es[i].0),
        ) + flat_entries(es.skip(i + 1), p),
        flat_entries(es, p) == flat_entries(es.take(i), p) + flat_value(
            es[i].1,
            joined(p, es[i].0),
        ) + flat_entries(es.skip(i + 1), p),
{
    let es2 = es.update(i, (es[i].0, v));
    lemma_flat_around(es, i, p);
    lemma_flat_around(es2, i, p);
    assert(es2.take(i) =~= es.take(i));
    assert(es2.skip(i + 1) =~= es.skip(i + 1));
}

proof fn lemma_flat_push(es: Seq<(Seq<char>, ValueView)>, e: (Seq<char>, ValueView), p: Seq<char>)
    ensures
        flat_entries(es.push(e), p) == flat_entries(es, p) + flat_value(e.1, joined(p, e.0)),
{
    assert(es.push(e).drop_last() =~= es);
}

proof fn lemma_flat_empty(p: Seq<char>)
    ensures
        flat_entries(Seq::empty(), p) == Seq::<(Seq<char>, Seq<char>)>::empty(),
{
}

proof fn lemma_failed_put_keeps_leaves(
    es: Seq<(Seq<char>, ValueView)>,
    segs: Seq<Seq<char>>,
    visited: Seq<char>,
    value: Seq<char>,
    p: Seq<char>,
)
    requires
        put(es, segs, visited, value).1 is Err,
    ensures
        flat_entries(put(es, segs, visited, value).0, p) == flat_entries(es, p),
    decreases segs.len(),
{
    let seg = segs[0];
    let here = joined(visited, seg);
    let found = lookup(es, seg);
    if seg.len() > 0 && segs.len() > 1 && !(found matches Some(ValueView::Text(_))) {
        let rest = segs.drop_first();
        let child = child_start(found);
        let (sub, r) = put(child, rest, here, value);
        let q = joined(p, seg);
        lemma_failed_put_keeps_leaves(child, rest, here, value, q);
        let ks = crate::value::keys_of(es);
        crate::text::lemma_position(ks, seg);
        let i = crate::text::position(ks, seg);
        if 0 <= i < es.len() {
            assert(es[i].0 == ks[i]);
            lemma_flat_replace(es, i, ValueView::Nested(sub), p);
            assert(assign(es, seg, ValueView::Nested(sub)) == es.update(i, (es[i].0, ValueView::Nested(sub))));
        } else {
            lemma_flat_push(es, (seg, ValueView::Nested(sub)), p);
            lemma_flat_empty(q);
            assert(flat_entries(es, p) + flat_entries(sub, q) =~= flat_entries(es, p));
        }
    }
}

/// A failed insertion leaves every leaf as it was: the flattened
/// configuration is the same, though empty tables made on the way remain.
pub proof fn lemma_failed_insert_keeps_leaves(
    es: Seq<(Seq<char>, ValueView)>,
    key: Seq<char>,
    value: Seq<char>,
)
    requires
        insert_result(es, key, value).1 is Err,
    ensures
        flat_entries(insert_result(es, key, value).0, Seq::empty()) == flat_entries(es, Seq::empty()),
{
    lemma_failed_put_keeps_leaves(es, split_on(key, '.'), Seq::empty(), value, Seq::empty());
}

proof fn lemma_put_keeps_other_texts(
    es: Seq<(Seq<char>, ValueView)>,
    segs: Seq<Seq<char>>,
    visited: Seq<char>,
    value: Seq<char>,
    q: Seq<Seq<char>>,
)
    requires
        segs.len() >= 1,
        put(es, segs, visited, value).1 is Ok,
        q != segs,
    ensures
        text_at(ValueView::Nested(put(es, segs, visited, value).0), q) == text_at(
            ValueView::Nested(es),
            q,
        ),
    decreases segs.len(),
{
    let after = put(es, segs, visited, value).0;
    if let Some(t) = text_at(ValueView::Nested(es), q) {
        lemma_put_keeps_other_leaves(es, segs, visited, value, q, t);
    }
    if q.len() > 0 {
        let seg = segs[0];
        let here = joined(visited, seg);
        let found = lookup(es, seg);
        assert(walk(ValueView::Nested(es), q) == match lookup(es, q[0]) {
            Some(c) => walk(c, q.drop_first()),
            None => None,
        });
        assert(walk(ValueView::Nested(after), q) == match lookup(after, q[0]) {
            Some(c) => walk(c, q.drop_first()),
            None => None,
        });
        if segs.len() == 1 {
            lemma_lookup_after_assign(es, seg, ValueView::Text(value), q[0]);
            if q[0] == seg {
                if q.drop_first().len() > 0 {
                    assert(walk(ValueView::Text(value), q.drop_first()) is None);
                } else {
                    assert(q =~= segs);
                }
            }
        } else {
            let rest = segs.drop_first();
            let child = child_start(found);
            let (sub, r) = put(child, rest, here, value);
            lemma_lookup_after_assign(es, seg, ValueView::Nested(sub), q[0]);
            if q[0] == seg {
                let qd = q.drop_first();
                if qd.len() == 0 {
                    assert(walk(ValueView::Nested(sub), qd) == Some(ValueView::Nested(sub)));
                } else {
                    if qd == rest {
                        assert forall|k: int| 0 <= k < q.len() implies q[k] == segs[k] by {
                            if k > 0 {
                                assert(q[k] == qd[k - 1]);
                                assert(segs[k] == rest[k - 1]);
                            }
                        }
                        assert(q =~= segs);
                    }
                    lemma_put_keeps_other_texts(child, rest, here, value, qd);
                    if found is None {
                        assert(walk(ValueView::Nested(child), qd) == match lookup(child, qd[0]) {
                            Some(c) => walk(c, qd.drop_first()),
                            None => None,
                        });
                        crate::text::lemma_position(crate::value::keys_of(child), qd[0]);
                    }
                }
            }
        }
    } else {
        assert(walk(ValueView::Nested(after), q) == Some(ValueView::Nested(after)));
    }
}

/// A successful insertion changes the string that no other key reads: every
/// other key reads the same string, or reads none, as before.
pub proof fn lemma_insert_changes_only_its_key(
    es: Seq<(Seq<char>, ValueView)>,
    key: Seq<char>,
    value: Seq<char>,
    other: Seq<char>,
)
    requires
        insert_result(es, key, value).1 is Ok,
        other != key,
    ensures
        text_at(ValueView::Nested(insert_result(es, key, value).0), split_on(other, '.'))
            == text_at(ValueView::Nested(es), split_on(other, '.')),
{
    lemma_join_split(key, '.');
    if split_on(other, '.') == split_on(key, '.') {
        lemma_split_injective(other, key, '.');
    }
    lemma_put_keeps_other_texts(es, split_on(key, '.'), Seq::empty(), value, split_on(other, '.'));
}

proof fn lemma_put_flat_len(
    es: Seq<(Seq<char>, ValueView)>,
    segs: Seq<Seq<char>>,
    visited: Seq<char>,
    value: Seq<char>,
    p: Seq<char>,
)
    requires
        segs.len() >= 1,
        put(es, segs, visited, value).1 is Ok,
    ensures
        flat_entries(put(es, segs, visited, value).0, p).len() == flat_entries(es, p).len() + (
        if text_at(ValueView::Nested(es), segs) is Some {
            0int
        } else {
            1int
        }),
    decreases segs.len(),
{
    let seg = segs[0];
    let rest = segs.drop_first();
    let here = joined(visited, seg);
    let found = lookup(es, seg);
    let q = joined(p, seg);
    let ks = crate::value::keys_of(es);
    crate::text::lemma_position(ks, seg);
    let i = crate::text::position(ks, seg);
    if 0 <= i < es.len() {
        assert(es[i].0 == ks[i]);
    }
    assert(walk(ValueView::Nested(es), segs) == match found {
        Some(c) => walk(c, rest),
        None => None,
    });
    if segs.len() == 1 {
        assert(rest.len() == 0);
        let v = ValueView::Text(value);
        if 0 <= i < es.len() {
            assert(walk(es[i].1, rest) == Some(es[i].1));
            lemma_flat_replace(es, i, v, p);
            assert(assign(es, seg, v) == es.update(i, (es[i].0, v)));
        } else {
            lemma_flat_push(es, (seg, v), p);
        }
    } else {
        let child = child_start(found);
        let (sub, r) = put(child, rest, here, value);
        lemma_put_flat_len(child, rest, here, value, q);
        let v = ValueView::Nested(sub);
        if 0 <= i < es.len() {
            lemma_flat_replace(es, i, v, p);
            assert(assign(es, seg, v) == es.update(i, (es[i].0, v)));
        } else {
            lemma_flat_push(es, (seg, v), p);
            lemma_flat_empty(q);
            assert(walk(ValueView::Nested(child), rest) == match lookup(child, rest[0]) {
                Some(c) => walk(c, rest.drop_first()),
                None => None,
            });
            crate::text::lemma_position(crate::value::keys_of(child), rest[0]);
        }
    }
}

/// A successful insertion adds one leaf when the key read no string
/// before, and none when it replaces one.
pub proof fn lemma_insert_adds_at_most_one_leaf(
    es: Seq<(Seq<char>, ValueView)>,
    key: Seq<char>,
    value: Seq<char>,
)
    requires
        insert_result(es, key, value).1 is Ok,
    ensures
        flat_entries(insert_result(es, key, value).0, Seq::empty()).len() == flat_entries(
            es,
            Seq::empty(),
        ).len() + (if text_at(ValueView::Nested(es), split_on(key, '.')) is Some {
            0int
        } else {
            1int
        }),
{
    lemma_join_split(key, '.');
    lemma_put_flat_len(es, split_on(key, '.'), Seq::empty(), value, Seq::empty());
}

proof fn lemma_walk_empty_part(es: Seq<(Seq<char>, ValueView)>, path: Seq<Seq<char>>, j: int)
    requires
        well_formed(es),
        0 <= j < path.len(),
        path[j].len() == 0,
    ensures
        walk(ValueView::Nested(es), path) is None,
    decreases j,
{
    assert(walk(ValueView::Nested(es), path) == match lookup(es, path[0]) {
        Some(c) => walk(c, path.drop_first()),
        None => None,
    });
    lemma_lookup_well_formed(es, path[0]);
    lemma_well_formed_shape(es);
    let ks = crate::value::keys_of(es);
    crate::text::lemma_position(ks, path[0]);
    let i = crate::text::position(ks, path[0]);
    if 0 <= i < es.len() {
        assert(es[i].0 == ks[i]);
        assert(key_part(es[i].0));
    }
    if j > 0 {
        let rest = path.drop_first();
        assert(rest[j - 1] == path[j]);
        match lookup(es, path[0]) {
            Some(ValueView::Nested(sub)) => {
                lemma_walk_empty_part(sub, rest, j - 1);
            },
            Some(ValueView::Text(_)) => {
                assert(rest.len() > 0);
            },
            None => {},
        }
    }
}

/// In a well-formed table, a dotted key with an empty part reads nothing.
pub proof fn lemma_empty_part_reads_nothing(es: Seq<(Seq<char>, ValueView)>, key: Seq<char>, j: int)
    requires
        well_formed(es),
        0 <= j < split_on(key, '.').len(),
        split_on(key, '.')[j].len() == 0,
    ensures
        resolve(es, key) is None,
{
    lemma_walk_empty_part(es, split_on(key, '.'), j);
}

/// A flattened key lies under the key parts `pp`, and its next part is one
/// of `keys`.
pub open spec fn flat_key_under(k: Seq<char>, pp: Seq<Seq<char>>, keys: Seq<Seq<char>>) -> bool {
    let s = split_on(k, '.');
    &&& s.len() > pp.len()
    &&& s.take(pp.len() as int) == pp
    &&& keys.contains(s[pp.len() as int])
}

#[verifier::spinoff_prover]
proof fn lemma_flat_keys(pp: Seq<Seq<char>>, es: Seq<(Seq<char>, ValueView)>, n: int)
    requires
        well_formed(es),
        0 <= n <= es.len(),
        forall|i: int| 0 <= i < pp.len() ==> key_part(#[trigger] pp[i]),
    ensures
        forall|j: int|
            0 <= j < flat_entries(es.take(n), join_parts(pp, '.')).len() ==> flat_key_under(
                (#[trigger] flat_entries(es.take(n), join_parts(pp, '.'))[j]).0,
                pp,
                crate::value::keys_of(es.take(n)),
            ),
        forall|a: int, b: int|
            0 <= a < b < flat_entries(es.take(n), join_parts(pp, '.')).len() ==> (
            #[trigger] flat_entries(es.take(n), join_parts(pp, '.'))[a]).0 != (
            #[trigger] flat_entries(es.take(n), join_parts(pp, '.'))[b]).0,
    decreases es, n,
{
    if n > 0 {
        let prefix = join_parts(pp, '.');
        let front = es.take(n);
        let before = es.take(n - 1);
        assert(front.drop_last() =~= before);
        assert(front.last() == es[n - 1]);
        lemma_flat_keys(pp, es, n - 1);
        lemma_well_formed_shape(es);
        let e = es[n - 1];
        let k = e.0;
        assert(key_part(k));
        let path = pp.push(k);
        assert forall|i: int| 0 <= i < path.len() implies key_part(#[trigger] path[i]) by {
            if i < pp.len() {
                assert(path[i] == pp[i]);
            }
        }
        assert forall|i: int| 0 <= i < path.len() implies !(#[trigger] path[i]).contains('.') by {
            assert(key_part(path[i]));
        }
        if pp.len() == 0 {
            assert(join_parts(path, '.') == k);
        } else {
            lemma_join_push(pp, k, '.');
        }
        let full = joined(prefix, k);
        assert(full == join_parts(path, '.'));
        lemma_split_join(path, '.');
        assert(path.take(pp.len() as int) =~= pp);
        let kf = crate::value::keys_of(front);
        let kb = crate::value::keys_of(before);
        assert(kf[n - 1] == k);
        assert forall|m: int| 0 <= m < kb.len() implies kf[m] == kb[m] && kb[m] != k by {
            assert(kb[m] == es[m].0);
            assert(es[m].0 != es[n - 1].0);
        }
        let earlier = flat_entries(before, prefix);
        let here = flat_value(e.1, full);
        let all = flat_entries(front, prefix);
        assert(all == earlier + here);
        // Every leaf of the last entry lies under `path`.
        assert(forall|j: int|
            0 <= j < here.len() ==> split_on((#[trigger] here[j]).0, '.').len() > pp.len()
                && split_on(here[j].0, '.').take(pp.len() as int) == pp && split_on(
                here[j].0,
                '.',
            )[pp.len() as int] == k) by {
            match e.1 {
                ValueView::Text(v) => {
                    assert forall|j: int| 0 <= j < here.len() implies split_on(
                        (#[trigger] here[j]).0,
                        '.',
                    ).len() > pp.len() && split_on(here[j].0, '.').take(pp.len() as int) == pp
                        && split_on(here[j].0, '.')[pp.len() as int] == k by {
                        assert(here[j].0 == full);
                    }
                },
                ValueView::Nested(sub) => {
                    assert(value_ok(es[n - 1].1));
                    crate::value::lemma_child_decreases(es, n - 1, sub);
                    lemma_flat_keys(path, sub, sub.len() as int);
                    assert(sub.take(sub.len() as int) =~= sub);
                    assert(here == flat_entries(sub, join_parts(path, '.')));
                    assert forall|j: int| 0 <= j < here.len() implies split_on(
                        (#[trigger] here[j]).0,
                        '.',
                    ).len() > pp.len() && split_on(here[j].0, '.').take(pp.len() as int) == pp
                        && split_on(here[j].0, '.')[pp.len() as int] == k by {
                        let sj = split_on(here[j].0, '.');
                        assert(flat_key_under(here[j].0, path, crate::value::keys_of(sub)));
                        assert(sj.take(path.len() as int) == path);
                        assert(sj.take(pp.len() as int) =~= path.take(pp.len() as int));
                        assert(sj[pp.len() as int] == sj.take(path.len() as int)[pp.len() as int]);
                    }
                },
            }
        }
        // The leaves of the last entry have distinct keys.
        assert(forall|a: int, b: int|
            0 <= a < b < here.len() ==> (#[trigger] here[a]).0 != (#[trigger] here[b]).0) by {
            match e.1 {
                ValueView::Text(_) => {},
                ValueView::Nested(sub) => {
                    assert(value_ok(es[n - 1].1));
                    crate::value::lemma_child_decreases(es, n - 1, sub);
                    lemma_flat_keys(path, sub, sub.len() as int);
                    assert(sub.take(sub.len() as int) =~= sub);
                    assert(here == flat_entries(sub, join_parts(path, '.')));
                },
            }
        }
        assert forall|j: int| 0 <= j < all.len() implies flat_key_under(
            (#[trigger] all[j]).0,
            pp,
            kf,
        ) by {
            if j < earlier.len() {
                assert(all[j] == earlier[j]);
                let sj = split_on(earlier[j].0, '.');
                assert(flat_key_under(earlier[j].0, pp, kb));
                let m = choose|m: int| 0 <= m < kb.len() && kb[m] == sj[pp.len() as int];
                assert(kf[m] == kb[m]);
            } else {
                assert(all[j] == here[j - earlier.len()]);
                assert(split_on(here[j - earlier.len()].0, '.')[pp.len() as int] == k);
                assert(kf[n - 1] == k);
            }
        }
        assert forall|a: int, b: int| 0 <= a < b < all.len() implies (#[trigger] all[a]).0 != (
        #[trigger] all[b]).0 by {
            if b < earlier.len() {
                assert(all[a] == earlier[a] && all[b] == earlier[b]);
            } else if a >= earlier.len() {
                assert(all[a] == here[a - earlier.len()] && all[b] == here[b - earlier.len()]);
            } else {
                assert(all[a] == earlier[a]);
                assert(all[b] == here[b - earlier.len()]);
                let sa = split_on(earlier[a].0, '.');
                let sb = split_on(here[b - earlier.len()].0, '.');
                assert(flat_key_under(earlier[a].0, pp, kb));
                let m = choose|m: int| 0 <= m < kb.len() && kb[m] == sa[pp.len() as int];
                assert(sb[pp.len() as int] == k);
                assert(kb[m] != k);
            }
        }
    }
}

/// In a well-formed table, no key is flattened twice.
pub proof fn lemma_flatten_keys_distinct(es: Seq<(Seq<char>, ValueView)>)
    requires
        well_formed(es),
    ensures
        forall|a: int, b: int|
            0 <= a < b < flat_entries(es, Seq::empty()).len() ==> (#[trigger] flat_entries(
                es,
                Seq::empty(),
            )[a]).0 != (#[trigger] flat_entries(es, Seq::empty())[b]).0,
{
    let none: Seq<Seq<char>> = Seq::empty();
    lemma_flat_keys(none, es, es.len() as int);
    assert(es.take(es.len() as int) =~= es);
    assert(join_parts(none, '.') =~= Seq::<char>::empty());
}

} // verus!
