//! Stored values: a leaf string or a nested table of keys in insertion order.
use vstd::prelude::*;
use vstd::string::*;

use crate::text::{lemma_position, lemma_position_absent, lemma_position_at, position};

verus! {

/// The mathematical model of a [`Value`]: a leaf text, or the ordered
/// entries of a nested table.
pub enum ValueView {
    Text(Seq<char>),
    Nested(Seq<(Seq<char>, ValueView)>),
}

/// The keys of a table model, in order.
pub open spec fn keys_of(es: Seq<(Seq<char>, ValueView)>) -> Seq<Seq<char>> {
    es.map_values(|e: (Seq<char>, ValueView)| e.0)
}

/// The value stored under `key`: that of the first entry with this key.
pub open spec fn lookup(es: Seq<(Seq<char>, ValueView)>, key: Seq<char>) -> Option<ValueView> {
    let i = position(keys_of(es), key);
    if 0 <= i < es.len() {
        Some(es[i].1)
    } else {
        None
    }
}

/// The table after setting `key` to `v`: an existing entry keeps its
/// position and takes the new value, a new key is appended at the end.
pub open spec fn assign(
    es: Seq<(Seq<char>, ValueView)>,
    key: Seq<char>,
    v: ValueView,
) -> Seq<(Seq<char>, ValueView)> {
    let i = position(keys_of(es), key);
    if 0 <= i < es.len() {
        es.update(i, (key, v))
    } else {
        es.push((key, v))
    }
}

/// The entries a child table starts from when a lookup gave `found`.
pub open spec fn child_start(found: Option<ValueView>) -> Seq<(Seq<char>, ValueView)> {
    match found {
        Some(ValueView::Nested(sub)) => sub,
        _ => Seq::empty(),
    }
}

/// Reading a key right after setting it gives the value set, and every
/// other key reads as before.
pub proof fn lemma_lookup_after_assign(
    es: Seq<(Seq<char>, ValueView)>,
    key: Seq<char>,
    v: ValueView,
    other: Seq<char>,
)
    ensures
        lookup(assign(es, key, v), key) == Some(v),
        other != key ==> lookup(assign(es, key, v), other) == lookup(es, other),
{
    let ks = keys_of(es);
    let after = assign(es, key, v);
    let ks2 = keys_of(after);
    lemma_position(ks, key);
    lemma_position(ks, other);
    let i = position(ks, key);
    if 0 <= i < es.len() {
        assert(ks2 =~= ks);
    } else {
        assert(ks2 =~= ks.push(key));
    }
    lemma_position(ks2, key);
    lemma_position(ks2, other);
    let i2 = position(ks2, key);
    if !(0 <= i < es.len()) {
        assert(ks2[ks.len() as int] == key);
        if 0 <= i2 < ks.len() {
            assert(ks[i2] == key);
        }
        assert(i2 == ks.len());
    }
    if other != key {
        let j = position(ks, other);
        let j2 = position(ks2, other);
        if 0 <= j {
            assert(ks2[j] == other);
        }
        if 0 <= j2 && j2 < ks.len() {
            assert(ks[j2] == other);
        }
    }
}

/// Setting a key that is present keeps the order of the keys; setting a
/// new key appends it at the end.
pub proof fn lemma_assign_keeps_order(
    es: Seq<(Seq<char>, ValueView)>,
    key: Seq<char>,
    v: ValueView,
)
    ensures
        lookup(es, key) is Some ==> keys_of(assign(es, key, v)) == keys_of(es),
        lookup(es, key) is None ==> keys_of(assign(es, key, v)) == keys_of(es).push(key),
{
    let ks = keys_of(es);
    lemma_position(ks, key);
    let i = position(ks, key);
    if 0 <= i < es.len() {
        assert(keys_of(assign(es, key, v)) =~= ks);
    } else {
        assert(keys_of(assign(es, key, v)) =~= ks.push(key));
    }
}

/// No key occurs twice in a table model.
pub open spec fn keys_distinct(es: Seq<(Seq<char>, ValueView)>) -> bool {
    forall|i: int, j: int| 0 <= i < j < es.len() ==> (#[trigger] es[i]).0 != (#[trigger] es[j]).0
}

/// Setting a key never makes a key occur twice.
pub proof fn lemma_assign_keeps_keys_distinct(
    es: Seq<(Seq<char>, ValueView)>,
    key: Seq<char>,
    v: ValueView,
)
    requires
        keys_distinct(es),
    ensures
        keys_distinct(assign(es, key, v)),
{
    let ks = keys_of(es);
    lemma_position(ks, key);
    let i = position(ks, key);
    let after = assign(es, key, v);
    if 0 <= i < es.len() {
        assert forall|a: int, b: int| 0 <= a < b < after.len() implies (#[trigger] after[a]).0 != (
        #[trigger] after[b]).0 by {
            assert(ks[i] == es[i].0);
            assert(after[a].0 == es[a].0 && after[b].0 == es[b].0);
        }
    } else {
        assert forall|a: int, b: int| 0 <= a < b < after.len() implies (#[trigger] after[a]).0 != (
        #[trigger] after[b]).0 by {
            assert(after[a] == es[a]);
            if b < es.len() {
                assert(after[b] == es[b]);
            } else {
                assert(ks[a] == es[a].0);
            }
        }
    }
}

/// A setting: a string, or a nested table (for keys written with `.`).
///
/// `sysctl.conf` has no types, so every leaf is kept as a string.
#[derive(Debug, PartialEq, Eq)]
pub enum Value {
    /// The value of a `token = value` line.
    String(String),
    /// A nested group of settings.
    Table(Table),
}

/// Keys and values, kept in the order in which they first appeared.
///
/// Assigning to an existing key replaces its value and keeps its position.
#[derive(Debug, PartialEq, Eq)]
pub struct Table {
    keys: Vec<String>,
    values: Vec<Value>,
}

pub open spec fn value_view(v: Value) -> ValueView
    decreases v,
{
    match v {
        Value::String(s) => ValueView::Text(s@),
        Value::Table(t) => ValueView::Nested(table_view(t)),
    }
}

pub closed spec fn table_view(t: Table) -> Seq<(Seq<char>, ValueView)>
    decreases t,
{
    entries_view(t.keys@, t.values@)
}

/// The entries made of the `i`-th key and the `i`-th value, one per value.
closed spec fn entries_view(ks: Seq<String>, vs: Seq<Value>) -> Seq<(Seq<char>, ValueView)>
    decreases vs,
{
    if vs.len() == 0 {
        Seq::empty()
    } else {
        entries_view(ks, vs.drop_last()).push((ks[vs.len() - 1]@, value_view(vs.last())))
    }
}

proof fn lemma_entries_view(ks: Seq<String>, vs: Seq<Value>)
    ensures
        entries_view(ks, vs).len() == vs.len(),
        forall|i: int|
            0 <= i < vs.len() ==> #[trigger] entries_view(ks, vs)[i] == (ks[i]@, value_view(vs[i])),
    decreases vs.len(),
{
    if vs.len() > 0 {
        lemma_entries_view(ks, vs.drop_last());
    }
}

broadcast proof fn lemma_table_view_len(t: Table)
    ensures
        #[trigger] table_view(t).len() == t.values@.len(),
{
    lemma_entries_view(t.keys@, t.values@);
}

broadcast proof fn lemma_table_view_index(t: Table, i: int)
    requires
        0 <= i < t.values@.len(),
    ensures
        #[trigger] table_view(t)[i] == (t.keys@[i]@, value_view(t.values@[i])),
{
    lemma_entries_view(t.keys@, t.values@);
}

broadcast group group_table_view {
    lemma_table_view_len,
    lemma_table_view_index,
}

/// A nested table's entries are smaller than the entries that hold it.
pub proof fn lemma_child_decreases(
    es: Seq<(Seq<char>, ValueView)>,
    i: int,
    sub: Seq<(Seq<char>, ValueView)>,
)
    requires
        0 <= i < es.len(),
        es[i].1 == ValueView::Nested(sub),
    ensures
        decreases_to!(es => sub),
{
    let c = es[i].1;
    assert(decreases_to!(es => es[i]));
    assert(decreases_to!(es[i] => c));
    assert(decreases_to!(c => c->Nested_0));
}

impl View for Value {
    type V = ValueView;

    open spec fn view(&self) -> ValueView {
        value_view(*self)
    }
}

impl View for Table {
    type V = Seq<(Seq<char>, ValueView)>;

    open spec fn view(&self) -> Seq<(Seq<char>, ValueView)> {
        table_view(*self)
    }
}

impl Clone for Value {
    fn clone(&self) -> (r: Self)
        ensures
            r@ == self@,
        decreases self,
    {
        match self {
            Value::String(s) => Value::String(s.clone()),
            Value::Table(t) => Value::Table(t.clone()),
        }
    }
}

impl Clone for Table {
    fn clone(&self) -> (r: Self)
        ensures
            r@ == self@,
        decreases self,
    {
        broadcast use group_table_view;

        proof {
            use_type_invariant(self);
        }
        let mut keys: Vec<String> = Vec::new();
        let mut values: Vec<Value> = Vec::new();
        let mut i: usize = 0;
        while i < self.values.len()
            invariant
                self.keys@.len() == self.values@.len(),
                i <= self.values@.len(),
                keys@.len() == i,
                values@.len() == i,
                forall|j: int| 0 <= j < i ==> (#[trigger] keys@[j])@ == self.keys@[j]@,
                forall|j: int| 0 <= j < i ==> (#[trigger] values@[j])@ == self.values@[j]@,
            decreases self.values@.len() - i,
        {
            keys.push(self.keys[i].clone());
            values.push(self.values[i].clone());
            i += 1;
        }
        let r = Table { keys, values };
        assert(r@ =~= self@);
        r
    }
}

impl Default for Table {
    fn default() -> (t: Self)
        ensures
            t@ == Seq::<(Seq<char>, ValueView)>::empty(),
    {
        Table::new()
    }
}

impl Value {
    /// The string, when this is a leaf.
    pub fn as_str(&self) -> (r: Option<&str>)
        ensures
            match self@ {
                ValueView::Text(s) => r matches Some(x) && x@ == s,
                ValueView::Nested(_) => r is None,
            },
    {
        match self {
            Value::String(s) => Some(s.as_str()),
            Value::Table(_) => None,
        }
    }

    /// The table, when this is a nested group.
    pub fn as_table(&self) -> (r: Option<&Table>)
        ensures
            match self@ {
                ValueView::Nested(es) => r matches Some(t) && t@ == es,
                ValueView::Text(_) => r is None,
            },
    {
        match self {
            Value::Table(t) => Some(t),
            Value::String(_) => None,
        }
    }

    /// Whether this is a nested group.
    pub fn is_table(&self) -> (r: bool)
        ensures
            r == self@ is Nested,
    {
        match self {
            Value::Table(_) => true,
            Value::String(_) => false,
        }
    }
}

impl Table {
    /// Each key has one value, and no key occurs twice: a table starts
    /// empty and changes only by [`assign`].
    #[verifier::type_invariant]
    spec fn keys_unique(self) -> bool {
        &&& self.keys@.len() == self.values@.len()
        &&& forall|i: int, j: int|
            0 <= i < j < self.keys@.len() ==> (#[trigger] self.keys@[i])@ != (
            #[trigger] self.keys@[j])@
    }

    /// An empty table.
    pub fn new() -> (t: Table)
        ensures
            t@ == Seq::<(Seq<char>, ValueView)>::empty(),
    {
        broadcast use group_table_view;

        let t = Table { keys: Vec::new(), values: Vec::new() };
        assert(t@ =~= Seq::<(Seq<char>, ValueView)>::empty());
        t
    }

    fn index_of(&self, key: &String) -> (r: Option<usize>)
        ensures
            match r {
                Some(i) => i < self.values@.len() && position(keys_of(self@), key@) == i,
                None => position(keys_of(self@), key@) == -1,
            },
    {
        broadcast use group_table_view;

        proof {
            use_type_invariant(self);
        }
        let ghost ks = keys_of(self@);
        assert(self@.len() == self.values@.len());
        let mut i: usize = 0;
        while i < self.keys.len()
            invariant
                self.keys@.len() == self.values@.len(),
                self@.len() == self.values@.len(),
                ks == keys_of(self@),
                i <= self.keys@.len(),
                forall|j: int| 0 <= j < i ==> (#[trigger] self.keys@[j])@ != key@,
            decreases self.keys@.len() - i,
        {
            if self.keys[i] == *key {
                proof {
                    lemma_entries_view(self.keys@, self.values@);
                    assert forall|j: int| 0 <= j < i implies ks[j] != key@ by {
                        assert(self@[j].0 == self.keys@[j]@);
                    }
                    assert(self@[i as int].0 == self.keys@[i as int]@);
                    lemma_position_at(ks, key@, i as int);
                }
                return Some(i);
            }
            i += 1;
        }
        proof {
            assert forall|j: int| 0 <= j < ks.len() implies ks[j] != key@ by {
                assert(self@[j].0 == self.keys@[j]@);
            }
            lemma_position_absent(ks, key@);
        }
        None
    }

    /// The value stored directly under `key`.
    pub fn get(&self, key: &str) -> (r: Option<&Value>)
        ensures
            match r {
                Some(v) => lookup(self@, key@) == Some(v@),
                None => lookup(self@, key@) is None,
            },
    {
        broadcast use group_table_view;

        let k = String::from_str(key);
        match self.index_of(&k) {
            Some(i) => Some(&self.values[i]),
            None => None,
        }
    }

    /// The entries as (key, value) pairs, in insertion order; no key occurs
    /// twice.
    pub fn iter(&self) -> (r: Vec<(&str, &Value)>)
        ensures
            r@.len() == self@.len(),
            forall|i: int|
                0 <= i < r@.len() ==> (#[trigger] r@[i]).0@ == self@[i].0 && r@[i].1@ == self@[i].1,
            keys_distinct(self@),
    {
        broadcast use group_table_view;

        proof {
            use_type_invariant(self);
            assert forall|i: int, j: int| 0 <= i < j < self@.len() implies (#[trigger] self@[i]).0
                != (#[trigger] self@[j]).0 by {
                assert(self@[i].0 == self.keys@[i]@ && self@[j].0 == self.keys@[j]@);
            }
        }
        let mut r: Vec<(&str, &Value)> = Vec::new();
        let mut i: usize = 0;
        while i < self.values.len()
            invariant
                self.keys@.len() == self.values@.len(),
                i <= self.values@.len(),
                r@.len() == i,
                forall|j: int|
                    0 <= j < i ==> (#[trigger] r@[j]).0@ == self.keys@[j]@ && r@[j].1
                        == self.values@[j],
            decreases self.values@.len() - i,
        {
            r.push((self.keys[i].as_str(), &self.values[i]));
            i += 1;
        }
        r
    }

    /// The keys, in insertion order; no key occurs twice.
    pub fn keys(&self) -> (r: Vec<&str>)
        ensures
            r@.len() == self@.len(),
            forall|i: int| 0 <= i < r@.len() ==> (#[trigger] r@[i])@ == self@[i].0,
            forall|i: int, j: int| 0 <= i < j < r@.len() ==> (#[trigger] r@[i])@ != (#[trigger] r@[j])@,
    {
        broadcast use group_table_view;

        proof {
            use_type_invariant(self);
        }
        let mut r: Vec<&str> = Vec::new();
        let mut i: usize = 0;
        while i < self.keys.len()
            invariant
                self.keys@.len() == self.values@.len(),
                i <= self.keys@.len(),
                r@.len() == i,
                forall|j: int| 0 <= j < i ==> (#[trigger] r@[j])@ == self.keys@[j]@,
            decreases self.keys@.len() - i,
        {
            r.push(self.keys[i].as_str());
            i += 1;
        }
        r
    }

    /// Sets `key` to `value`: an existing key keeps its position, a new key
    /// goes to the end.
    pub fn insert(&mut self, key: &str, value: Value)
        ensures
            final(self)@ == assign(old(self)@, key@, value@),
            keys_distinct(final(self)@),
    {
        broadcast use group_table_view;

        let k = String::from_str(key);
        proof {
            use_type_invariant(&*self);
            assert forall|i: int, j: int| 0 <= i < j < self@.len() implies (#[trigger] self@[i]).0
                != (#[trigger] self@[j]).0 by {
                assert(self@[i].0 == self.keys@[i]@ && self@[j].0 == self.keys@[j]@);
            }
            lemma_assign_keeps_keys_distinct(self@, key@, value@);
        }
        let found = self.index_of(&k);
        proof {
            lemma_position(keys_of(self@), key@);
            lemma_entries_view(self.keys@, self.values@);
        }
        let mut whole = Table::new();
        std::mem::swap(&mut whole, self);
        let Table { keys: mut keys, values: mut values } = whole;
        match found {
            Some(i) => {
                values.set(i, value);
            },
            None => {
                keys.push(k);
                values.push(value);
            },
        }
        proof {
            let after = assign(old(self)@, key@, value@);
            lemma_entries_view(keys@, values@);
            assert(entries_view(keys@, values@) =~= after);
            assert forall|a: int, b: int| 0 <= a < b < keys@.len() implies (#[trigger] keys@[a])@
                != (#[trigger] keys@[b])@ by {
                assert(after[a].0 == keys@[a]@ && after[b].0 == keys@[b]@);
            }
        }
        *self = Table { keys, values };
    }

    /// The table stored under `key`, created empty when the key is absent;
    /// `None` when the key holds a string, which cannot have children.
    pub fn child_table(&mut self, key: &str) -> (r: Option<&mut Table>)
        ensures
            lookup(old(self)@, key@) matches Some(ValueView::Text(_)) ==> r is None
                && final(self)@ == old(self)@,
            !(lookup(old(self)@, key@) matches Some(ValueView::Text(_))) ==> r is Some,
            r matches Some(t) ==> t@ == child_start(lookup(old(self)@, key@)),
            r matches Some(t) ==> final(self)@ == assign(old(self)@, key@, ValueView::Nested(final(t)@)),
    {
        broadcast use group_table_view;

        proof {
            use_type_invariant(&*self);
        }
        let k = String::from_str(key);
        let i = match self.index_of(&k) {
            Some(i) => {
                let is_table = self.values[i].is_table();
                proof {
                    lemma_position(keys_of(self@), key@);
                    assert(self@[i as int] == (self.keys@[i as int]@, self.values@[i as int]@));
                }
                if !is_table {
                    return None;
                }
                i
            },
            None => {
                self.insert(key, Value::Table(Table::new()));
                proof {
                    use_type_invariant(&*self);
                }
                assert(self@.len() == old(self)@.len() + 1);
                let last = self.values.len() - 1;
                assert(self@[last as int] == (key@, ValueView::Nested(Seq::empty())));
                assert(self@[last as int] == (self.keys@[last as int]@, self.values@[last as int]@));
                last
            },
        };
        proof {
            let mid = self@;
            assert(mid[i as int].0 == key@);
            assert forall|x: ValueView| #[trigger] assign(old(self)@, key@, x) == mid.update(
                i as int,
                (key@, x),
            ) by {
                lemma_position(keys_of(old(self)@), key@);
                assert(assign(old(self)@, key@, x) =~= mid.update(i as int, (key@, x)));
            }
            assert forall|j: int| 0 <= j < mid.len() implies #[trigger] mid[j] == (
                self.keys@[j]@,
                self.values@[j]@,
            ) by {}
        }
        match &mut self.values[i] {
            Value::Table(t) => Some(t),
            Value::String(_) => None,
        }
    }
}

} // verus!
