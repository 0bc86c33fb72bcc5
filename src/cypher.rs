//! The graph-creation pattern language: its values, the parsed statements
//! (nodes, edges and triples), their textual renderings, the parser and the
//! schema that is inferred from a list of statements.
use vstd::prelude::*;

use crate::text::{push_char, push_int, push_str, str_lt, int_text};

pub mod export;
pub mod laws;
pub mod parser;
pub mod schema;

pub use self::export::{export_rows, RowSet};
pub use self::parser::{line_index, parse};
pub use self::schema::{extract_schema, Field, FieldType, Schema, Table, TableType};

verus! {

/// Why an input was refused. Positions count characters from the start of
/// the input.
#[derive(Debug, Clone, PartialEq, Eq)]
pub enum CypherError {
    /// The input does not follow the grammar at `pos`.
    Grammar { pos: usize },
    /// The node pattern that starts at `pos` has no non-null `id`.
    MissingPrimaryKey { pos: usize },
    /// A map literal stands as a property value at `pos`.
    UnsupportedLiteral { pos: usize },
    /// The label `name` is used both for nodes and for edges.
    SchemaKindConflict { name: String },
}

/// The mathematical model of a [`CypherError`].
pub enum ErrorV {
    Grammar(int),
    MissingPrimaryKey(int),
    UnsupportedLiteral(int),
    SchemaKindConflict(Seq<char>),
}

impl View for CypherError {
    type V = ErrorV;

    open spec fn view(&self) -> ErrorV {
        match self {
            CypherError::Grammar { pos } => ErrorV::Grammar(*pos as int),
            CypherError::MissingPrimaryKey { pos } => ErrorV::MissingPrimaryKey(*pos as int),
            CypherError::UnsupportedLiteral { pos } => ErrorV::UnsupportedLiteral(*pos as int),
            CypherError::SchemaKindConflict { name } => ErrorV::SchemaKindConflict(name@),
        }
    }
}

/// A literal property value. A double keeps the exact text it was written
/// with.
#[derive(Debug, Clone, PartialEq, Eq, PartialOrd, Ord, Hash)]
pub enum Value {
    Integer(i64),
    Double(String),
    String(String),
    Bool(bool),
}

/// The mathematical model of a [`Value`].
pub enum ValueV {
    Integer(int),
    Double(Seq<char>),
    Str(Seq<char>),
    Bool(bool),
}

impl View for Value {
    type V = ValueV;

    open spec fn view(&self) -> ValueV {
        match self {
            Value::Integer(i) => ValueV::Integer(*i as int),
            Value::Double(t) => ValueV::Double(t@),
            Value::String(t) => ValueV::Str(t@),
            Value::Bool(b) => ValueV::Bool(*b),
        }
    }
}

/// A property value as written: `None` stands for the `null` literal.
pub open spec fn opt_view(v: Option<Value>) -> Option<ValueV> {
    match v {
        Some(x) => Some(x@),
        None => None,
    }
}

/// One property: its key and its value.
pub type EntryV = (Seq<char>, Option<ValueV>);

pub open spec fn entry_view(e: (String, Option<Value>)) -> EntryV {
    (e.0@, opt_view(e.1))
}

/// The text of a value: integers in decimal, doubles as written, strings in
/// double quotes, booleans in lower case.
pub open spec fn value_text(v: ValueV) -> Seq<char> {
    match v {
        ValueV::Integer(i) => int_text(i),
        ValueV::Double(t) => t,
        ValueV::Str(t) => seq!['"'] + t + seq!['"'],
        ValueV::Bool(b) => if b {
            seq!['t', 'r', 'u', 'e']
        } else {
            seq!['f', 'a', 'l', 's', 'e']
        },
    }
}

impl Value {
    /// A copy of this value.
    pub fn copy(&self) -> (r: Value)
        ensures
            r@ == self@,
    {
        match self {
            Value::Integer(i) => Value::Integer(*i),
            Value::Double(t) => Value::Double(t.clone()),
            Value::String(t) => Value::String(t.clone()),
            Value::Bool(b) => Value::Bool(*b),
        }
    }

    /// Appends the text of this value.
    pub fn push_text(&self, s: &mut String)
        ensures
            final(s)@ == old(s)@ + value_text(self@),
    {
        match self {
            Value::Integer(i) => push_int(s, *i),
            Value::Double(t) => push_str(s, t.as_str()),
            Value::String(t) => {
                push_char(s, '"');
                push_str(s, t.as_str());
                push_char(s, '"');
                assert(final(s)@ =~= old(s)@ + value_text(self@));
            },
            Value::Bool(b) => {
                if *b {
                    push_str(s, "true");
                    proof { reveal_strlit("true"); }
                } else {
                    push_str(s, "false");
                    proof { reveal_strlit("false"); }
                }
            },
        }
    }

    /// The text of this value.
    pub fn to_string(&self) -> (r: String)
        ensures
            r@ == value_text(self@),
    {
        let mut s = String::new();
        self.push_text(&mut s);
        assert(s@ =~= value_text(self@));
        s
    }
}

/// Keys strictly increasing: the entries of a map, each key once, in key
/// order.
pub open spec fn keys_sorted<V>(s: Seq<(Seq<char>, V)>) -> bool {
    forall|i: int, j: int| 0 <= i < j < s.len() ==> str_lt(#[trigger] s[i].0, #[trigger] s[j].0)
}

/// The entries after setting `k` to `v`: the entry of `k` is replaced, or a
/// new one is placed where the order of keys puts it.
pub open spec fn insert_entry<V>(s: Seq<(Seq<char>, V)>, k: Seq<char>, v: V) -> Seq<(Seq<char>, V)>
    decreases s.len(),
{
    if s.len() == 0 {
        seq![(k, v)]
    } else if s[0].0 == k {
        seq![(k, v)] + s.drop_first()
    } else if str_lt(k, s[0].0) {
        seq![(k, v)] + s
    } else {
        seq![s[0]] + insert_entry(s.drop_first(), k, v)
    }
}

/// The value stored under `k`, if any.
pub open spec fn get_entry<V>(s: Seq<(Seq<char>, V)>, k: Seq<char>) -> Option<V>
    decreases s.len(),
{
    if s.len() == 0 {
        None
    } else if s[0].0 == k {
        Some(s[0].1)
    } else {
        get_entry(s.drop_first(), k)
    }
}

/// `k:v` for one non-null property.
pub open spec fn pair_text(k: Seq<char>, v: ValueV) -> Seq<char> {
    k + seq![':'] + value_text(v)
}

/// The non-null properties as `k:v`, joined by commas.
pub open spec fn entries_text(s: Seq<EntryV>) -> Seq<char>
    decreases s.len(),
{
    if s.len() == 0 {
        Seq::empty()
    } else {
        let prev = entries_text(s.drop_last());
        match s.last().1 {
            None => prev,
            Some(v) => if prev.len() == 0 {
                pair_text(s.last().0, v)
            } else {
                prev + seq![','] + pair_text(s.last().0, v)
            },
        }
    }
}

/// `{k:v,...}` over the non-null properties, in key order.
pub open spec fn properties_text(s: Seq<EntryV>) -> Seq<char> {
    seq!['{'] + entries_text(s) + seq!['}']
}

/// The text of one cell of an export row: empty for null.
pub open spec fn cell_text(v: Option<ValueV>) -> Seq<char> {
    match v {
        Some(x) => value_text(x),
        None => Seq::empty(),
    }
}

/// The values of all properties, in key order, joined by commas.
pub open spec fn row_text(s: Seq<EntryV>) -> Seq<char>
    decreases s.len(),
{
    if s.len() == 0 {
        Seq::empty()
    } else if s.len() == 1 {
        cell_text(s[0].1)
    } else {
        row_text(s.drop_last()) + seq![','] + cell_text(s.last().1)
    }
}

pub proof fn lemma_insert_entry_sorted<V>(s: Seq<(Seq<char>, V)>, k: Seq<char>, v: V)
    requires
        keys_sorted(s),
    ensures
        keys_sorted(insert_entry(s, k, v)),
        forall|i: int| 0 <= i < insert_entry(s, k, v).len() ==> #[trigger] insert_entry(s, k, v)[i].0 == k
            || exists|j: int| 0 <= j < s.len() && s[j].0 == insert_entry(s, k, v)[i].0,
    decreases s.len(),
{
    let r = insert_entry(s, k, v);
    if s.len() == 0 {
    } else if s[0].0 == k {
        assert forall|i: int, j: int| 0 <= i < j < r.len() implies str_lt(#[trigger] r[i].0, #[trigger] r[j].0) by {
            assert(r[j] == s[j]);
            if i > 0 {
                assert(r[i] == s[i]);
            }
        }
        assert forall|i: int| 0 <= i < r.len() implies #[trigger] r[i].0 == k
            || exists|j: int| 0 <= j < s.len() && s[j].0 == r[i].0 by {
            if i > 0 {
                assert(s[i].0 == r[i].0);
            }
        }
    } else if str_lt(k, s[0].0) {
        assert forall|i: int, j: int| 0 <= i < j < r.len() implies str_lt(#[trigger] r[i].0, #[trigger] r[j].0) by {
            assert(r[j] == s[j - 1]);
            if i > 0 {
                assert(r[i] == s[i - 1]);
            } else if j > 1 {
                crate::text::lemma_str_lt_transitive(k, s[0].0, s[j - 1].0);
            }
        }
        assert forall|i: int| 0 <= i < r.len() implies #[trigger] r[i].0 == k
            || exists|j: int| 0 <= j < s.len() && s[j].0 == r[i].0 by {
            if i > 0 {
                assert(s[i - 1].0 == r[i].0);
            }
        }
    } else {
        let t = s.drop_first();
        lemma_insert_entry_sorted(t, k, v);
        let rt = insert_entry(t, k, v);
        crate::text::lemma_str_lt_total(k, s[0].0);
        assert(r == seq![s[0]] + rt);
        assert forall|i: int, j: int| 0 <= i < j < r.len() implies str_lt(#[trigger] r[i].0, #[trigger] r[j].0) by {
            assert(r[j] == rt[j - 1]);
            if i > 0 {
                assert(r[i] == rt[i - 1]);
            } else {
                assert(rt[j - 1].0 == k || exists|m: int| 0 <= m < t.len() && t[m].0 == rt[j - 1].0);
                if rt[j - 1].0 != k {
                    let m = choose|m: int| 0 <= m < t.len() && t[m].0 == rt[j - 1].0;
                    assert(s[m + 1] == t[m]);
                }
            }
        }
        assert forall|i: int| 0 <= i < r.len() implies #[trigger] r[i].0 == k
            || exists|j: int| 0 <= j < s.len() && s[j].0 == r[i].0 by {
            if i == 0 {
                assert(s[0].0 == r[0].0);
            } else {
                assert(r[i] == rt[i - 1]);
                if rt[i - 1].0 != k {
                    let m = choose|m: int| 0 <= m < t.len() && t[m].0 == rt[i - 1].0;
                    assert(s[m + 1].0 == r[i].0);
                }
            }
        }
    }
}

/// Where `insert_entry` puts `k`: after the `p` keys that come before it.
pub proof fn lemma_insert_entry_at<V>(s: Seq<(Seq<char>, V)>, k: Seq<char>, v: V, p: int)
    requires
        keys_sorted(s),
        0 <= p <= s.len(),
        forall|i: int| 0 <= i < p ==> str_lt(#[trigger] s[i].0, k),
        p < s.len() ==> !str_lt(s[p].0, k),
    ensures
        p < s.len() && s[p].0 == k ==> insert_entry(s, k, v) == s.update(p, (k, v)),
        !(p < s.len() && s[p].0 == k) ==> insert_entry(s, k, v) == s.insert(p, (k, v)),
    decreases p,
{
    if p == 0 {
        if s.len() > 0 {
            if s[0].0 != k {
                crate::text::lemma_str_lt_total(k, s[0].0);
                assert(seq![(k, v)] + s =~= s.insert(0, (k, v)));
            } else {
                assert(seq![(k, v)] + s.drop_first() =~= s.update(0, (k, v)));
            }
        } else {
            assert(seq![(k, v)] =~= s.insert(0, (k, v)));
        }
    } else {
        let t = s.drop_first();
        crate::text::lemma_str_lt_irreflexive(k);
        assert(str_lt(s[0].0, k));
        crate::text::lemma_str_lt_asymmetric(s[0].0, k);
        assert(keys_sorted(t)) by {
            assert forall|i: int, j: int| 0 <= i < j < t.len() implies str_lt(#[trigger] t[i].0, #[trigger] t[j].0) by {
                assert(t[i] == s[i + 1] && t[j] == s[j + 1]);
            }
        }
        assert forall|i: int| 0 <= i < p - 1 implies str_lt(#[trigger] t[i].0, k) by {
            assert(t[i] == s[i + 1]);
        }
        lemma_insert_entry_at(t, k, v, p - 1);
        if p < s.len() && s[p].0 == k {
            assert(seq![s[0]] + t.update(p - 1, (k, v)) =~= s.update(p, (k, v)));
        } else {
            assert(seq![s[0]] + t.insert(p - 1, (k, v)) =~= s.insert(p, (k, v)));
        }
    }
}

/// In entries kept in key order, `k` is found where `lemma_insert_entry_at`
/// would put it.
pub proof fn lemma_get_entry_at<V>(s: Seq<(Seq<char>, V)>, k: Seq<char>, p: int)
    requires
        keys_sorted(s),
        0 <= p <= s.len(),
        forall|i: int| 0 <= i < p ==> str_lt(#[trigger] s[i].0, k),
        p < s.len() ==> !str_lt(s[p].0, k),
    ensures
        p < s.len() && s[p].0 == k ==> get_entry(s, k) == Some(s[p].1),
        !(p < s.len() && s[p].0 == k) ==> get_entry(s, k) is None,
    decreases s.len(),
{
    if s.len() > 0 {
        let t = s.drop_first();
        assert(keys_sorted(t)) by {
            assert forall|i: int, j: int| 0 <= i < j < t.len() implies str_lt(#[trigger] t[i].0, #[trigger] t[j].0) by {
                assert(t[i] == s[i + 1] && t[j] == s[j + 1]);
            }
        }
        if p == 0 {
            if s[0].0 != k {
                crate::text::lemma_str_lt_total(k, s[0].0);
                lemma_get_entry_absent(s, k);
            }
        } else {
            crate::text::lemma_str_lt_irreflexive(k);
            assert forall|i: int| 0 <= i < p - 1 implies str_lt(#[trigger] t[i].0, k) by {
                assert(t[i] == s[i + 1]);
            }
            lemma_get_entry_at(t, k, p - 1);
        }
    }
}

/// A key below the first key of sorted entries is absent.
proof fn lemma_get_entry_absent<V>(s: Seq<(Seq<char>, V)>, k: Seq<char>)
    requires
        keys_sorted(s),
        s.len() > 0 ==> str_lt(k, s[0].0),
    ensures
        get_entry(s, k) is None,
    decreases s.len(),
{
    if s.len() > 0 {
        crate::text::lemma_str_lt_irreflexive(k);
        let t = s.drop_first();
        if t.len() > 0 {
            assert(t[0] == s[1]);
            crate::text::lemma_str_lt_transitive(k, s[0].0, s[1].0);
        }
        assert(keys_sorted(t)) by {
            assert forall|i: int, j: int| 0 <= i < j < t.len() implies str_lt(#[trigger] t[i].0, #[trigger] t[j].0) by {
                assert(t[i] == s[i + 1] && t[j] == s[j + 1]);
            }
        }
        lemma_get_entry_absent(t, k);
    }
}

/// Setting `k` changes what is found under `k` and nothing else.
pub proof fn lemma_get_insert_entry<V>(s: Seq<(Seq<char>, V)>, k: Seq<char>, v: V, q: Seq<char>)
    ensures
        get_entry(insert_entry(s, k, v), q) == if q == k { Some(v) } else { get_entry(s, q) },
    decreases s.len(),
{
    let r = insert_entry(s, k, v);
    assert(r.len() > 0);
    assert(get_entry(r, q) == if r[0].0 == q { Some(r[0].1) } else { get_entry(r.drop_first(), q) });
    if s.len() == 0 {
        assert(r[0] == (k, v));
        assert(r.drop_first() =~= Seq::<(Seq<char>, V)>::empty());
    } else {
        assert(get_entry(s, q) == if s[0].0 == q { Some(s[0].1) } else { get_entry(s.drop_first(), q) });
        if s[0].0 == k {
            assert(r[0] == (k, v));
            assert(r.drop_first() =~= s.drop_first());
        } else if str_lt(k, s[0].0) {
            assert(r[0] == (k, v));
            assert(r.drop_first() =~= s);
        } else {
            assert(r[0] == s[0]);
            lemma_get_insert_entry(s.drop_first(), k, v, q);
            assert(r.drop_first() =~= insert_entry(s.drop_first(), k, v));
        }
    }
}

/// The properties of a node or an edge: a map from key to value (`None`
/// for `null`), kept in key order.
#[derive(Debug, PartialEq, Eq, Hash)]
pub struct Properties {
    inner: Vec<(String, Option<Value>)>,
}

impl View for Properties {
    type V = Seq<EntryV>;

    closed spec fn view(&self) -> Seq<EntryV> {
        self.inner@.map_values(|e: (String, Option<Value>)| entry_view(e))
    }
}

impl Properties {
    /// No properties.
    pub fn new() -> (r: Properties)
        ensures
            r@ == Seq::<EntryV>::empty(),
    {
        let r = Properties { inner: Vec::new() };
        assert(r@ =~= Seq::<EntryV>::empty());
        r
    }

    /// Sets `key` to `value`, replacing an earlier value of `key`.
    pub fn insert(&mut self, key: String, value: Option<Value>)
        requires
            keys_sorted(old(self)@),
        ensures
            final(self)@ == insert_entry(old(self)@, key@, opt_view(value)),
            keys_sorted(final(self)@),
    {
        let ghost s = self@;
        let ghost kv = (key@, opt_view(value));
        proof {
            lemma_insert_entry_sorted(s, key@, opt_view(value));
        }
        let mut p: usize = 0;
        while p < self.inner.len() && crate::text::less_than(&self.inner[p].0, &key)
            invariant
                s == self@,
                keys_sorted(s),
                p <= self.inner@.len(),
                forall|i: int| 0 <= i < p ==> str_lt(#[trigger] s[i].0, key@),
            decreases self.inner@.len() - p,
        {
            p = p + 1;
        }
        proof {
            lemma_insert_entry_at(s, key@, opt_view(value), p as int);
        }
        if p < self.inner.len() && self.inner[p].0 == key {
            self.inner.remove(p);
            self.inner.insert(p, (key, value));
            assert(self@ =~= s.update(p as int, kv));
        } else {
            self.inner.insert(p, (key, value));
            assert(self@ =~= s.insert(p as int, kv));
        }
    }

    /// The properties in key order.
    pub fn iter(&self) -> (r: &[(String, Option<Value>)])
        ensures
            r@.map_values(|e: (String, Option<Value>)| entry_view(e)) == self@,
    {
        self.inner.as_slice()
    }

    /// The number of properties.
    pub fn len(&self) -> (r: usize)
        ensures
            r == self@.len(),
    {
        self.inner.len()
    }

    /// The value stored under `key`: `Some(None)` for a `null` property,
    /// `None` where there is no such key.
    pub fn get(&self, key: &str) -> (r: Option<&Option<Value>>)
        ensures
            match r {
                Some(v) => get_entry(self@, key@) == Some(opt_view(*v)),
                None => get_entry(self@, key@) is None,
            },
    {
        let mut i: usize = 0;
        assert(self@.subrange(0, self@.len() as int) =~= self@);
        while i < self.inner.len()
            invariant
                i <= self.inner@.len(),
                get_entry(self@, key@) == get_entry(self@.subrange(i as int, self@.len() as int), key@),
            decreases self.inner@.len() - i,
        {
            proof {
                let t = self@.subrange(i as int, self@.len() as int);
                assert(t.drop_first() =~= self@.subrange(i + 1, self@.len() as int));
                assert(t[0] == entry_view(self.inner@[i as int]));
            }
            if crate::text::same_text(self.inner[i].0.as_str(), key) {
                return Some(&self.inner[i].1);
            }
            i = i + 1;
        }
        None
    }

    /// Appends `{k:v,...}`, over the non-null properties in key order.
    pub fn push_text(&self, s: &mut String)
        ensures
            final(s)@ == old(s)@ + properties_text(self@),
    {
        push_char(s, '{');
        let ghost start = s@;
        let mut i: usize = 0;
        let mut first = true;
        while i < self.inner.len()
            invariant
                i <= self.inner@.len(),
                s@ == start + entries_text(self@.subrange(0, i as int)),
                first == (entries_text(self@.subrange(0, i as int)).len() == 0),
            decreases self.inner@.len() - i,
        {
            let ghost prev = entries_text(self@.subrange(0, i as int));
            proof {
                let t = self@.subrange(0, i + 1);
                assert(t.drop_last() =~= self@.subrange(0, i as int));
                assert(t.last() == entry_view(self.inner@[i as int]));
            }
            match &self.inner[i].1 {
                None => {},
                Some(v) => {
                    if !first {
                        push_char(s, ',');
                    }
                    first = false;
                    push_str(s, self.inner[i].0.as_str());
                    push_char(s, ':');
                    v.push_text(s);
                    assert(s@ =~= start + entries_text(self@.subrange(0, i + 1)));
                    assert(entries_text(self@.subrange(0, i + 1)).len() > 0);
                },
            }
            i = i + 1;
        }
        push_char(s, '}');
        assert(self@.subrange(0, self@.len() as int) =~= self@);
        assert(s@ =~= old(s)@ + properties_text(self@));
    }

    /// Appends the values of all properties in key order, joined by commas,
    /// with an empty cell for `null`.
    pub fn push_row(&self, s: &mut String)
        ensures
            final(s)@ == old(s)@ + row_text(self@),
    {
        let ghost start = s@;
        let mut i: usize = 0;
        while i < self.inner.len()
            invariant
                i <= self.inner@.len(),
                s@ == start + row_text(self@.subrange(0, i as int)),
            decreases self.inner@.len() - i,
        {
            proof {
                let t = self@.subrange(0, i + 1);
                assert(t.drop_last() =~= self@.subrange(0, i as int));
                assert(t.last() == entry_view(self.inner@[i as int]));
                if i == 0 {
                    assert(t[0] == t.last());
                }
            }
            if i > 0 {
                push_char(s, ',');
            }
            match &self.inner[i].1 {
                None => {},
                Some(v) => {
                    v.push_text(s);
                },
            }
            assert(s@ =~= start + row_text(self@.subrange(0, i + 1)));
            i = i + 1;
        }
        assert(self@.subrange(0, self@.len() as int) =~= self@);
    }
}


/// The key that holds a node's identity.
pub open spec fn id_key() -> Seq<char> {
    seq!['i', 'd']
}

/// The mathematical model of a [`Node`].
pub struct NodeV {
    pub name: Seq<char>,
    pub props: Seq<EntryV>,
    pub primary: ValueV,
}

/// The node with label `name` and properties `props`, where these carry a
/// non-null `id`; its primary value is that `id`.
pub open spec fn node_of(name: Seq<char>, props: Seq<EntryV>) -> Option<NodeV> {
    match get_entry(props, id_key()) {
        Some(Some(v)) => Some(NodeV { name, props, primary: v }),
        _ => None,
    }
}

/// `(:Label{k:v,...})`.
pub open spec fn node_text(n: NodeV) -> Seq<char> {
    seq!['(', ':'] + n.name + properties_text(n.props) + seq![')']
}

/// One node pattern: a label, its properties, and the value of its `id`
/// property, which identifies it.
#[derive(Debug, PartialEq, Eq, Hash)]
pub struct Node {
    pub name: String,
    properties: Properties,
    primary_value: Value,
}

impl View for Node {
    type V = NodeV;

    closed spec fn view(&self) -> NodeV {
        NodeV { name: self.name@, props: self.properties@, primary: self.primary_value@ }
    }
}

impl Node {
    /// Well formed: the properties are in key order and the primary value is
    /// the value of `id`.
    pub open spec fn wf(&self) -> bool {
        &&& keys_sorted(self@.props)
        &&& node_of(self@.name, self@.props) == Some(self@)
    }

    /// The node labelled `name` with `properties`; `None` where these hold
    /// no non-null `id`.
    pub fn new(name: String, properties: Properties) -> (r: Option<Node>)
        requires
            keys_sorted(properties@),
        ensures
            match r {
                Some(n) => node_of(name@, properties@) == Some(n@) && n.wf(),
                None => node_of(name@, properties@) is None,
            },
    {
        let id = String::from_str("id");
        proof { reveal_strlit("id"); }
        assert(id@ =~= id_key());
        let primary_value = match properties.get(id.as_str()) {
            Some(Some(v)) => v.copy(),
            _ => {
                return None;
            },
        };
        Some(Node { name, properties, primary_value })
    }

    /// The properties in key order.
    pub fn iter(&self) -> (r: &[(String, Option<Value>)])
        ensures
            r@.map_values(|e: (String, Option<Value>)| entry_view(e)) == self@.props,
    {
        self.properties.iter()
    }

    /// The properties.
    pub fn properties(&self) -> (r: &Properties)
        ensures
            r@ == self@.props,
    {
        &self.properties
    }

    /// The value of the `id` property.
    pub fn get_primary_value(&self) -> (r: &Value)
        ensures
            r@ == self@.primary,
    {
        &self.primary_value
    }

    /// `(:Label{k:v,...})`, over the non-null properties in key order.
    pub fn to_string(&self) -> (r: String)
        ensures
            r@ == node_text(self@),
    {
        let mut s = String::new();
        push_str(&mut s, "(:");
        proof { reveal_strlit("(:"); }
        push_str(&mut s, self.name.as_str());
        self.properties.push_text(&mut s);
        push_char(&mut s, ')');
        assert(s@ =~= node_text(self@));
        s
    }

    /// The export row: the values of all properties in key order, joined by
    /// commas, with an empty cell for `null`.
    pub fn export_row(&self) -> (r: String)
        ensures
            r@ == row_text(self@.props),
    {
        let mut s = String::new();
        self.properties.push_row(&mut s);
        assert(s@ =~= row_text(self@.props));
        s
    }
}

/// The mathematical model of an [`Edge`].
pub struct EdgeV {
    pub name: Seq<char>,
    pub props: Option<Seq<EntryV>>,
    pub from: (Seq<char>, ValueV),
    pub to: (Seq<char>, ValueV),
}

/// `[:Label{k:v,...}]`, or `[:Label]` for an edge without properties.
pub open spec fn edge_text(e: EdgeV) -> Seq<char> {
    seq!['[', ':'] + e.name + match e.props {
        Some(p) => properties_text(p),
        None => Seq::empty(),
    } + seq![']']
}

/// The export row of an edge: the primary values of its two ends, then the
/// values of its properties, if it has any.
pub open spec fn edge_row_text(e: EdgeV) -> Seq<char> {
    value_text(e.from.1) + seq![','] + value_text(e.to.1) + match e.props {
        Some(p) => seq![','] + row_text(p),
        None => Seq::empty(),
    }
}

/// One relationship: a label, its properties if it has any, and its two
/// ends, each a node label with the node's primary value.
#[derive(Debug, PartialEq, Eq, Hash)]
pub struct Edge {
    pub name: String,
    pub properties: Option<Properties>,
    pub from: (String, Value),
    pub to: (String, Value),
}

impl View for Edge {
    type V = EdgeV;

    open spec fn view(&self) -> EdgeV {
        EdgeV {
            name: self.name@,
            props: match self.properties {
                Some(p) => Some(p@),
                None => None,
            },
            from: (self.from.0@, self.from.1@),
            to: (self.to.0@, self.to.1@),
        }
    }
}

impl Edge {
    /// Well formed: properties, where present, are in key order.
    pub open spec fn wf(&self) -> bool {
        match self@.props {
            Some(p) => keys_sorted(p),
            None => true,
        }
    }

    /// An edge without properties.
    pub fn new(name: String, from: (String, Value), to: (String, Value)) -> (r: Edge)
        ensures
            r@ == (EdgeV { name: name@, props: None, from: (from.0@, from.1@), to: (to.0@, to.1@) }),
    {
        Edge { name, properties: None, from, to }
    }

    /// Gives the edge `properties`.
    pub fn set_properties(&mut self, properties: Properties)
        ensures
            final(self)@ == (EdgeV { props: Some(properties@), ..old(self)@ }),
    {
        self.properties = Some(properties);
    }

    /// `[:Label{k:v,...}]`, or `[:Label]` without properties.
    pub fn to_string(&self) -> (r: String)
        ensures
            r@ == edge_text(self@),
    {
        let mut s = String::new();
        push_str(&mut s, "[:");
        proof { reveal_strlit("[:"); }
        push_str(&mut s, self.name.as_str());
        match &self.properties {
            Some(p) => p.push_text(&mut s),
            None => {},
        }
        push_char(&mut s, ']');
        assert(s@ =~= edge_text(self@));
        s
    }

    /// The export row: `from,to`, then the property values if the edge has
    /// properties.
    pub fn export_row(&self) -> (r: String)
        ensures
            r@ == edge_row_text(self@),
    {
        let mut s = String::new();
        self.from.1.push_text(&mut s);
        push_char(&mut s, ',');
        self.to.1.push_text(&mut s);
        match &self.properties {
            Some(p) => {
                push_char(&mut s, ',');
                p.push_row(&mut s);
            },
            None => {},
        }
        assert(s@ =~= edge_row_text(self@));
        s
    }
}

/// The mathematical model of a [`Triple`].
pub struct TripleV {
    pub left: NodeV,
    pub edge: EdgeV,
    pub right: NodeV,
}

/// `CREATE (:A{..}) -[:R{..}]-> (:B{..});`
pub open spec fn statement_text(t: TripleV) -> Seq<char> {
    seq!['C', 'R', 'E', 'A', 'T', 'E', ' '] + node_text(t.left) + seq![' ', '-'] + edge_text(t.edge)
        + seq!['-', '>', ' '] + node_text(t.right) + seq![';']
}

/// One statement: the origin node, the relationship, and the destination
/// node.
#[derive(Debug)]
pub struct Triple {
    pub left: Node,
    pub edge: Edge,
    pub right: Node,
}

impl View for Triple {
    type V = TripleV;

    open spec fn view(&self) -> TripleV {
        TripleV { left: self.left@, edge: self.edge@, right: self.right@ }
    }
}

impl Triple {
    /// Well formed: both nodes and the edge are, and the edge's ends are
    /// the two nodes.
    pub open spec fn wf(&self) -> bool {
        &&& self.left.wf()
        &&& self.right.wf()
        &&& self.edge.wf()
        &&& self.edge@.from == (self.left@.name, self.left@.primary)
        &&& self.edge@.to == (self.right@.name, self.right@.primary)
    }

    pub fn new(left: Node, edge: Edge, right: Node) -> (r: Triple)
        ensures
            r@ == (TripleV { left: left@, edge: edge@, right: right@ }),
    {
        Triple { left, edge, right }
    }

    /// The statement as text: `CREATE (:A{..}) -[:R{..}]-> (:B{..});`.
    pub fn generate_create_statement(&self) -> (r: String)
        ensures
            r@ == statement_text(self@),
    {
        let mut s = String::new();
        push_str(&mut s, "CREATE ");
        proof { reveal_strlit("CREATE "); }
        let left = self.left.to_string();
        push_str(&mut s, left.as_str());
        push_str(&mut s, " -");
        proof { reveal_strlit(" -"); }
        let edge = self.edge.to_string();
        push_str(&mut s, edge.as_str());
        push_str(&mut s, "-> ");
        proof { reveal_strlit("-> "); }
        let right = self.right.to_string();
        push_str(&mut s, right.as_str());
        push_char(&mut s, ';');
        assert(s@ =~= statement_text(self@));
        s
    }
}

} // verus!
