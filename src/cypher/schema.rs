//! The schema inferred from parsed statements: one table per node label and
//! per edge label, with typed, nullable fields unified over every
//! occurrence, and the DDL statements that declare it.
use vstd::prelude::*;

use crate::cypher::{
    get_entry, id_key, insert_entry, keys_sorted, lemma_get_entry_at, lemma_get_insert_entry,
    lemma_insert_entry_at, lemma_insert_entry_sorted, entry_view, CypherError, EdgeV,
    EntryV, ErrorV, Edge, Node, NodeV, Properties, Triple, TripleV, Value, ValueV,
};
use crate::text::{less_than, push_str, str_lt};

verus! {

/// The type of a field.
#[derive(Debug, Clone, Copy, PartialEq, Eq, Structural)]
pub enum FieldType {
    Integer,
    Double,
    Boolean,
    String,
}

/// The DDL name of a field type.
pub open spec fn ddl_type(t: FieldType) -> Seq<char> {
    match t {
        FieldType::Integer => "INT64"@,
        FieldType::Double => "DOUBLE"@,
        FieldType::Boolean => "BOOLEAN"@,
        FieldType::String => "STRING"@,
    }
}

impl FieldType {
    /// The DDL name: `INT64`, `DOUBLE`, `BOOLEAN` or `STRING`.
    pub fn to_string(&self) -> (r: String)
        ensures
            r@ == ddl_type(*self),
    {
        match self {
            FieldType::Integer => String::from_str("INT64"),
            FieldType::Double => String::from_str("DOUBLE"),
            FieldType::Boolean => String::from_str("BOOLEAN"),
            FieldType::String => String::from_str("STRING"),
        }
    }
}

/// The type a property value gives a new field; `null` gives a string.
pub open spec fn type_of(v: Option<ValueV>) -> FieldType {
    match v {
        Some(ValueV::Integer(_)) => FieldType::Integer,
        Some(ValueV::Double(_)) => FieldType::Double,
        Some(ValueV::Str(_)) => FieldType::String,
        Some(ValueV::Bool(_)) => FieldType::Boolean,
        None => FieldType::String,
    }
}

/// A field's name, with its type and whether it may be null.
pub type FieldV = (Seq<char>, (FieldType, bool));

/// One typed column of a table.
#[derive(Debug)]
pub struct Field {
    pub name: String,
    pub field_type: FieldType,
    pub nullable: bool,
}

impl View for Field {
    type V = FieldV;

    open spec fn view(&self) -> FieldV {
        (self.name@, (self.field_type, self.nullable))
    }
}

/// The fields after `add_field`: a name not seen yet gets a new field; an
/// existing field is kept as it is.
pub open spec fn add_field_spec(fs: Seq<FieldV>, k: Seq<char>, t: FieldType, n: bool) -> Seq<FieldV> {
    if get_entry(fs, k) is None {
        insert_entry(fs, k, (t, n))
    } else {
        fs
    }
}

/// The fields after `set_field_nullable`: an existing field becomes
/// nullable if `n` holds.
pub open spec fn set_nullable_spec(fs: Seq<FieldV>, k: Seq<char>, n: bool) -> Seq<FieldV> {
    match get_entry(fs, k) {
        Some((t, m)) => insert_entry(fs, k, (t, m || n)),
        None => fs,
    }
}

/// One occurrence of a property, folded into the fields.
pub open spec fn merge_value(fs: Seq<FieldV>, k: Seq<char>, v: Option<ValueV>) -> Seq<FieldV> {
    match v {
        Some(_) => add_field_spec(fs, k, type_of(v), false),
        None => set_nullable_spec(add_field_spec(fs, k, FieldType::String, true), k, true),
    }
}

/// Properties folded into the fields, in order.
pub open spec fn merge_entries(fs: Seq<FieldV>, es: Seq<EntryV>) -> Seq<FieldV>
    decreases es.len(),
{
    if es.len() == 0 {
        fs
    } else {
        merge_value(merge_entries(fs, es.drop_last()), es.last().0, es.last().1)
    }
}

/// Unification of one occurrence: a new field takes its type from the
/// value (a string for `null`) and is nullable only if the value is `null`;
/// an existing field keeps its type whatever the value, and becomes nullable
/// when the value is `null`. Other fields do not change.
pub proof fn lemma_unification(fs: Seq<FieldV>, k: Seq<char>, v: Option<ValueV>, q: Seq<char>)
    ensures
        get_entry(merge_value(fs, k, v), q) == if q == k {
            Some(
                match get_entry(fs, k) {
                    None => (type_of(v), v is None),
                    Some((t, n)) => (t, n || v is None),
                },
            )
        } else {
            get_entry(fs, q)
        },
{
    let t = type_of(v);
    let n = v is None;
    lemma_get_insert_entry(fs, k, (t, n), q);
    lemma_get_insert_entry(fs, k, (t, n), k);
    let a = add_field_spec(fs, k, t, n);
    if let Some((t1, m)) = get_entry(a, k) {
        lemma_get_insert_entry(a, k, (t1, m || n), q);
    }
}

/// The kind of a table: nodes, or edges from one node label to another.
#[derive(Debug, Clone, PartialEq, Eq)]
pub enum TableType {
    Node,
    Edge(String, String),
}

/// The mathematical model of a [`TableType`].
pub enum TableTypeV {
    Node,
    Edge(Seq<char>, Seq<char>),
}

impl View for TableType {
    type V = TableTypeV;

    open spec fn view(&self) -> TableTypeV {
        match self {
            TableType::Node => TableTypeV::Node,
            TableType::Edge(f, t) => TableTypeV::Edge(f@, t@),
        }
    }
}

/// The mathematical model of a [`Table`].
pub struct TableV {
    pub name: Seq<char>,
    pub kind: TableTypeV,
    pub fields: Seq<FieldV>,
    pub primary_key: Seq<char>,
}

/// `name TYPE` for one field.
pub open spec fn field_text(f: FieldV) -> Seq<char> {
    f.0 + " "@ + ddl_type(f.1.0)
}

/// The fields as `name TYPE`, joined by `, `.
pub open spec fn fields_text(fs: Seq<FieldV>) -> Seq<char>
    decreases fs.len(),
{
    if fs.len() == 0 {
        Seq::empty()
    } else if fs.len() == 1 {
        field_text(fs[0])
    } else {
        fields_text(fs.drop_last()) + ", "@ + field_text(fs.last())
    }
}

/// The parenthesised part of a table's DDL statement.
pub open spec fn fields_clause(t: TableV) -> Seq<char> {
    match t.kind {
        TableTypeV::Node => "("@ + fields_text(t.fields) + (if t.fields.len() > 0 {
            ", "@
        } else {
            Seq::empty()
        }) + "PRIMARY KEY ("@ + t.primary_key + "))"@,
        TableTypeV::Edge(from, to) => "(FROM "@ + from + " TO "@ + to + (if t.fields.len() > 0 {
            ", "@ + fields_text(t.fields)
        } else {
            Seq::empty()
        }) + ")"@,
    }
}

/// `CREATE NODE TABLE name (...);` or `CREATE REL TABLE name (...);`.
pub open spec fn table_ddl(t: TableV) -> Seq<char> {
    "CREATE "@ + (if t.kind is Node {
        "NODE"@
    } else {
        "REL"@
    }) + " TABLE "@ + t.name + " "@ + fields_clause(t) + ";"@
}

/// An inferred table: its name, kind, fields in name order and primary key.
#[derive(Debug)]
pub struct Table {
    pub name: String,
    pub table_type: TableType,
    pub fields: Vec<Field>,
    pub primary_key: String,
}

impl View for Table {
    type V = TableV;

    open spec fn view(&self) -> TableV {
        TableV {
            name: self.name@,
            kind: self.table_type@,
            fields: self.fields@.map_values(|f: Field| f@),
            primary_key: self.primary_key@,
        }
    }
}

impl Table {
    /// Well formed: each field name occurs once, in sorted order.
    pub open spec fn wf(&self) -> bool {
        keys_sorted(self@.fields)
    }

    /// The fields, sorted by name.
    pub fn iter_fields(&self) -> (r: &[Field])
        requires
            self.wf(),
        ensures
            r@.map_values(|f: Field| f@) == self@.fields,
            forall|i: int, j: int| 0 <= i < j < r@.len() ==> str_lt(#[trigger] r@[i].name@, #[trigger] r@[j].name@),
    {
        let r = self.fields.as_slice();
        assert forall|i: int, j: int| 0 <= i < j < r@.len() implies str_lt(#[trigger] r@[i].name@, #[trigger] r@[j].name@) by {
            assert(self@.fields[i] == r@[i]@ && self@.fields[j] == r@[j]@);
            assert(str_lt(self@.fields[i].0, self@.fields[j].0));
        }
        r
    }

    /// A copy of this table.
    pub fn copy(&self) -> (r: Table)
        ensures
            r@ == self@,
    {
        let mut fields: Vec<Field> = Vec::new();
        let mut i: usize = 0;
        while i < self.fields.len()
            invariant
                i <= self.fields@.len(),
                fields@.map_values(|f: Field| f@) == self@.fields.subrange(0, i as int),
            decreases self.fields@.len() - i,
        {
            let f = &self.fields[i];
            let ghost prev = fields@.map_values(|f: Field| f@);
            assert(self@.fields[i as int] == self.fields@[i as int]@);
            fields.push(Field { name: f.name.clone(), field_type: f.field_type, nullable: f.nullable });
            assert(fields@.map_values(|f: Field| f@) =~= prev.push(self@.fields[i as int]));
            assert(fields@.map_values(|f: Field| f@) =~= self@.fields.subrange(0, i + 1));
            i = i + 1;
        }
        assert(self@.fields.subrange(0, i as int) =~= self@.fields);
        let table_type = match &self.table_type {
            TableType::Node => TableType::Node,
            TableType::Edge(f, t) => TableType::Edge(f.clone(), t.clone()),
        };
        Table { name: self.name.clone(), table_type, fields, primary_key: self.primary_key.clone() }
    }

    /// Where `name` is, or would be placed, among the fields.
    fn position(&self, name: &String) -> (r: (usize, bool))
        requires
            self.wf(),
        ensures
            r.0 <= self.fields@.len(),
            r.1 ==> r.0 < self.fields@.len() && get_entry(self@.fields, name@) == Some(self@.fields[r.0 as int].1),
            r.1 ==> self@.fields[r.0 as int].0 == name@,
            !r.1 ==> get_entry(self@.fields, name@) is None,
            r.1 ==> insert_entry(self@.fields, name@, (FieldType::String, false)).len() == self@.fields.len(),
            forall|v: (FieldType, bool)| r.1 ==> #[trigger] insert_entry(self@.fields, name@, v) == self@.fields.update(r.0 as int, (name@, v)),
            forall|v: (FieldType, bool)| !r.1 ==> #[trigger] insert_entry(self@.fields, name@, v) == self@.fields.insert(r.0 as int, (name@, v)),
    {
        let ghost s = self@.fields;
        let mut p: usize = 0;
        while p < self.fields.len() && less_than(&self.fields[p].name, name)
            invariant
                s == self@.fields,
                keys_sorted(s),
                p <= self.fields@.len(),
                forall|i: int| 0 <= i < p ==> str_lt(#[trigger] s[i].0, name@),
            decreases self.fields@.len() - p,
        {
            p = p + 1;
        }
        let found = p < self.fields.len() && self.fields[p].name == *name;
        proof {
            lemma_get_entry_at(s, name@, p as int);
            assert forall|v: (FieldType, bool)| true implies {
                &&& found ==> #[trigger] insert_entry(s, name@, v) == s.update(p as int, (name@, v))
                &&& !found ==> insert_entry(s, name@, v) == s.insert(p as int, (name@, v))
            } by {
                lemma_insert_entry_at(s, name@, v, p as int);
            }
        }
        (p, found)
    }

    /// Adds a field `name` of type `field_type` unless the table has one.
    pub fn add_field(&mut self, name: &String, field_type: FieldType, nullable: bool)
        requires
            old(self).wf(),
        ensures
            final(self).wf(),
            final(self)@ == (TableV { fields: add_field_spec(old(self)@.fields, name@, field_type, nullable), ..old(self)@ }),
    {
        let (p, found) = self.position(name);
        proof {
            lemma_insert_entry_sorted(self@.fields, name@, (field_type, nullable));
        }
        if !found {
            let ghost s = self@.fields;
            self.fields.insert(p, Field { name: name.clone(), field_type, nullable });
            assert(self@.fields =~= s.insert(p as int, (name@, (field_type, nullable))));
        }
    }

    /// Makes the field `name` nullable if `nullable` holds.
    pub fn set_field_nullable(&mut self, name: &String, nullable: bool)
        requires
            old(self).wf(),
        ensures
            final(self).wf(),
            final(self)@ == (TableV { fields: set_nullable_spec(old(self)@.fields, name@, nullable), ..old(self)@ }),
    {
        let (p, found) = self.position(name);
        if found {
            let ghost s = self@.fields;
            let f = self.fields.remove(p);
            let ghost v = (f.field_type, f.nullable || nullable);
            proof {
                lemma_insert_entry_sorted(s, name@, v);
                assert(insert_entry(s, name@, v) == s.update(p as int, (name@, v)));
            }
            self.fields.insert(p, Field { name: f.name, field_type: f.field_type, nullable: f.nullable || nullable });
            assert(self@.fields =~= s.update(p as int, (name@, v)));
        }
    }

    /// Folds the properties of one occurrence into the fields.
    pub fn merge_properties(&mut self, properties: &Properties)
        requires
            old(self).wf(),
        ensures
            final(self).wf(),
            final(self)@ == (TableV { fields: merge_entries(old(self)@.fields, properties@), ..old(self)@ }),
    {
        let es = properties.iter();
        let ghost start = self@.fields;
        let mut i: usize = 0;
        assert(es@.map_values(|e: (String, Option<Value>)| entry_view(e)).subrange(0, 0) =~= Seq::<EntryV>::empty());
        while i < es.len()
            invariant
                self.wf(),
                i <= es@.len(),
                es@.map_values(|e: (String, Option<Value>)| entry_view(e)) == properties@,
                self@ == (TableV { fields: merge_entries(start, properties@.subrange(0, i as int)), ..old(self)@ }),
            decreases es@.len() - i,
        {
            let (k, v) = &es[i];
            proof {
                let t = properties@.subrange(0, i + 1);
                assert(t.drop_last() =~= properties@.subrange(0, i as int));
                assert(t.last() == entry_view(es@[i as int]));
            }
            match v {
                Some(_) => {
                    let ft = match v {
                        Some(Value::Integer(_)) => FieldType::Integer,
                        Some(Value::Double(_)) => FieldType::Double,
                        Some(Value::String(_)) => FieldType::String,
                        _ => FieldType::Boolean,
                    };
                    self.add_field(k, ft, false);
                },
                None => {
                    self.add_field(k, FieldType::String, true);
                    self.set_field_nullable(k, true);
                },
            }
            i = i + 1;
        }
        assert(properties@.subrange(0, es@.len() as int) =~= properties@);
    }

    /// The parenthesised part of the DDL statement: the fields in name
    /// order, then the primary key of a node table, or first the two node
    /// tables that an edge table connects.
    pub fn generate_fields(&self) -> (r: String)
        ensures
            r@ == fields_clause(self@),
    {
        let mut list = String::new();
        let mut i: usize = 0;
        while i < self.fields.len()
            invariant
                i <= self.fields@.len(),
                list@ == fields_text(self@.fields.subrange(0, i as int)),
            decreases self.fields@.len() - i,
        {
            proof {
                let t = self@.fields.subrange(0, i + 1);
                assert(t.drop_last() =~= self@.fields.subrange(0, i as int));
                assert(t.last() == self.fields@[i as int]@);
                if i == 0 {
                    assert(t[0] == t.last());
                }
            }
            if i > 0 {
                push_str(&mut list, ", ");
            }
            push_str(&mut list, self.fields[i].name.as_str());
            push_str(&mut list, " ");
            let t = self.fields[i].field_type.to_string();
            push_str(&mut list, t.as_str());
            assert(list@ =~= fields_text(self@.fields.subrange(0, i + 1)));
            i = i + 1;
        }
        assert(self@.fields.subrange(0, self@.fields.len() as int) =~= self@.fields);
        let mut s = String::new();
        match &self.table_type {
            TableType::Node => {
                push_str(&mut s, "(");
                push_str(&mut s, list.as_str());
                if self.fields.len() > 0 {
                    push_str(&mut s, ", ");
                }
                push_str(&mut s, "PRIMARY KEY (");
                push_str(&mut s, self.primary_key.as_str());
                push_str(&mut s, "))");
            },
            TableType::Edge(from, to) => {
                push_str(&mut s, "(FROM ");
                push_str(&mut s, from.as_str());
                push_str(&mut s, " TO ");
                push_str(&mut s, to.as_str());
                if self.fields.len() > 0 {
                    push_str(&mut s, ", ");
                    push_str(&mut s, list.as_str());
                }
                push_str(&mut s, ")");
            },
        }
        assert(s@ =~= fields_clause(self@));
        s
    }

    /// The DDL statement that declares this table.
    pub fn generate_create_statement(&self) -> (r: String)
        ensures
            r@ == table_ddl(self@),
    {
        let mut s = String::new();
        push_str(&mut s, "CREATE ");
        match &self.table_type {
            TableType::Node => push_str(&mut s, "NODE"),
            TableType::Edge(..) => push_str(&mut s, "REL"),
        }
        push_str(&mut s, " TABLE ");
        push_str(&mut s, self.name.as_str());
        push_str(&mut s, " ");
        let f = self.generate_fields();
        push_str(&mut s, f.as_str());
        push_str(&mut s, ";");
        assert(s@ =~= table_ddl(self@));
        s
    }
}

/// The table a name starts with: no fields, `id` as primary key.
pub open spec fn new_table(name: Seq<char>, kind: TableTypeV) -> TableV {
    TableV { name, kind, fields: Seq::empty(), primary_key: id_key() }
}

/// Tables by name, in name order.
pub type TablesV = Seq<(Seq<char>, TableV)>;

/// One node folded into the tables: its label's node table, created on
/// first sight, takes in its properties. A label that names an edge table
/// is refused.
pub open spec fn node_step(ts: TablesV, n: NodeV) -> Result<TablesV, ErrorV> {
    let t = match get_entry(ts, n.name) {
        Some(t) => t,
        None => new_table(n.name, TableTypeV::Node),
    };
    if t.kind is Node {
        Ok(insert_entry(ts, n.name, TableV { fields: merge_entries(t.fields, n.props), ..t }))
    } else {
        Err(ErrorV::SchemaKindConflict(n.name))
    }
}

/// One edge folded into the tables: its label's edge table, created on
/// first sight between the labels of this edge's ends, takes in its
/// properties, if any. A label that names a node table is refused.
pub open spec fn edge_step(ts: TablesV, e: EdgeV) -> Result<TablesV, ErrorV> {
    let t = match get_entry(ts, e.name) {
        Some(t) => t,
        None => new_table(e.name, TableTypeV::Edge(e.from.0, e.to.0)),
    };
    if t.kind is Edge {
        let fields = match e.props {
            Some(p) => merge_entries(t.fields, p),
            None => t.fields,
        };
        Ok(insert_entry(ts, e.name, TableV { fields, ..t }))
    } else {
        Err(ErrorV::SchemaKindConflict(e.name))
    }
}

/// One statement folded into the tables: left node, edge, right node.
pub open spec fn triple_step(ts: TablesV, t: TripleV) -> Result<TablesV, ErrorV> {
    match node_step(ts, t.left) {
        Err(e) => Err(e),
        Ok(a) => match edge_step(a, t.edge) {
            Err(e) => Err(e),
            Ok(b) => node_step(b, t.right),
        },
    }
}

/// The tables of a list of statements, folded in order.
pub open spec fn extract_spec(triples: Seq<TripleV>) -> Result<TablesV, ErrorV>
    decreases triples.len(),
{
    if triples.len() == 0 {
        Ok(Seq::empty())
    } else {
        match extract_spec(triples.drop_last()) {
            Err(e) => Err(e),
            Ok(ts) => triple_step(ts, triples.last()),
        }
    }
}

/// The tables of one kind, in the order given.
pub open spec fn tables_of_kind(ts: TablesV, edges: bool) -> Seq<TableV>
    decreases ts.len(),
{
    if ts.len() == 0 {
        Seq::empty()
    } else {
        let prev = tables_of_kind(ts.drop_last(), edges);
        if (ts.last().1.kind is Edge) == edges {
            prev.push(ts.last().1)
        } else {
            prev
        }
    }
}

/// The order in which tables are declared: node tables, then edge tables,
/// each by name.
pub open spec fn emission_order(ts: TablesV) -> Seq<TableV> {
    tables_of_kind(ts, false) + tables_of_kind(ts, true)
}

/// Every table of one kind has a name below `k` when every key is.
proof fn lemma_kind_below(ts: TablesV, edges: bool, k: Seq<char>)
    requires
        forall|a: int| 0 <= a < ts.len() ==> str_lt(#[trigger] ts[a].0, k) && ts[a].0 == ts[a].1.name,
    ensures
        forall|i: int| 0 <= i < tables_of_kind(ts, edges).len() ==> str_lt(#[trigger] tables_of_kind(ts, edges)[i].name, k),
    decreases ts.len(),
{
    if ts.len() > 0 {
        let d = ts.drop_last();
        assert forall|a: int| 0 <= a < d.len() implies str_lt(#[trigger] d[a].0, k) && d[a].0 == d[a].1.name by {
            assert(d[a] == ts[a]);
        }
        lemma_kind_below(d, edges, k);
        assert(str_lt(ts[ts.len() - 1].0, k));
    }
}

/// The tables of one kind are all of that kind, and in name order.
proof fn lemma_kind_sorted(ts: TablesV, edges: bool)
    requires
        keys_sorted(ts),
        forall|a: int| 0 <= a < ts.len() ==> (#[trigger] ts[a]).0 == ts[a].1.name,
    ensures
        forall|i: int| 0 <= i < tables_of_kind(ts, edges).len() ==> (#[trigger] tables_of_kind(ts, edges)[i].kind is Edge) == edges,
        forall|i: int, j: int| 0 <= i < j < tables_of_kind(ts, edges).len() ==> str_lt(
            #[trigger] tables_of_kind(ts, edges)[i].name,
            #[trigger] tables_of_kind(ts, edges)[j].name,
        ),
    decreases ts.len(),
{
    if ts.len() > 0 {
        let d = ts.drop_last();
        let last = ts[ts.len() - 1];
        assert forall|a: int| 0 <= a < d.len() implies (#[trigger] d[a]).0 == d[a].1.name by {
            assert(d[a] == ts[a]);
        }
        assert(keys_sorted(d)) by {
            assert forall|a: int, b: int| 0 <= a < b < d.len() implies str_lt(#[trigger] d[a].0, #[trigger] d[b].0) by {
                assert(d[a] == ts[a] && d[b] == ts[b]);
            }
        }
        lemma_kind_sorted(d, edges);
        assert forall|a: int| 0 <= a < d.len() implies str_lt(#[trigger] d[a].0, last.0) && d[a].0 == d[a].1.name by {
            assert(d[a] == ts[a]);
        }
        lemma_kind_below(d, edges, last.0);
    }
}

/// The inferred schema: tables by name.
pub struct Schema {
    tables: Vec<Table>,
}

impl View for Schema {
    type V = TablesV;

    closed spec fn view(&self) -> TablesV {
        self.tables@.map_values(|t: Table| (t.name@, t@))
    }
}

impl Schema {
    /// Well formed: tables in name order, each with its fields in name order.
    pub open spec fn wf(&self) -> bool {
        &&& keys_sorted(self@)
        &&& forall|i: int| 0 <= i < self@.len() ==> keys_sorted(#[trigger] self@[i].1.fields)
        &&& forall|i: int| 0 <= i < self@.len() ==> (#[trigger] self@[i]).0 == self@[i].1.name
    }

    /// No tables.
    pub fn new() -> (r: Schema)
        ensures
            r@ == TablesV::empty(),
            r.wf(),
    {
        let r = Schema { tables: Vec::new() };
        assert(r@ =~= TablesV::empty());
        r
    }

    /// The tables in declaration order: node tables, then edge tables, each
    /// sorted by name.
    pub fn iter_table(&self) -> (r: Vec<&Table>)
        requires
            self.wf(),
        ensures
            r@.map_values(|t: &Table| t@) == emission_order(self@),
            forall|i: int, j: int| 0 <= i < j < r@.len() ==> (#[trigger] r@[i]@.kind is Edge) ==> (#[trigger] r@[j]@.kind is Edge),
            forall|i: int, j: int| 0 <= i < j < r@.len() && (r@[i]@.kind is Edge) == (r@[j]@.kind is Edge)
                ==> str_lt(#[trigger] r@[i]@.name, #[trigger] r@[j]@.name),
    {
        let mut r: Vec<&Table> = Vec::new();
        let mut pass: usize = 0;
        let ghost nodes = tables_of_kind(self@, false);
        while pass < 2
            invariant
                pass <= 2,
                nodes == tables_of_kind(self@, false),
                pass == 0 ==> r@.map_values(|t: &Table| t@) == Seq::<TableV>::empty(),
                pass == 1 ==> r@.map_values(|t: &Table| t@) == nodes,
                pass == 2 ==> r@.map_values(|t: &Table| t@) == emission_order(self@),
            decreases 2 - pass,
        {
            let edges = pass == 1;
            let ghost before = r@.map_values(|t: &Table| t@);
            let mut i: usize = 0;
            assert(self@.subrange(0, 0) =~= TablesV::empty());
            while i < self.tables.len()
                invariant
                    i <= self.tables@.len(),
                    r@.map_values(|t: &Table| t@) == before + tables_of_kind(self@.subrange(0, i as int), edges),
                    pass < 2,
                    edges == (pass == 1),
                    nodes == tables_of_kind(self@, false),
                    pass == 0 ==> before == Seq::<TableV>::empty(),
                    pass == 1 ==> before == nodes,
                decreases self.tables@.len() - i,
            {
                let t = &self.tables[i];
                let is_edge = match t.table_type {
                    TableType::Edge(..) => true,
                    TableType::Node => false,
                };
                proof {
                    let s = self@.subrange(0, i + 1);
                    assert(s.drop_last() =~= self@.subrange(0, i as int));
                    assert(s.last() == (t.name@, t@));
                }
                let ghost prev = r@.map_values(|t: &Table| t@);
                if is_edge == edges {
                    r.push(t);
                    assert(r@.map_values(|t: &Table| t@) =~= prev.push(t@));
                } else {
                    assert(r@.map_values(|t: &Table| t@) =~= prev);
                }
                assert(r@.map_values(|t: &Table| t@) =~= before + tables_of_kind(self@.subrange(0, i + 1), edges));
                i = i + 1;
            }
            assert(self@.subrange(0, self@.len() as int) =~= self@);
            if pass == 0 {
                assert(before + tables_of_kind(self@, edges) =~= nodes);
            } else {
                assert(before + tables_of_kind(self@, edges) =~= emission_order(self@));
            }
            pass = pass + 1;
        }
        proof {
            let m = r@.map_values(|t: &Table| t@);
            let e = tables_of_kind(self@, true);
            lemma_kind_sorted(self@, false);
            lemma_kind_sorted(self@, true);
            assert forall|i: int, j: int| 0 <= i < j < r@.len() && (#[trigger] r@[i]@.kind is Edge) implies (#[trigger] r@[j]@.kind is Edge) by {
                assert(m[i] == r@[i]@ && m[j] == r@[j]@);
                if j < nodes.len() {
                    assert(m[i] == nodes[i] && m[j] == nodes[j]);
                } else {
                    assert(m[j] == e[j - nodes.len()]);
                }
            }
            assert forall|i: int, j: int| 0 <= i < j < r@.len() && (r@[i]@.kind is Edge) == (r@[j]@.kind is Edge)
                implies str_lt(#[trigger] r@[i]@.name, #[trigger] r@[j]@.name) by {
                assert(m[i] == r@[i]@ && m[j] == r@[j]@);
                if j < nodes.len() {
                    assert(m[i] == nodes[i] && m[j] == nodes[j]);
                } else if i >= nodes.len() {
                    assert(m[i] == e[i - nodes.len()] && m[j] == e[j - nodes.len()]);
                } else {
                    assert(m[i] == nodes[i] && m[j] == e[j - nodes.len()]);
                }
            }
        }
        r
    }

    /// Where `name` is, or would be placed, among the tables.
    fn position(&self, name: &String) -> (r: (usize, bool))
        requires
            self.wf(),
        ensures
            r.0 <= self.tables@.len(),
            r.1 ==> r.0 < self.tables@.len() && get_entry(self@, name@) == Some(self@[r.0 as int].1),
            r.1 ==> self@[r.0 as int].0 == name@,
            !r.1 ==> get_entry(self@, name@) is None,
            forall|v: TableV| r.1 ==> #[trigger] insert_entry(self@, name@, v) == self@.update(r.0 as int, (name@, v)),
            forall|v: TableV| !r.1 ==> #[trigger] insert_entry(self@, name@, v) == self@.insert(r.0 as int, (name@, v)),
    {
        let ghost s = self@;
        let mut p: usize = 0;
        while p < self.tables.len() && less_than(&self.tables[p].name, name)
            invariant
                s == self@,
                keys_sorted(s),
                p <= self.tables@.len(),
                forall|i: int| 0 <= i < p ==> str_lt(#[trigger] s[i].0, name@),
            decreases self.tables@.len() - p,
        {
            p = p + 1;
        }
        let found = p < self.tables.len() && self.tables[p].name == *name;
        proof {
            lemma_get_entry_at(s, name@, p as int);
            assert forall|v: TableV| true implies {
                &&& found ==> #[trigger] insert_entry(s, name@, v) == s.update(p as int, (name@, v))
                &&& !found ==> insert_entry(s, name@, v) == s.insert(p as int, (name@, v))
            } by {
                lemma_insert_entry_at(s, name@, v, p as int);
            }
        }
        (p, found)
    }

    /// The table called `table_name`, if there is one.
    pub fn get(&self, table_name: &str) -> (r: Option<&Table>)
        requires
            self.wf(),
        ensures
            match r {
                Some(t) => get_entry(self@, table_name@) == Some(t@),
                None => get_entry(self@, table_name@) is None,
            },
    {
        let name = String::from_str(table_name);
        let (p, found) = self.position(&name);
        if found {
            Some(&self.tables[p])
        } else {
            None
        }
    }

    /// The DDL statements of all tables, in declaration order.
    pub fn generate_ddl(&self) -> (r: Vec<String>)
        requires
            self.wf(),
        ensures
            r@.map_values(|s: String| s@) == emission_order(self@).map_values(|t: TableV| table_ddl(t)),
    {
        let tables = self.iter_table();
        let ghost order = emission_order(self@);
        let mut r: Vec<String> = Vec::new();
        let mut i: usize = 0;
        while i < tables.len()
            invariant
                i <= tables@.len(),
                tables@.map_values(|t: &Table| t@) == order,
                r@.map_values(|s: String| s@) == order.subrange(0, i as int).map_values(|t: TableV| table_ddl(t)),
            decreases tables@.len() - i,
        {
            let s = tables[i].generate_create_statement();
            let ghost prev = r@.map_values(|s: String| s@);
            assert(order[i as int] == tables@[i as int]@);
            r.push(s);
            assert(r@.map_values(|s: String| s@) =~= prev.push(s@));
            assert(r@.map_values(|s: String| s@) =~= order.subrange(0, i + 1).map_values(|t: TableV| table_ddl(t)));
            i = i + 1;
        }
        assert(order.subrange(0, i as int) =~= order);
        r
    }

    /// Puts `table` at position `p`: in place of the table there if
    /// `replace`, else before it.
    fn put(&mut self, p: usize, replace: bool, table: Table)
        requires
            old(self).wf(),
            p <= old(self).tables@.len(),
            replace ==> p < old(self).tables@.len(),
            replace ==> insert_entry(old(self)@, table.name@, table@) == old(self)@.update(p as int, (table.name@, table@)),
            !replace ==> insert_entry(old(self)@, table.name@, table@) == old(self)@.insert(p as int, (table.name@, table@)),
            table.wf(),
        ensures
            final(self).wf(),
            final(self)@ == insert_entry(old(self)@, table.name@, table@),
    {
        let ghost s = self@;
        let ghost kv = (table.name@, table@);
        proof {
            lemma_insert_entry_sorted(s, table.name@, table@);
            lemma_insert_entry_membership(s, table.name@, table@);
        }
        if replace {
            self.tables.remove(p);
        }
        self.tables.insert(p, table);
        if replace {
            assert(self@ =~= s.update(p as int, kv));
        } else {
            assert(self@ =~= s.insert(p as int, kv));
        }
    }
}

/// Each table after `insert_entry` is the one inserted or one that was there.
proof fn lemma_insert_entry_membership(s: TablesV, k: Seq<char>, v: TableV)
    ensures
        forall|i: int| 0 <= i < insert_entry(s, k, v).len() ==> #[trigger] insert_entry(s, k, v)[i] == (k, v)
            || exists|j: int| 0 <= j < s.len() && s[j] == insert_entry(s, k, v)[i],
    decreases s.len(),
{
    let r = insert_entry(s, k, v);
    if s.len() > 0 {
        let t = s.drop_first();
        lemma_insert_entry_membership(t, k, v);
        assert forall|i: int| 0 <= i < r.len() implies #[trigger] r[i] == (k, v)
            || exists|j: int| 0 <= j < s.len() && s[j] == r[i] by {
            if s[0].0 == k {
                if i > 0 {
                    assert(s[i] == r[i]);
                }
            } else if str_lt(k, s[0].0) {
                if i > 0 {
                    assert(s[i - 1] == r[i]);
                }
            } else {
                if i == 0 {
                    assert(s[0] == r[0]);
                } else {
                    let rt = insert_entry(t, k, v);
                    assert(r[i] == rt[i - 1]);
                    if rt[i - 1] != (k, v) {
                        let j = choose|j: int| 0 <= j < t.len() && t[j] == rt[i - 1];
                        assert(s[j + 1] == r[i]);
                    }
                }
            }
        }
    }
}

/// Folds one node into the schema.
pub fn extract_table_from_node(schema: &mut Schema, node: &Node) -> (r: Result<(), CypherError>)
    requires
        old(schema).wf(),
    ensures
        match r {
            Ok(()) => node_step(old(schema)@, node@) == Ok::<_, ErrorV>(final(schema)@) && final(schema).wf(),
            Err(e) => node_step(old(schema)@, node@) is Err && node_step(old(schema)@, node@)->Err_0 == e@,
        },
{
    let (p, found) = schema.position(&node.name);
    let mut table = if found {
        if let TableType::Edge(..) = schema.tables[p].table_type {
            return Err(CypherError::SchemaKindConflict { name: node.name.clone() });
        }
        schema.tables[p].copy()
    } else {
        let t = Table {
            name: node.name.clone(),
            table_type: TableType::Node,
            fields: Vec::new(),
            primary_key: String::from_str("id"),
        };
        proof {
            reveal_strlit("id");
            assert("id"@ =~= id_key());
            assert(t.fields@.map_values(|f: Field| f@) =~= Seq::<FieldV>::empty());
        }
        t
    };
    proof {
        if found {
            assert(schema@[p as int].1 == schema.tables@[p as int]@);
            assert(keys_sorted(schema@[p as int].1.fields));
        }
    }
    table.merge_properties(node.properties());
    schema.put(p, found, table);
    Ok(())
}

/// Folds one edge into the schema.
pub fn extract_schema_from_edge(schema: &mut Schema, edge: &Edge) -> (r: Result<(), CypherError>)
    requires
        old(schema).wf(),
    ensures
        match r {
            Ok(()) => edge_step(old(schema)@, edge@) == Ok::<_, ErrorV>(final(schema)@) && final(schema).wf(),
            Err(e) => edge_step(old(schema)@, edge@) is Err && edge_step(old(schema)@, edge@)->Err_0 == e@,
        },
{
    let (p, found) = schema.position(&edge.name);
    let mut table = if found {
        if let TableType::Node = schema.tables[p].table_type {
            return Err(CypherError::SchemaKindConflict { name: edge.name.clone() });
        }
        schema.tables[p].copy()
    } else {
        let t = Table {
            name: edge.name.clone(),
            table_type: TableType::Edge(edge.from.0.clone(), edge.to.0.clone()),
            fields: Vec::new(),
            primary_key: String::from_str("id"),
        };
        proof {
            reveal_strlit("id");
            assert("id"@ =~= id_key());
            assert(t.fields@.map_values(|f: Field| f@) =~= Seq::<FieldV>::empty());
        }
        t
    };
    proof {
        if found {
            assert(schema@[p as int].1 == schema.tables@[p as int]@);
            assert(keys_sorted(schema@[p as int].1.fields));
        }
    }
    match &edge.properties {
        Some(props) => table.merge_properties(props),
        None => {},
    }
    schema.put(p, found, table);
    Ok(())
}

/// Once a prefix of the statements is refused, so is the whole list, with
/// the same error.
proof fn lemma_extract_prefix_err(ts: Seq<TripleV>, n: int)
    requires
        0 <= n <= ts.len(),
        extract_spec(ts.subrange(0, n)) is Err,
    ensures
        extract_spec(ts) == extract_spec(ts.subrange(0, n)),
    decreases ts.len() - n,
{
    if n < ts.len() {
        assert(ts.subrange(0, n + 1).drop_last() =~= ts.subrange(0, n));
        lemma_extract_prefix_err(ts, n + 1);
    } else {
        assert(ts.subrange(0, n) =~= ts);
    }
}

/// Infers the schema of a list of statements: each statement folds in its
/// left node, its edge and its right node, in input order. A label used both
/// for nodes and for edges is refused.
pub fn extract_schema(triples: &[Triple]) -> (r: Result<Schema, CypherError>)
    ensures
        match r {
            Ok(s) => extract_spec(triples@.map_values(|t: Triple| t@)) == Ok::<_, ErrorV>(s@) && s.wf(),
            Err(e) => extract_spec(triples@.map_values(|t: Triple| t@)) is Err
                && extract_spec(triples@.map_values(|t: Triple| t@))->Err_0 == e@,
        },
{
    let ghost all = triples@.map_values(|t: Triple| t@);
    let mut schema = Schema::new();
    let mut i: usize = 0;
    assert(all.subrange(0, 0) =~= Seq::<TripleV>::empty());
    while i < triples.len()
        invariant
            i <= triples@.len(),
            all == triples@.map_values(|t: Triple| t@),
            schema.wf(),
            extract_spec(all.subrange(0, i as int)) == Ok::<_, ErrorV>(schema@),
        decreases triples@.len() - i,
    {
        let t = &triples[i];
        proof {
            let s = all.subrange(0, i + 1);
            assert(s.drop_last() =~= all.subrange(0, i as int));
            assert(s.last() == t@);
        }
        match extract_table_from_node(&mut schema, &t.left) {
            Err(e) => {
                proof {
                    lemma_extract_prefix_err(all, i + 1);
                }
                return Err(e);
            },
            Ok(()) => {},
        }
        match extract_schema_from_edge(&mut schema, &t.edge) {
            Err(e) => {
                proof {
                    lemma_extract_prefix_err(all, i + 1);
                }
                return Err(e);
            },
            Ok(()) => {},
        }
        match extract_table_from_node(&mut schema, &t.right) {
            Err(e) => {
                proof {
                    lemma_extract_prefix_err(all, i + 1);
                }
                return Err(e);
            },
            Ok(()) => {},
        }
        i = i + 1;
    }
    assert(all.subrange(0, i as int) =~= all);
    Ok(schema)
}

} // verus!
