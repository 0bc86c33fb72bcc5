//! Properties of the parser and of schema inference as a whole.
use vstd::prelude::*;

use crate::cypher::export::{export_spec, RowSetV};
use crate::cypher::parser::{at, body_at, node_at, number_at, parse_spec};
use crate::cypher::schema::{edge_step, emission_order, extract_spec, node_step, table_ddl, TableV};
use crate::cypher::{get_entry, id_key, lemma_get_insert_entry, value_text, EdgeV, ErrorV, NodeV, ValueV};

verus! {

/// The DDL statements that an input gives, in declaration order, or the
/// error that refuses it.
pub open spec fn input_ddl(s: Seq<char>) -> Result<Seq<Seq<char>>, ErrorV> {
    match parse_spec(s) {
        Err(e) => Err(e),
        Ok(ts) => match extract_spec(ts) {
            Err(e) => Err(e),
            Ok(tables) => Ok(emission_order(tables).map_values(|t: TableV| table_ddl(t))),
        },
    }
}

/// The export rows that an input gives, or the error that refuses it.
pub open spec fn input_export(s: Seq<char>) -> Result<(Seq<RowSetV>, Seq<RowSetV>), ErrorV> {
    match parse_spec(s) {
        Err(e) => Err(e),
        Ok(ts) => Ok(export_spec(ts)),
    }
}

/// Parsing and inferring twice from the same input gives the same DDL and
/// the same export rows: `parse`, `extract_schema`, `Schema::generate_ddl`
/// and `export_rows` each return exactly what these functions of the input
/// say.
pub proof fn lemma_deterministic(a: Seq<char>, b: Seq<char>)
    requires
        a == b,
    ensures
        input_ddl(a) == input_ddl(b),
        input_export(a) == input_export(b),
{
}

/// A node pattern is accepted only with a non-null `id`, which becomes its
/// primary value; one that is well formed but has no such `id` is refused
/// with a missing-key error at its start, never given a default.
pub proof fn lemma_node_needs_id(s: Seq<char>, i: int)
    requires
        0 <= i,
    ensures
        node_at(s, i) is Ok ==> get_entry(node_at(s, i)->Ok_0.0.props, id_key()) == Some(
            Some(node_at(s, i)->Ok_0.0.primary),
        ),
        at(s, i, '(') && body_at(s, i + 1) is Ok && at(s, body_at(s, i + 1)->Ok_0.1, ')') && !(get_entry(
            body_at(s, i + 1)->Ok_0.0.1,
            id_key(),
        ) is Some && get_entry(body_at(s, i + 1)->Ok_0.0.1, id_key())->Some_0 is Some) ==> node_at(s, i)
            == Err::<(NodeV, int), ErrorV>(ErrorV::MissingPrimaryKey(i)),
{
}

/// A double keeps the exact text it was written with, and is rendered
/// with that text.
pub proof fn lemma_double_text_kept(s: Seq<char>, i: int)
    ensures
        number_at(s, i) is Ok && number_at(s, i)->Ok_0.0 is Some && number_at(s, i)->Ok_0.0->Some_0 is Double
            ==> ({
            let (v, e) = number_at(s, i)->Ok_0;
            &&& v->Some_0 == ValueV::Double(s.subrange(i, e))
            &&& value_text(v->Some_0) == s.subrange(i, e)
        }),
{
}

/// A label that names a node table cannot then name an edge, and the other
/// way round: the second use is refused with a kind conflict.
pub proof fn lemma_kind_conflict(ts: Seq<(Seq<char>, TableV)>, n: NodeV, e: EdgeV)
    requires
        n.name == e.name,
    ensures
        node_step(ts, n) is Ok ==> edge_step(node_step(ts, n)->Ok_0, e) == Err::<Seq<(Seq<char>, TableV)>, ErrorV>(
            ErrorV::SchemaKindConflict(e.name),
        ),
        edge_step(ts, e) is Ok ==> node_step(edge_step(ts, e)->Ok_0, n) == Err::<Seq<(Seq<char>, TableV)>, ErrorV>(
            ErrorV::SchemaKindConflict(n.name),
        ),
{
    if node_step(ts, n) is Ok {
        let t = match get_entry(ts, n.name) {
            Some(t) => t,
            None => crate::cypher::schema::new_table(n.name, crate::cypher::schema::TableTypeV::Node),
        };
        let nt = TableV { fields: crate::cypher::schema::merge_entries(t.fields, n.props), ..t };
        lemma_get_insert_entry(ts, n.name, nt, n.name);
    }
    if edge_step(ts, e) is Ok {
        let t = match get_entry(ts, e.name) {
            Some(t) => t,
            None => crate::cypher::schema::new_table(e.name, crate::cypher::schema::TableTypeV::Edge(e.from.0, e.to.0)),
        };
        let fields = match e.props {
            Some(p) => crate::cypher::schema::merge_entries(t.fields, p),
            None => t.fields,
        };
        let et = TableV { fields, ..t };
        lemma_get_insert_entry(ts, e.name, et, e.name);
    }
}

} // verus!
