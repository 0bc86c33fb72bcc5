//! Rows for bulk loading: the nodes and the edges of a list of statements,
//! grouped by label, one comma-separated row each.
use vstd::prelude::*;

use crate::cypher::{edge_row_text, row_text, Triple, TripleV};
use crate::text::same_text;

verus! {

/// A label with its rows.
pub type RowSetV = (Seq<char>, Seq<Seq<char>>);

/// The rows of one label, in the order they were first seen.
#[derive(Debug)]
pub struct RowSet {
    pub name: String,
    pub rows: Vec<String>,
}

impl View for RowSet {
    type V = RowSetV;

    open spec fn view(&self) -> RowSetV {
        (self.name@, self.rows@.map_values(|s: String| s@))
    }
}

/// The row sets after adding `row` under `name`: the label's set is made on
/// first sight, after the others; a row already in it is not repeated.
pub open spec fn add_row(groups: Seq<RowSetV>, name: Seq<char>, row: Seq<char>) -> Seq<RowSetV>
    decreases groups.len(),
{
    if groups.len() == 0 {
        seq![(name, seq![row])]
    } else if groups[0].0 == name {
        seq![(name, if groups[0].1.contains(row) { groups[0].1 } else { groups[0].1.push(row) })]
            + groups.drop_first()
    } else {
        seq![groups[0]] + add_row(groups.drop_first(), name, row)
    }
}

/// The node row sets and the edge row sets of a list of statements: for
/// each statement its left node, its right node, then its edge.
pub open spec fn export_spec(ts: Seq<TripleV>) -> (Seq<RowSetV>, Seq<RowSetV>)
    decreases ts.len(),
{
    if ts.len() == 0 {
        (Seq::empty(), Seq::empty())
    } else {
        let (nodes, edges) = export_spec(ts.drop_last());
        let t = ts.last();
        (
            add_row(add_row(nodes, t.left.name, row_text(t.left.props)), t.right.name, row_text(t.right.props)),
            add_row(edges, t.edge.name, edge_row_text(t.edge)),
        )
    }
}

proof fn lemma_add_row_at(g: Seq<RowSetV>, name: Seq<char>, row: Seq<char>, p: int)
    requires
        0 <= p <= g.len(),
        forall|j: int| 0 <= j < p ==> (#[trigger] g[j]).0 != name,
        p < g.len() ==> g[p].0 == name,
    ensures
        p < g.len() ==> add_row(g, name, row) == g.update(
            p,
            (name, if g[p].1.contains(row) { g[p].1 } else { g[p].1.push(row) }),
        ),
        p == g.len() ==> add_row(g, name, row) == g.push((name, seq![row])),
    decreases p,
{
    if p == 0 {
        if g.len() > 0 {
            let v = (name, if g[0].1.contains(row) { g[0].1 } else { g[0].1.push(row) });
            assert(seq![v] + g.drop_first() =~= g.update(0, v));
        } else {
            assert(seq![(name, seq![row])] =~= g.push((name, seq![row])));
        }
    } else {
        let t = g.drop_first();
        assert forall|j: int| 0 <= j < p - 1 implies (#[trigger] t[j]).0 != name by {
            assert(t[j] == g[j + 1]);
        }
        assert(g[0].0 != name);
        lemma_add_row_at(t, name, row, p - 1);
        if p < g.len() {
            let v = (name, if g[p].1.contains(row) { g[p].1 } else { g[p].1.push(row) });
            assert(t[p - 1] == g[p]);
            assert(seq![g[0]] + t.update(p - 1, v) =~= g.update(p, v));
        } else {
            assert(seq![g[0]] + t.push((name, seq![row])) =~= g.push((name, seq![row])));
        }
    }
}

/// Adds `row` under `name`, unless that label already has it.
fn add_row_to(groups: &mut Vec<RowSet>, name: &String, row: String)
    ensures
        final(groups)@.map_values(|g: RowSet| g@) == add_row(old(groups)@.map_values(|g: RowSet| g@), name@, row@),
{
    let ghost g = groups@.map_values(|g: RowSet| g@);
    let mut p: usize = 0;
    while p < groups.len() && !same_text(groups[p].name.as_str(), name.as_str())
        invariant
            g == groups@.map_values(|g: RowSet| g@),
            p <= groups@.len(),
            forall|j: int| 0 <= j < p ==> (#[trigger] g[j]).0 != name@,
        decreases groups@.len() - p,
    {
        p = p + 1;
    }
    proof {
        lemma_add_row_at(g, name@, row@, p as int);
    }
    if p == groups.len() {
        let mut rows: Vec<String> = Vec::new();
        let ghost r = row@;
        rows.push(row);
        let set = RowSet { name: name.clone(), rows };
        assert(set@.1 =~= seq![r]);
        groups.push(set);
        assert(groups@.map_values(|g: RowSet| g@) =~= g.push((name@, seq![r])));
    } else {
        let mut set = groups.remove(p);
        let ghost rows = set@.1;
        assert(rows == g[p as int].1);
        let mut k: usize = 0;
        let mut seen = false;
        while k < set.rows.len()
            invariant
                k <= set.rows@.len(),
                rows == set.rows@.map_values(|s: String| s@),
                seen ==> rows.contains(row@),
                !seen ==> forall|j: int| 0 <= j < k ==> (#[trigger] rows[j]) != row@,
            decreases set.rows@.len() - k,
        {
            if !seen && same_text(set.rows[k].as_str(), row.as_str()) {
                seen = true;
                assert(rows[k as int] == row@);
            }
            k = k + 1;
        }
        let ghost r = row@;
        if !seen {
            set.rows.push(row);
            assert(set@.1 =~= rows.push(r));
        }
        let ghost v = set@;
        groups.insert(p, set);
        assert(groups@.map_values(|g: RowSet| g@) =~= g.update(p as int, v));
    }
}

/// The row sets for bulk loading: `(nodes, edges)`. A node row holds the
/// values of its properties in key order; an edge row holds the primary
/// values of its two ends, then its property values. Labels come in the
/// order they are first seen, rows likewise, and no row is repeated.
pub fn export_rows(triples: &[Triple]) -> (r: (Vec<RowSet>, Vec<RowSet>))
    ensures
        (r.0@.map_values(|g: RowSet| g@), r.1@.map_values(|g: RowSet| g@)) == export_spec(
            triples@.map_values(|t: Triple| t@),
        ),
{
    let ghost all = triples@.map_values(|t: Triple| t@);
    let mut nodes: Vec<RowSet> = Vec::new();
    let mut edges: Vec<RowSet> = Vec::new();
    let mut i: usize = 0;
    assert(all.subrange(0, 0) =~= Seq::<TripleV>::empty());
    assert(nodes@.map_values(|g: RowSet| g@) =~= Seq::<RowSetV>::empty());
    assert(edges@.map_values(|g: RowSet| g@) =~= Seq::<RowSetV>::empty());
    while i < triples.len()
        invariant
            i <= triples@.len(),
            all == triples@.map_values(|t: Triple| t@),
            (nodes@.map_values(|g: RowSet| g@), edges@.map_values(|g: RowSet| g@)) == export_spec(
                all.subrange(0, i as int),
            ),
        decreases triples@.len() - i,
    {
        let t = &triples[i];
        proof {
            let s = all.subrange(0, i + 1);
            assert(s.drop_last() =~= all.subrange(0, i as int));
            assert(s.last() == t@);
        }
        add_row_to(&mut nodes, &t.left.name, t.left.export_row());
        add_row_to(&mut nodes, &t.right.name, t.right.export_row());
        add_row_to(&mut edges, &t.edge.name, t.edge.export_row());
        i = i + 1;
    }
    assert(all.subrange(0, i as int) =~= all);
    (nodes, edges)
}

} // verus!
