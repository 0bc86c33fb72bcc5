//! A dependency graph as a description in the dot language.
use vstd::prelude::*;

use crate::graphviz::{config_text, Config};
use crate::text::{nat_digits, push_index, push_str};
use crate::{Graph, GraphV};

verus! {

/// `    N_i [label="name"];` for node `i`.
pub open spec fn node_line(i: int, name: Seq<char>) -> Seq<char> {
    "    N_"@ + nat_digits(i as nat) + " [label=\""@ + name + "\"];\n"@
}

/// The node lines of the first `n` nodes.
pub open spec fn node_lines(nodes: Seq<Seq<char>>, n: int) -> Seq<char>
    decreases n,
{
    if n <= 0 {
        Seq::empty()
    } else {
        node_lines(nodes, n - 1) + node_line(n - 1, nodes[n - 1])
    }
}

/// `    N_from -> N_to;` for each edge, in order.
pub open spec fn edge_lines(edges: Seq<(usize, usize)>) -> Seq<char>
    decreases edges.len(),
{
    if edges.len() == 0 {
        Seq::empty()
    } else {
        edge_lines(edges.drop_last()) + "    N_"@ + nat_digits(edges.last().0 as nat) + " -> N_"@
            + nat_digits(edges.last().1 as nat) + ";\n"@
    }
}

/// The whole description: `digraph name {`, the attribute blocks, the
/// nodes, the edges, and `}`.
pub open spec fn dot_text(c: &Config, g: GraphV) -> Seq<char> {
    "digraph "@ + c.name@ + " {\n"@ + config_text(c) + node_lines(g.nodes, g.nodes.len() as int)
        + edge_lines(g.edges) + "}\n"@
}

/// Appends the dot description of `graph`, drawn with `graph_config`.
pub fn write(graph_config: &Config, graph: &Graph, file: &mut String)
    ensures
        final(file)@ == old(file)@ + dot_text(graph_config, graph@),
{
    push_str(file, "digraph ");
    push_str(file, graph_config.name.as_str());
    push_str(file, " {\n");
    graph_config.write(file);
    let ghost head = file@;
    let nodes = graph.nodes();
    let n = nodes.len();
    let mut i: usize = 0;
    while i < n
        invariant
            i <= n,
            n == graph@.nodes.len(),
            nodes@ == graph@.nodes,
            file@ == head + node_lines(graph@.nodes, i as int),
        decreases n - i,
    {
        push_str(file, "    N_");
        push_index(file, i);
        push_str(file, " [label=\"");
        match nodes.get(i) {
            Some(name) => push_str(file, name),
            None => {},
        }
        push_str(file, "\"];\n");
        assert(file@ =~= head + node_lines(graph@.nodes, i + 1));
        i = i + 1;
    }
    let ghost mid = file@;
    let edges = graph.edges();
    let mut k: usize = 0;
    assert(graph@.edges.subrange(0, 0) =~= Seq::<(usize, usize)>::empty());
    while k < edges.len()
        invariant
            k <= edges@.len(),
            edges@.map_values(|e: crate::Edge| (e.from, e.to)) == graph@.edges,
            file@ == mid + edge_lines(graph@.edges.subrange(0, k as int)),
        decreases edges@.len() - k,
    {
        proof {
            let s = graph@.edges.subrange(0, k + 1);
            assert(s.drop_last() =~= graph@.edges.subrange(0, k as int));
            assert(s.last() == (edges@[k as int].from, edges@[k as int].to));
        }
        push_str(file, "    N_");
        push_index(file, edges[k].from);
        push_str(file, " -> N_");
        push_index(file, edges[k].to);
        push_str(file, ";\n");
        assert(file@ =~= mid + edge_lines(graph@.edges.subrange(0, k + 1)));
        k = k + 1;
    }
    assert(graph@.edges.subrange(0, k as int) =~= graph@.edges);
    push_str(file, "}\n");
    assert(final(file)@ =~= old(file)@ + dot_text(graph_config, graph@));
}

} // verus!
