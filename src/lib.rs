//! Parsing of graph-creation statements and inference of a typed schema from
//! them, with the dependency graph that the `graph` command renders.
pub mod cypher;
pub mod dot;
pub mod fileutil;
pub mod graphviz;
pub mod text;

use vstd::prelude::*;
use vstd::string::StrSliceExecFns;

use crate::text::chars_of;

verus! {

/// The index of a node in a [`Graph`].
pub type NodeId = usize;

/// A dependency between two nodes, with an optional label.
#[derive(Debug)]
pub struct Edge {
    pub from: NodeId,
    pub to: NodeId,
    pub label: Option<String>,
}

/// Node names, each stored once, identified by their position.
#[derive(Debug)]
pub struct Arena {
    nodes: Vec<String>,
}

impl View for Arena {
    type V = Seq<Seq<char>>;

    closed spec fn view(&self) -> Seq<Seq<char>> {
        self.nodes@.map_values(|s: String| s@)
    }
}

/// The position of the first occurrence of `x` in `s`, if any.
pub open spec fn index_of(s: Seq<Seq<char>>, x: Seq<char>) -> Option<int>
    decreases s.len(),
{
    if s.len() == 0 {
        None
    } else {
        match index_of(s.drop_last(), x) {
            Some(i) => Some(i),
            None => if s.last() == x {
                Some(s.len() - 1)
            } else {
                None
            },
        }
    }
}

/// No name is stored twice.
pub open spec fn all_distinct(s: Seq<Seq<char>>) -> bool {
    forall|i: int, j: int| 0 <= i < j < s.len() ==> s[i] != s[j]
}

proof fn lemma_index_of(s: Seq<Seq<char>>, x: Seq<char>, n: int)
    requires
        0 <= n <= s.len(),
        forall|j: int| 0 <= j < n ==> s[j] != x,
        n < s.len() ==> s[n] == x,
    ensures
        index_of(s, x) == if n < s.len() { Some(n) } else { None::<int> },
    decreases s.len(),
{
    if s.len() > 0 {
        let d = s.drop_last();
        if n < s.len() - 1 {
            lemma_index_of(d, x, n);
        } else {
            lemma_index_of(d, x, d.len() as int);
        }
    }
}

impl Arena {
    pub fn new() -> (r: Arena)
        ensures
            r@ == Seq::<Seq<char>>::empty(),
    {
        let r = Arena { nodes: Vec::new() };
        assert(r@ =~= Seq::<Seq<char>>::empty());
        r
    }

    /// The id of `node`: its position if it is stored, else the next
    /// position, where it is then stored.
    pub fn insert(&mut self, node: String) -> (r: NodeId)
        requires
            all_distinct(old(self)@),
        ensures
            all_distinct(final(self)@),
            match index_of(old(self)@, node@) {
                Some(i) => r == i && final(self)@ == old(self)@,
                None => r == old(self)@.len() && final(self)@ == old(self)@.push(node@),
            },
    {
        let ghost s = self@;
        let mut i: usize = 0;
        while i < self.nodes.len() && !crate::text::same_text(self.nodes[i].as_str(), node.as_str())
            invariant
                s == self@,
                i <= self.nodes@.len(),
                forall|j: int| 0 <= j < i ==> s[j] != node@,
            decreases self.nodes@.len() - i,
        {
            i = i + 1;
        }
        proof {
            lemma_index_of(s, node@, i as int);
        }
        if i < self.nodes.len() {
            i
        } else {
            let ghost x = node@;
            self.nodes.push(node);
            assert(self@ =~= s.push(x));
            i
        }
    }

    /// The name with id `id`, if there is one.
    pub fn get(&self, id: NodeId) -> (r: Option<&str>)
        ensures
            match r {
                Some(t) => id < self@.len() && t@ == self@[id as int],
                None => id >= self@.len(),
            },
    {
        if id < self.nodes.len() {
            Some(self.nodes[id].as_str())
        } else {
            None
        }
    }

    /// The number of names.
    pub fn len(&self) -> (r: usize)
        ensures
            r == self@.len(),
    {
        self.nodes.len()
    }
}

/// The mathematical model of a [`Graph`]: node names by id, and edges as
/// `(from, to)` pairs.
pub struct GraphV {
    pub nodes: Seq<Seq<char>>,
    pub edges: Seq<(NodeId, NodeId)>,
}

/// A dependency graph: named nodes, each stored once, and edges between them.
pub struct Graph {
    node_arena: Arena,
    edges: Vec<Edge>,
}

impl View for Graph {
    type V = GraphV;

    closed spec fn view(&self) -> GraphV {
        GraphV { nodes: self.node_arena@, edges: self.edges@.map_values(|e: Edge| (e.from, e.to)) }
    }
}

impl Default for Graph {
    fn default() -> (r: Graph)
        ensures
            r@.nodes == Seq::<Seq<char>>::empty(),
            r@.edges == Seq::<(NodeId, NodeId)>::empty(),
            r.wf(),
    {
        Graph::new()
    }
}

impl Graph {
    /// Well formed: no node name is stored twice.
    pub open spec fn wf(&self) -> bool {
        all_distinct(self@.nodes)
    }

    pub fn new() -> (r: Graph)
        ensures
            r@.nodes == Seq::<Seq<char>>::empty(),
            r@.edges == Seq::<(NodeId, NodeId)>::empty(),
            r.wf(),
    {
        let r = Graph { node_arena: Arena::new(), edges: Vec::new() };
        assert(r@.edges =~= Seq::<(NodeId, NodeId)>::empty());
        r
    }

    /// The id of the node named `node`, which is added if it is new.
    pub fn insert_node(&mut self, node: &str) -> (r: NodeId)
        requires
            old(self).wf(),
        ensures
            final(self).wf(),
            final(self)@.edges == old(self)@.edges,
            match index_of(old(self)@.nodes, node@) {
                Some(i) => r == i && final(self)@.nodes == old(self)@.nodes,
                None => r == old(self)@.nodes.len() && final(self)@.nodes == old(self)@.nodes.push(node@),
            },
    {
        self.node_arena.insert(String::from_str(node))
    }

    /// Adds an edge.
    pub fn add_edge(&mut self, edge: Edge)
        ensures
            final(self)@.nodes == old(self)@.nodes,
            final(self)@.edges == old(self)@.edges.push((edge.from, edge.to)),
    {
        let ghost e = (edge.from, edge.to);
        let ghost s = self@.edges;
        self.edges.push(edge);
        assert(self@.edges =~= s.push(e));
    }

    /// The node names, by id.
    pub fn nodes(&self) -> (r: &Arena)
        ensures
            r@ == self@.nodes,
    {
        &self.node_arena
    }

    /// The edges, in the order they were added.
    pub fn edges(&self) -> (r: &[Edge])
        ensures
            r@.map_values(|e: Edge| (e.from, e.to)) == self@.edges,
    {
        self.edges.as_slice()
    }
}

/// Whether `d` occurs in `s` at `j`.
pub open spec fn occurs_at(s: Seq<char>, d: Seq<char>, j: int) -> bool {
    0 <= j && j + d.len() <= s.len() && s.subrange(j, j + d.len()) == d
}

/// The first position at or after `i` where `d` occurs, or -1.
pub open spec fn find_from(s: Seq<char>, d: Seq<char>, i: int) -> int
    decreases s.len() + 1 - i,
{
    if i < 0 || i + d.len() > s.len() {
        -1
    } else if occurs_at(s, d, i) {
        i
    } else {
        find_from(s, d, i + 1)
    }
}

/// The part of `s` before the first `d`; all of `s` without one.
pub open spec fn first_piece(s: Seq<char>, d: Seq<char>) -> Seq<char> {
    let m = find_from(s, d, 0);
    if m < 0 {
        s
    } else {
        s.subrange(0, m)
    }
}

/// The part of `s` between the first `d` and the next one (or the end);
/// `None` without a first `d`.
pub open spec fn second_piece(s: Seq<char>, d: Seq<char>) -> Option<Seq<char>> {
    let m = find_from(s, d, 0);
    if m < 0 {
        None
    } else {
        let a = m + d.len();
        let n = find_from(s, d, a);
        Some(if n < 0 { s.subrange(a, s.len() as int) } else { s.subrange(a, n) })
    }
}

/// A line `from<edge>to<label>label`: the two node names and the label, if
/// any; `None` where the edge delimiter is missing.
pub open spec fn parse_line_spec(line: Seq<char>, edge: Seq<char>, label: Seq<char>) -> Option<
    (Seq<char>, Seq<char>, Option<Seq<char>>),
> {
    let e = first_piece(line, label);
    match second_piece(e, edge) {
        None => None,
        Some(to) => Some((first_piece(e, edge), to, second_piece(line, label))),
    }
}

proof fn lemma_find_from_bounds(s: Seq<char>, d: Seq<char>, i: int)
    ensures
        find_from(s, d, i) == -1 || (i <= find_from(s, d, i) && occurs_at(s, d, find_from(s, d, i))),
    decreases s.len() + 1 - i,
{
    if !(i < 0 || i + d.len() > s.len()) && !occurs_at(s, d, i) {
        lemma_find_from_bounds(s, d, i + 1);
    }
}

/// A search confined to a prefix finds what it finds in the whole.
proof fn lemma_find_from_prefix(s: Seq<char>, d: Seq<char>, i: int, e: int)
    requires
        0 <= i,
        0 <= e <= s.len(),
    ensures
        find_from(s.subrange(0, e), d, i) == if find_from(s, d, i) >= 0 && find_from(s, d, i) + d.len() <= e {
            find_from(s, d, i)
        } else {
            -1
        },
    decreases s.len() + 1 - i,
{
    let p = s.subrange(0, e);
    lemma_find_from_bounds(s, d, i);
    if i + d.len() > s.len() {
    } else if i + d.len() > e {
        lemma_find_from_bounds(s, d, i);
    } else {
        assert(p.subrange(i, i + d.len()) =~= s.subrange(i, i + d.len()));
        if !occurs_at(s, d, i) {
            lemma_find_from_prefix(s, d, i + 1, e);
        }
    }
}

/// The first position at or after `i` where `d` occurs in `v`, or `None`.
fn find_delimiter(v: &Vec<char>, d: &Vec<char>, i: usize) -> (r: Option<usize>)
    requires
        i <= v@.len(),
    ensures
        match r {
            Some(m) => m as int == find_from(v@, d@, i as int),
            None => find_from(v@, d@, i as int) == -1,
        },
{
    let len = v.len();
    let mut j = i;
    while j < len && d.len() <= len - j
        invariant
            len == v@.len(),
            i <= j <= v@.len(),
            find_from(v@, d@, i as int) == find_from(v@, d@, j as int),
        decreases v@.len() - j,
    {
        let mut k: usize = 0;
        while k < d.len() && v[j + k] == d[k]
            invariant
                len == v@.len(),
                k <= d@.len(),
                j + d@.len() <= v@.len(),
                forall|m: int| 0 <= m < k ==> v@[j + m] == d@[m],
            decreases d@.len() - k,
        {
            k = k + 1;
        }
        if k == d.len() {
            assert(v@.subrange(j as int, j + d@.len()) =~= d@);
            return Some(j);
        }
        assert(v@.subrange(j as int, j + d@.len())[k as int] != d@[k as int]);
        j = j + 1;
    }
    if j == v.len() && d.len() == 0 {
        assert(v@.subrange(j as int, j as int) =~= d@);
        return Some(j);
    }
    None
}

/// Splits a line `from<edge>to<label>label` into the two node names and the
/// label, if any; `None` where the edge delimiter is missing. Only the text
/// before the second label delimiter, and between the first two edge
/// delimiters, counts.
pub fn parse_line<'a>(line: &'a str, edge_delim: &str, label_delim: &str) -> (r: Option<(&'a str, &'a str, Option<&'a str>)>)
    requires
        edge_delim@.len() > 0,
        label_delim@.len() > 0,
    ensures
        match r {
            Some((from, to, label)) => parse_line_spec(line@, edge_delim@, label_delim@) == Some(
                (from@, to@, match label {
                    Some(l) => Some(l@),
                    None => None::<Seq<char>>,
                }),
            ),
            None => parse_line_spec(line@, edge_delim@, label_delim@) is None,
        },
{
    let v = chars_of(line);
    let ed = chars_of(edge_delim);
    let ld = chars_of(label_delim);
    let len = v.len();
    proof {
        lemma_find_from_bounds(v@, ld@, 0);
    }
    // the part before the first label delimiter, and the label after it
    let (edge_end, label) = match find_delimiter(&v, &ld, 0) {
        None => (len, None),
        Some(m) => {
            let a = m + ld.len();
            proof {
                lemma_find_from_bounds(v@, ld@, a as int);
            }
            let b = match find_delimiter(&v, &ld, a) {
                None => len,
                Some(n) => n,
            };
            (m, Some(line.substring_char(a, b)))
        },
    };
    let ghost e = first_piece(v@, ld@);
    assert(e =~= v@.subrange(0, edge_end as int));
    proof {
        lemma_find_from_bounds(v@, ed@, 0);
        lemma_find_from_prefix(v@, ed@, 0, edge_end as int);
    }
    let m = match find_delimiter(&v, &ed, 0) {
        None => {
            return None;
        },
        Some(m) => m,
    };
    if m + ed.len() > edge_end {
        return None;
    }
    let a = m + ed.len();
    proof {
        lemma_find_from_bounds(v@, ed@, a as int);
        lemma_find_from_prefix(v@, ed@, a as int, edge_end as int);
    }
    let b = match find_delimiter(&v, &ed, a) {
        None => edge_end,
        Some(n) => if n + ed.len() <= edge_end {
            n
        } else {
            edge_end
        },
    };
    assert(e.subrange(0, m as int) =~= v@.subrange(0, m as int));
    assert(e.subrange(a as int, b as int) =~= v@.subrange(a as int, b as int));
    Some((line.substring_char(0, m), line.substring_char(a, b), label))
}

} // verus!
