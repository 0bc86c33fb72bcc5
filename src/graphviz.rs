//! Attributes of a rendered graph, written as the attribute blocks of a
//! graph description in the dot language.
use vstd::prelude::*;

use crate::text::push_str;

verus! {

/// The attributes of the whole drawing.
pub struct Config {
    pub name: String,
    pub graph: GraphConfig,
    pub node: NodeConfig,
    pub edge: EdgeConfig,
}

/// The attribute blocks of a config.
pub open spec fn config_text(c: &Config) -> Seq<char> {
    graph_text(&c.graph) + node_text(&c.node) + edge_text(&c.edge)
}

impl Default for Config {
    fn default() -> (r: Config)
        ensures
            r.name@ == "G"@,
            r.graph.charset@ == "UTF-8"@,
            r.graph.layout@ == "dot"@,
            r.node.shape@ == "box"@,
            r.edge.arrowhead@ == "normal"@,
    {
        Config {
            name: String::from_str("G"),
            graph: GraphConfig::default(),
            node: NodeConfig::default(),
            edge: EdgeConfig::default(),
        }
    }
}

impl Config {
    /// Appends the graph, node and edge attribute blocks.
    pub fn write(&self, file: &mut String)
        ensures
            final(file)@ == old(file)@ + config_text(self),
    {
        self.graph.write(file);
        self.node.write(file);
        self.edge.write(file);
        assert(final(file)@ =~= old(file)@ + config_text(self));
    }
}

/// Graph-wide attributes.
pub struct GraphConfig {
    pub charset: String,
    pub layout: String,
}

pub open spec fn graph_text(g: &GraphConfig) -> Seq<char> {
    "  graph [\n"@ + "    charset=\""@ + g.charset@ + "\";\n"@ + "    layout="@ + g.layout@ + ";\n"@ + "  ]\n"@
}

impl Default for GraphConfig {
    fn default() -> (r: GraphConfig)
        ensures
            r.charset@ == "UTF-8"@,
            r.layout@ == "dot"@,
    {
        GraphConfig { charset: String::from_str("UTF-8"), layout: String::from_str("dot") }
    }
}

impl GraphConfig {
    /// Appends `graph [ charset="..."; layout=...; ]`, one item a line.
    pub fn write(&self, file: &mut String)
        ensures
            final(file)@ == old(file)@ + graph_text(self),
    {
        push_str(file, "  graph [\n");
        push_str(file, "    charset=\"");
        push_str(file, self.charset.as_str());
        push_str(file, "\";\n");
        push_str(file, "    layout=");
        push_str(file, self.layout.as_str());
        push_str(file, ";\n");
        push_str(file, "  ]\n");
        assert(final(file)@ =~= old(file)@ + graph_text(self));
    }
}

/// Attributes of every node.
pub struct NodeConfig {
    pub shape: String,
}

pub open spec fn node_text(n: &NodeConfig) -> Seq<char> {
    "  node [\n"@ + "    shape=\""@ + n.shape@ + "\";\n"@ + "  ]\n"@
}

impl Default for NodeConfig {
    fn default() -> (r: NodeConfig)
        ensures
            r.shape@ == "box"@,
    {
        NodeConfig { shape: String::from_str("box") }
    }
}

impl NodeConfig {
    /// Appends `node [ shape="..."; ]`, one item a line.
    pub fn write(&self, file: &mut String)
        ensures
            final(file)@ == old(file)@ + node_text(self),
    {
        push_str(file, "  node [\n");
        push_str(file, "    shape=\"");
        push_str(file, self.shape.as_str());
        push_str(file, "\";\n");
        push_str(file, "  ]\n");
        assert(final(file)@ =~= old(file)@ + node_text(self));
    }
}

/// Attributes of every edge.
pub struct EdgeConfig {
    pub arrowhead: String,
}

pub open spec fn edge_text(e: &EdgeConfig) -> Seq<char> {
    "  edge [\n"@ + "    arrowhead=\""@ + e.arrowhead@ + "\";\n"@ + "  ]\n"@
}

impl Default for EdgeConfig {
    fn default() -> (r: EdgeConfig)
        ensures
            r.arrowhead@ == "normal"@,
    {
        EdgeConfig { arrowhead: String::from_str("normal") }
    }
}

impl EdgeConfig {
    /// Appends `edge [ arrowhead="..."; ]`, one item a line.
    pub fn write(&self, file: &mut String)
        ensures
            final(file)@ == old(file)@ + edge_text(self),
    {
        push_str(file, "  edge [\n");
        push_str(file, "    arrowhead=\"");
        push_str(file, self.arrowhead.as_str());
        push_str(file, "\";\n");
        push_str(file, "  ]\n");
        assert(final(file)@ =~= old(file)@ + edge_text(self));
    }
}

} // verus!
