use deptree::fileutil::get_extension;
use deptree::graphviz::{Config, EdgeConfig, GraphConfig, NodeConfig};
use deptree::{dot, parse_line, Edge, Graph};

#[test]
fn graph_config_writes_blocks() {
    let mut s = String::new();
    GraphConfig::default().write(&mut s);
    assert_eq!(s, "  graph [\n    charset=\"UTF-8\";\n    layout=dot;\n  ]\n");
    let mut s = String::new();
    NodeConfig::default().write(&mut s);
    assert_eq!(s, "  node [\n    shape=\"box\";\n  ]\n");
    let mut s = String::new();
    EdgeConfig::default().write(&mut s);
    assert_eq!(s, "  edge [\n    arrowhead=\"normal\";\n  ]\n");
}

#[test]
fn dot_description_of_a_graph() {
    let mut graph = Graph::new();
    let a = graph.insert_node("a");
    let b = graph.insert_node("b");
    assert_eq!(graph.insert_node("a"), a);
    graph.add_edge(Edge { from: a, to: b, label: None });
    graph.add_edge(Edge { from: b, to: a, label: Some("x".to_string()) });
    let config = Config { name: "deps".to_string(), ..Default::default() };
    let mut s = String::new();
    dot::write(&config, &graph, &mut s);
    let expected = "digraph deps {\n".to_string()
        + "  graph [\n    charset=\"UTF-8\";\n    layout=dot;\n  ]\n"
        + "  node [\n    shape=\"box\";\n  ]\n"
        + "  edge [\n    arrowhead=\"normal\";\n  ]\n"
        + "    N_0 [label=\"a\"];\n    N_1 [label=\"b\"];\n"
        + "    N_0 -> N_1;\n    N_1 -> N_0;\n}\n";
    assert_eq!(s, expected);
}

#[test]
fn extension_after_last_dot() {
    assert_eq!(get_extension("graph.svg"), "svg");
    assert_eq!(get_extension("a.b.png"), "png");
    assert_eq!(get_extension("noext"), "noext");
    assert_eq!(get_extension("trailing."), "");
}

#[test]
fn line_with_label() {
    assert_eq!(parse_line("a->b:foo", "->", ":"), Some(("a", "b", Some("foo"))));
    assert_eq!(parse_line("a->b", "->", ":"), Some(("a", "b", None)));
    assert_eq!(parse_line("a->b->c:x:y", "->", ":"), Some(("a", "b", Some("x"))));
    assert_eq!(parse_line("ab:c->d", "->", ":"), None);
    assert_eq!(parse_line("", "->", ":"), None);
}
