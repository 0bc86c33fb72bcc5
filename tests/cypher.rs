use deptree::cypher::{
    export_rows, extract_schema, line_index, parse, CypherError, FieldType, Properties, Schema, TableType,
    Value,
};

fn schema_of(input: &str) -> Schema {
    let triples = parse(input).unwrap();
    extract_schema(&triples).unwrap()
}

fn ddl_of(input: &str) -> Vec<String> {
    schema_of(input).generate_ddl()
}

#[test]
fn end_to_end_person_knows() {
    let input = "(:Person {id:1,name:\"Alice\"}) -[:KNOWS]-> (:Person {id:2,name:\"Bob\"});";
    let triples = parse(input).unwrap();
    assert_eq!(triples.len(), 1);
    let schema = extract_schema(&triples).unwrap();
    assert_eq!(
        schema.generate_ddl(),
        vec![
            "CREATE NODE TABLE Person (id INT64, name STRING, PRIMARY KEY (id));".to_string(),
            "CREATE REL TABLE KNOWS (FROM Person TO Person);".to_string(),
        ]
    );
    let person = schema.get("Person").unwrap();
    assert_eq!(person.primary_key, "id");
    assert_eq!(person.table_type, TableType::Node);
    let fields: Vec<(String, FieldType, bool)> = person
        .iter_fields()
        .iter()
        .map(|f| (f.name.clone(), f.field_type, f.nullable))
        .collect();
    assert_eq!(
        fields,
        vec![
            ("id".to_string(), FieldType::Integer, false),
            ("name".to_string(), FieldType::String, false),
        ]
    );
    let knows = schema.get("KNOWS").unwrap();
    assert_eq!(
        knows.table_type,
        TableType::Edge("Person".to_string(), "Person".to_string())
    );
    assert!(knows.fields.is_empty());

    let (nodes, edges) = export_rows(&triples);
    assert_eq!(nodes.len(), 1);
    assert_eq!(nodes[0].name, "Person");
    assert_eq!(nodes[0].rows, vec!["1,\"Alice\"".to_string(), "2,\"Bob\"".to_string()]);
    assert_eq!(edges.len(), 1);
    assert_eq!(edges[0].name, "KNOWS");
    assert_eq!(edges[0].rows, vec!["1,2".to_string()]);
}

#[test]
fn parsing_twice_gives_identical_output() {
    let input = "(:B {id:2, x:3.50}) <-[:R {w:true}]- (:A {id:'a'}), (:C {id:1}) -[:S]-> (:A {id:'b', y:null});";
    let first = parse(input).unwrap();
    let second = parse(input).unwrap();
    assert_eq!(
        extract_schema(&first).unwrap().generate_ddl(),
        extract_schema(&second).unwrap().generate_ddl()
    );
    let (n1, e1) = export_rows(&first);
    let (n2, e2) = export_rows(&second);
    let rows = |sets: &Vec<deptree::cypher::RowSet>| -> Vec<(String, Vec<String>)> {
        sets.iter().map(|s| (s.name.clone(), s.rows.clone())).collect()
    };
    assert_eq!(rows(&n1), rows(&n2));
    assert_eq!(rows(&e1), rows(&e2));
}

#[test]
fn tables_and_fields_are_sorted_by_name() {
    let input = "(:Zed {id:1, zz:1, aa:2, mm:3}) -[:Yrel]-> (:Alpha {id:2});\n\
                 (:Mid {id:3}) -[:Arel {b:1, a:2}]-> (:Zed {id:4});";
    let ddl = ddl_of(input);
    assert_eq!(
        ddl,
        vec![
            "CREATE NODE TABLE Alpha (id INT64, PRIMARY KEY (id));".to_string(),
            "CREATE NODE TABLE Mid (id INT64, PRIMARY KEY (id));".to_string(),
            "CREATE NODE TABLE Zed (aa INT64, id INT64, mm INT64, zz INT64, PRIMARY KEY (id));"
                .to_string(),
            "CREATE REL TABLE Arel (FROM Mid TO Zed, a INT64, b INT64);".to_string(),
            "CREATE REL TABLE Yrel (FROM Zed TO Alpha);".to_string(),
        ]
    );
    let schema = schema_of(input);
    let names: Vec<String> = schema.iter_table().iter().map(|t| t.name.clone()).collect();
    assert_eq!(names, vec!["Alpha", "Mid", "Zed", "Arel", "Yrel"]);
}

#[test]
fn node_without_id_is_missing_primary_key() {
    let r = parse("(:P {name:\"x\"}) -[:R]-> (:P {id:1});");
    assert_eq!(r.unwrap_err(), CypherError::MissingPrimaryKey { pos: 0 });
    let r = parse("(:P {id:1}) -[:R]-> (:Q {id:null});");
    assert_eq!(r.unwrap_err(), CypherError::MissingPrimaryKey { pos: 20 });
    let r = parse("(:P) -[:R]-> (:Q {id:1});");
    assert_eq!(r.unwrap_err(), CypherError::MissingPrimaryKey { pos: 0 });
}

#[test]
fn double_text_is_preserved() {
    let triples = parse("(:P {id:1, x:3.140}) -[:R]-> (:P {id:2, x:-0.50});").unwrap();
    let x = triples[0].left.properties().get("x").unwrap();
    assert_eq!(x, &Some(Value::Double("3.140".to_string())));
    assert_eq!(x.as_ref().unwrap().to_string(), "3.140");
    assert_eq!(triples[0].right.export_row(), "2,-0.50");
    let schema = extract_schema(&triples).unwrap();
    let f = &schema.get("P").unwrap().fields[1];
    assert_eq!(f.name, "x");
    assert_eq!(f.field_type, FieldType::Double);
}

#[test]
fn first_seen_type_wins() {
    let schema = schema_of("(:P {id:1,x:1}) -[:R]-> (:Q {id:9}); (:P {id:2,x:\"a\"}) -[:R]-> (:Q {id:9});");
    let p = schema.get("P").unwrap();
    let x = p.fields.iter().find(|f| f.name == "x").unwrap();
    assert_eq!(x.field_type, FieldType::Integer);
    assert!(!x.nullable);
}

#[test]
fn nullability_accumulates() {
    let schema = schema_of("(:P {id:1,x:null}) -[:R]-> (:Q {id:9}); (:P {id:2,x:1}) -[:R]-> (:Q {id:9});");
    let p = schema.get("P").unwrap();
    let x = p.fields.iter().find(|f| f.name == "x").unwrap();
    // the first occurrence decides the type, even when it is null
    assert_eq!(x.field_type, FieldType::String);
    assert!(x.nullable);

    let schema = schema_of("(:P {id:1,x:1}) -[:R]-> (:Q {id:9}); (:P {id:2,x:null}) -[:R]-> (:Q {id:9});");
    let x = schema.get("P").unwrap().fields.iter().find(|f| f.name == "x").unwrap();
    assert_eq!(x.field_type, FieldType::Integer);
    assert!(x.nullable);
}

#[test]
fn label_used_for_node_and_edge_conflicts() {
    let triples = parse("(:Foo {id:1}) -[:R]-> (:B {id:2}); (:A {id:1}) -[:Foo]-> (:B {id:2});").unwrap();
    let err = extract_schema(&triples).err().unwrap();
    assert_eq!(err, CypherError::SchemaKindConflict { name: "Foo".to_string() });

    let triples = parse("(:A {id:1}) -[:Foo]-> (:B {id:2}); (:Foo {id:1}) -[:R]-> (:B {id:2});").unwrap();
    let err = extract_schema(&triples).err().unwrap();
    assert_eq!(err, CypherError::SchemaKindConflict { name: "Foo".to_string() });
}

#[test]
fn left_arrow_reverses_the_triple() {
    let triples = parse("(:A {id:1}) <-[:R {w:2}]- (:B {id:'b'})").unwrap();
    let t = &triples[0];
    assert_eq!(t.left.name, "B");
    assert_eq!(t.right.name, "A");
    assert_eq!(t.edge.from, ("B".to_string(), Value::String("b".to_string())));
    assert_eq!(t.edge.to, ("A".to_string(), Value::Integer(1)));
    assert_eq!(t.edge.export_row(), "\"b\",1,2");
    assert_eq!(
        t.generate_create_statement(),
        "CREATE (:B{id:\"b\"}) -[:R{w:2}]-> (:A{id:1});"
    );
}

#[test]
fn edge_without_properties_has_none() {
    let triples = parse("(:A {id:1})-[:R {}]->(:B {id:2}), (:A {id:1})-[R]->(:B {id:3})").unwrap();
    assert_eq!(triples.len(), 2);
    assert!(triples[0].edge.properties.is_none());
    assert!(triples[1].edge.properties.is_none());
    assert_eq!(triples[1].edge.name, "R");
    assert_eq!(triples[0].edge.to_string(), "[:R]");
    assert_eq!(triples[0].edge.export_row(), "1,2");
}

#[test]
fn label_with_or_without_colon() {
    let triples = parse("( A {id:1} ) -[ R ]-> ( : B {id:2} )").unwrap();
    assert_eq!(triples[0].left.name, "A");
    assert_eq!(triples[0].right.name, "B");
    assert_eq!(triples[0].edge.name, "R");
}

#[test]
fn grammar_errors_give_positions() {
    assert_eq!(parse("(:A {id:1}) -> (:B {id:2})").unwrap_err(), CypherError::Grammar { pos: 13 });
    assert_eq!(parse("(:A {id:1}) -[:R]-> (:B {id:2}) x").unwrap_err(), CypherError::Grammar { pos: 32 });
    assert_eq!(parse("(:A {id 1})").unwrap_err(), CypherError::Grammar { pos: 8 });
    assert_eq!(parse("(:A {id:1}) -[:R]- (:B {id:2})").unwrap_err(), CypherError::Grammar { pos: 17 });
    assert_eq!(parse("(:A {id:'x})").unwrap_err(), CypherError::Grammar { pos: 8 });
    assert_eq!(parse("(:A {id:maybe})").unwrap_err(), CypherError::Grammar { pos: 8 });
}

#[test]
fn map_literal_is_unsupported() {
    assert_eq!(
        parse("(:A {id:1, m:{a:1}}) -[:R]-> (:B {id:2})").unwrap_err(),
        CypherError::UnsupportedLiteral { pos: 13 }
    );
}

#[test]
fn integers_must_fit_in_64_bits() {
    let t = parse("(:A {id:9223372036854775807}) -[:R]-> (:B {id:-9223372036854775808})").unwrap();
    assert_eq!(t[0].left.get_primary_value(), &Value::Integer(i64::MAX));
    assert_eq!(t[0].right.get_primary_value(), &Value::Integer(i64::MIN));
    assert_eq!(t[0].right.export_row(), "-9223372036854775808");
    assert_eq!(
        parse("(:A {id:9223372036854775808}) -[:R]-> (:B {id:1})").unwrap_err(),
        CypherError::Grammar { pos: 8 }
    );
    assert_eq!(
        parse("(:A {id:1}) -[:R]-> (:B {id:-99999999999999999999})").unwrap_err(),
        CypherError::Grammar { pos: 28 }
    );
}

#[test]
fn empty_input_has_no_statements() {
    assert!(parse("").unwrap().is_empty());
    assert!(parse("  \n\t ").unwrap().is_empty());
    assert_eq!(ddl_of(""), Vec::<String>::new());
}

#[test]
fn repeated_key_keeps_last_value_and_null_rendering() {
    let t = parse("(:A {id:1, b:true, b:false, c:null}) -[:R]-> (:B {id:2})").unwrap();
    let props = t[0].left.properties();
    assert_eq!(props.len(), 3);
    assert_eq!(props.get("b"), Some(&Some(Value::Bool(false))));
    assert_eq!(props.get("c"), Some(&None));
    assert_eq!(props.get("d"), None);
    assert_eq!(t[0].left.to_string(), "(:A{b:false,id:1})");
    assert_eq!(t[0].left.export_row(), "false,,1");
    let keys: Vec<&str> = t[0].left.iter().iter().map(|(k, _)| k.as_str()).collect();
    assert_eq!(keys, vec!["b", "c", "id"]);
}

#[test]
fn repeated_nodes_are_exported_once() {
    let t = parse("(:A {id:1}) -[:R]-> (:B {id:2}); (:A {id:1}) -[:R]-> (:B {id:3}); (:A {id:1}) -[:R]-> (:B {id:2})").unwrap();
    let (nodes, edges) = export_rows(&t);
    assert_eq!(nodes.len(), 2);
    assert_eq!(nodes[0].name, "A");
    assert_eq!(nodes[0].rows, vec!["1".to_string()]);
    assert_eq!(nodes[1].name, "B");
    assert_eq!(nodes[1].rows, vec!["2".to_string(), "3".to_string()]);
    assert_eq!(edges[0].rows, vec!["1,2".to_string(), "1,3".to_string()]);
}

#[test]
fn nullable_edge_fields_and_types() {
    let ddl = ddl_of("(:A {id:1}) -[:R {s:'x', d:1.5, b:true, n:null}]-> (:B {id:2})");
    assert_eq!(
        ddl[2],
        "CREATE REL TABLE R (FROM A TO B, b BOOLEAN, d DOUBLE, n STRING, s STRING);"
    );
}

#[test]
fn properties_insert_keeps_key_order() {
    let mut p = Properties::new();
    p.insert("b".to_string(), Some(Value::Integer(2)));
    p.insert("a".to_string(), Some(Value::String("x".to_string())));
    p.insert("b".to_string(), None);
    let keys: Vec<&str> = p.iter().iter().map(|(k, _)| k.as_str()).collect();
    assert_eq!(keys, vec!["a", "b"]);
    assert_eq!(p.get("b"), Some(&None));
}

#[test]
fn value_text_forms() {
    assert_eq!(Value::Integer(-42).to_string(), "-42");
    assert_eq!(Value::Integer(0).to_string(), "0");
    assert_eq!(Value::Bool(true).to_string(), "true");
    assert_eq!(Value::String("hi".to_string()).to_string(), "\"hi\"");
    assert_eq!(FieldType::Boolean.to_string(), "BOOLEAN");
}

#[test]
fn error_positions_map_to_lines() {
    let input = "(:A {id:1}) -[:R]-> (:B {id:2});\n(:A {id:1}) -[:R]-> (:C);";
    let err = parse(input).unwrap_err();
    assert_eq!(err, CypherError::MissingPrimaryKey { pos: 53 });
    assert_eq!(line_index(input, 53), 1);
    assert_eq!(line_index(input, 0), 0);
    assert_eq!(line_index(input, 1000), 1);
}
