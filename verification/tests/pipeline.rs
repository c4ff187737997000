use json_commit::ast::{Node, Primitive};
use json_commit::commit::batch_commit::{AggregateCommitment, BatchCommit};
use json_commit::commit::generator::PrimitiveEntry;
use json_commit::commit::leaves::has_distinct_keys;
use json_commit::commit::single_commit::{blind, SingleCommit};
use json_commit::commit::traverse::traverse;
use json_commit::errors::{EncodingError, JcError, LeafError};
use json_commit::group::GroupElement;
use json_commit::path::PathStep;
use json_commit::scalar::Scalar;

fn number_of(n: &serde_json::Number) -> Primitive {
    if let Some(u) = n.as_u64() {
        Primitive::Integer(u as i128)
    } else if let Some(i) = n.as_i64() {
        Primitive::Integer(i as i128)
    } else {
        Primitive::Real(n.as_f64().unwrap_or(f64::NAN).to_bits())
    }
}

fn node_of(value: &serde_json::Value) -> Node {
    match value {
        serde_json::Value::Null => Node::Primitive(Primitive::Null),
        serde_json::Value::Bool(b) => Node::Primitive(Primitive::Bool(*b)),
        serde_json::Value::Number(n) => Node::Primitive(number_of(n)),
        serde_json::Value::String(s) => Node::Primitive(Primitive::Text(s.clone())),
        serde_json::Value::Array(items) => Node::Array(items.iter().map(node_of).collect()),
        serde_json::Value::Object(fields) => {
            Node::Object(fields.iter().map(|(k, v)| (k.clone(), node_of(v))).collect())
        }
    }
}

fn parse(text: &str) -> Node {
    node_of(&serde_json::from_str::<serde_json::Value>(text).expect("parse"))
}

fn key(k: &str) -> PathStep {
    PathStep::Key(k.to_string())
}

fn num(n: i128) -> Node {
    Node::Primitive(Primitive::Integer(n))
}

fn text(s: &str) -> Node {
    Node::Primitive(Primitive::Text(s.to_string()))
}

fn object(fields: Vec<(&str, Node)>) -> Node {
    Node::Object(fields.into_iter().map(|(k, v)| (k.to_string(), v)).collect())
}

fn commit(node: &Node) -> AggregateCommitment {
    BatchCommit::commit(node, None).expect("commit")
}

#[test]
fn parse_and_atomic_pieces_object() {
    let ast = parse(r#"{"b":1,"a":2,"big":[1,2]}"#);
    println!("ast: {:?}", ast);
    let entries = traverse(&ast);
    assert_eq!(entries.len(), 4);
    let mut paths: Vec<Vec<PathStep>> = entries.iter().map(|e| e.path.clone()).collect();
    paths.sort_by_key(|p| format!("{:?}", p));
    assert!(paths.contains(&vec![key("a")]));
    assert!(paths.contains(&vec![key("b")]));
    assert!(paths.contains(&vec![key("big"), PathStep::Index(0)]));
    assert!(paths.contains(&vec![key("big"), PathStep::Index(1)]));
}

#[test]
fn parse_array_and_primitives() {
    let ast = parse(r#"[1, {"key": ["y", "z"]}, null]"#);
    println!("ast: {:?}", ast);
    assert_eq!(
        ast,
        Node::Array(vec![
            num(1),
            object(vec![("key", Node::Array(vec![text("y"), text("z")]))]),
            Node::Primitive(Primitive::Null),
        ])
    );
}

#[test]
fn canonical_with_offsets_matches_atomic_pieces() {
    let ast = parse(
        r#"[{"account":{"id":1,"name":"Alice"}},{"account":{"id":2,"name":"Bob"}}]"#,
    );
    println!("ast: {:?}", ast);
    let entries = traverse(&ast);
    let paths: Vec<Vec<PathStep>> = entries.iter().map(|e| e.path.clone()).collect();
    assert_eq!(
        paths,
        vec![
            vec![PathStep::Index(0), key("account"), key("id")],
            vec![PathStep::Index(0), key("account"), key("name")],
            vec![PathStep::Index(1), key("account"), key("id")],
            vec![PathStep::Index(1), key("account"), key("name")],
        ]
    );
    assert_eq!(entries[3].value, Primitive::Text("Bob".to_string()));
}

#[test]
fn test_batch_commit_concurrent() {
    let ast = parse(r#"{"user": {"name": "Alice", "ids": [101, 102]}}"#);
    let entries = BatchCommit::entries(&ast);
    assert_eq!(entries.len(), 3);
    let whole = BatchCommit::commit(&ast, None).expect("commit");
    let singles: Vec<GroupElement> = entries
        .iter()
        .map(|e| SingleCommit::commit(e, None).expect("leaf").into_commitment())
        .collect();
    assert_eq!(whole.to_bytes(), GroupElement::sum(&singles).to_bytes());
}

#[test]
fn key_order_of_text_does_not_matter() {
    let first = commit(&parse(r#"{"b":1,"a":2}"#));
    let second = commit(&parse(r#"{"a":2,"b":1}"#));
    assert_eq!(first, second);
}

#[test]
fn key_order_of_trees_does_not_matter() {
    let first = commit(&object(vec![("b", num(1)), ("a", num(2))]));
    let second = commit(&object(vec![("a", num(2)), ("b", num(1))]));
    assert_eq!(first, second);
    assert_eq!(first.to_bytes(), second.to_bytes());
}

#[test]
fn key_order_does_not_matter_at_depth() {
    let first = object(vec![
        ("u", object(vec![("x", num(1)), ("y", text("t")), ("z", Node::Array(vec![num(3)]))])),
        ("v", Node::Array(vec![object(vec![("p", num(-4)), ("q", num(5))])])),
    ]);
    let second = object(vec![
        ("v", Node::Array(vec![object(vec![("q", num(5)), ("p", num(-4))])])),
        ("u", object(vec![("z", Node::Array(vec![num(3)])), ("x", num(1)), ("y", text("t"))])),
    ]);
    assert_ne!(first, second);
    assert_eq!(commit(&first), commit(&second));
    let blinding = Scalar::from_u64(77);
    assert_eq!(
        BatchCommit::commit(&first, Some(&blinding)).expect("commit"),
        BatchCommit::commit(&second, Some(&blinding)).expect("commit")
    );
}

#[test]
fn order_of_array_items_matters() {
    let first = commit(&Node::Array(vec![num(1), num(2)]));
    let second = commit(&Node::Array(vec![num(2), num(1)]));
    assert_ne!(first, second);
}

#[test]
fn leaves_of_a_nested_array() {
    let ast = parse(r#"[1,{"key":["y","z"]},null]"#);
    let entries = traverse(&ast);
    assert_eq!(entries.len(), 4);
    let leaf = |path: Vec<PathStep>, value: Primitive| PrimitiveEntry { path, value };
    assert_eq!(
        entries,
        vec![
            leaf(vec![PathStep::Index(0)], Primitive::Integer(1)),
            leaf(vec![PathStep::Index(2)], Primitive::Null),
            leaf(
                vec![PathStep::Index(1), key("key"), PathStep::Index(0)],
                Primitive::Text("y".to_string())
            ),
            leaf(
                vec![PathStep::Index(1), key("key"), PathStep::Index(1)],
                Primitive::Text("z".to_string())
            ),
        ]
    );
}

#[test]
fn an_empty_object_commits_to_the_baseline() {
    let ast = parse("{}");
    assert_eq!(traverse(&ast).len(), 0);
    let plain = commit(&ast);
    assert_eq!(plain.to_bytes(), vec![0u8; 33]);
    assert_eq!(plain.to_bytes(), GroupElement::identity().to_bytes());
    let blinding = Scalar::from_u64(9);
    let blinded = BatchCommit::commit(&ast, Some(&blinding)).expect("commit");
    assert_eq!(blinded.to_bytes(), blind(&blinding).expect("base").to_bytes());
    assert_ne!(blinded, plain);
}

#[test]
fn empty_containers_give_no_leaves() {
    let ast = Node::Array(vec![
        Node::Array(vec![]),
        Node::Object(vec![]),
        object(vec![("a", Node::Array(vec![]))]),
    ]);
    assert_eq!(traverse(&ast).len(), 0);
    assert_eq!(commit(&ast).to_bytes(), vec![0u8; 33]);
}

#[test]
fn a_leaf_alone_has_the_empty_path() {
    let entries = traverse(&num(5));
    assert_eq!(entries, vec![PrimitiveEntry { path: vec![], value: Primitive::Integer(5) }]);
}

#[test]
fn a_value_binds_the_commitment() {
    let one = commit(&parse(r#"{"x":1}"#));
    let two = commit(&parse(r#"{"x":2}"#));
    assert_ne!(one, two);
    let again = commit(&parse(r#"{"x":1}"#));
    assert_eq!(one, again);
    assert_eq!(one.to_bytes(), again.to_bytes());
}

#[test]
fn commitment_is_repeatable() {
    let ast = parse(r#"{"a":[true,false,null,"s",-7,18446744073709551615]}"#);
    let blinding = Scalar::from_u64(123456789);
    let first = BatchCommit::commit(&ast, Some(&blinding)).expect("commit");
    let second = BatchCommit::commit(&ast, Some(&blinding)).expect("commit");
    assert_eq!(first.to_bytes(), second.to_bytes());
    let other = BatchCommit::commit(&ast, Some(&Scalar::from_u64(123456790))).expect("commit");
    assert_ne!(first, other);
    assert_ne!(first, commit(&ast));
}

#[test]
fn changing_one_leaf_changes_the_commitment() {
    let base = parse(r#"{"a":1,"b":[true,"x",null],"c":{"d":-3}}"#);
    let changed = [
        r#"{"a":2,"b":[true,"x",null],"c":{"d":-3}}"#,
        r#"{"a":1,"b":[false,"x",null],"c":{"d":-3}}"#,
        r#"{"a":1,"b":[true,"y",null],"c":{"d":-3}}"#,
        r#"{"a":1,"b":[true,"x",0],"c":{"d":-3}}"#,
        r#"{"a":1,"b":[true,"x",null],"c":{"d":3}}"#,
        r#"{"a":1,"b":[true,"x",null],"c":{"d":"-3"}}"#,
    ];
    let whole = commit(&base);
    for other in changed {
        assert_ne!(whole, commit(&parse(other)));
    }
}

#[test]
fn values_of_different_kinds_differ() {
    let values = vec![
        Primitive::Null,
        Primitive::Bool(false),
        Primitive::Bool(true),
        Primitive::Integer(0),
        Primitive::Integer(1),
        Primitive::Integer(2),
        Primitive::Integer(-1),
        Primitive::Text(String::new()),
        Primitive::Text("0".to_string()),
        Primitive::Text("null".to_string()),
        Primitive::Text("true".to_string()),
    ];
    let commitments: Vec<AggregateCommitment> = values
        .into_iter()
        .map(|value| commit(&object(vec![("k", Node::Primitive(value))])))
        .collect();
    for i in 0..commitments.len() {
        for j in 0..i {
            assert_ne!(commitments[i], commitments[j]);
        }
    }
}

#[test]
fn commitments_of_disjoint_documents_add_up() {
    let left = commit(&parse(r#"{"a":1,"c":["x"]}"#));
    let right = commit(&parse(r#"{"b":2,"d":{"e":null}}"#));
    let union = commit(&parse(r#"{"a":1,"b":2,"c":["x"],"d":{"e":null}}"#));
    assert_eq!(left.combine(&right), union);
    assert_eq!(right.combine(&left), union);
    assert_ne!(left, union);
    let empty = commit(&parse("{}"));
    assert_eq!(left.combine(&empty), left);
}

#[test]
fn a_leaf_without_scalar_fails_the_whole() {
    let ast = parse(r#"{"ok":1,"bad":1.5,"also":"fine"}"#);
    match BatchCommit::commit(&ast, None) {
        Err(JcError::Commit(e)) => {
            assert_eq!(e.failures.len(), 1);
            assert_eq!(e.failures[0].path, vec![key("bad")]);
            assert_eq!(e.failures[0].error, LeafError::Encoding(EncodingError::NotIntegral));
        }
        other => panic!("unexpected: {:?}", other),
    }
}

#[test]
fn every_failing_leaf_is_reported_in_order() {
    let ast = Node::Array(vec![
        num(1),
        Node::Primitive(Primitive::Integer(1i128 << 64)),
        object(vec![("deep", Node::Primitive(Primitive::Real(1.5f64.to_bits())))]),
        Node::Primitive(Primitive::Integer(-(1i128 << 64))),
    ]);
    match BatchCommit::commit(&ast, Some(&Scalar::from_u64(1))) {
        Err(JcError::Commit(e)) => {
            let got: Vec<(Vec<PathStep>, LeafError)> =
                e.failures.iter().map(|f| (f.path.clone(), f.error)).collect();
            assert_eq!(
                got,
                vec![
                    (vec![PathStep::Index(1)], LeafError::Encoding(EncodingError::OutOfRange)),
                    (vec![PathStep::Index(3)], LeafError::Encoding(EncodingError::OutOfRange)),
                    (
                        vec![PathStep::Index(2), key("deep")],
                        LeafError::Encoding(EncodingError::NotIntegral)
                    ),
                ]
            );
        }
        other => panic!("unexpected: {:?}", other),
    }
}

#[test]
fn numbers_too_large_for_an_integer_fail() {
    let ast = parse("[18446744073709551616, 1e300]");
    match BatchCommit::commit(&ast, None) {
        Err(JcError::Commit(e)) => {
            assert_eq!(e.failures.len(), 2);
            assert_eq!(e.failures[0].error, LeafError::Encoding(EncodingError::NotIntegral));
        }
        other => panic!("unexpected: {:?}", other),
    }
}

#[test]
fn the_last_of_fields_with_one_key_counts() {
    let doubled = Node::Object(vec![
        ("a".to_string(), num(1)),
        ("b".to_string(), num(5)),
        ("a".to_string(), num(2)),
    ]);
    let entries = traverse(&doubled);
    assert_eq!(
        entries,
        vec![
            PrimitiveEntry { path: vec![key("b")], value: Primitive::Integer(5) },
            PrimitiveEntry { path: vec![key("a")], value: Primitive::Integer(2) },
        ]
    );
    assert_eq!(commit(&doubled), commit(&parse(r#"{"b":5,"a":2}"#)));
    assert_eq!(commit(&parse(r#"{"a":1,"b":5,"a":2}"#)), commit(&doubled));
}

#[test]
fn a_key_that_spells_an_index_is_no_index() {
    let as_key = commit(&object(vec![("0", num(7))]));
    let as_index = commit(&Node::Array(vec![num(7)]));
    assert_ne!(as_key, as_index);
}

#[test]
fn doubled_keys_are_found_at_any_depth() {
    assert!(has_distinct_keys(&parse(r#"{"a":[{"b":1,"c":{}}],"d":null}"#)));
    assert!(has_distinct_keys(&num(1)));
    assert!(has_distinct_keys(&Node::Array(vec![])));
    assert!(!has_distinct_keys(&object(vec![("a", num(1)), ("b", num(2)), ("a", num(3))])));
    let deep = object(vec![(
        "x",
        Node::Array(vec![num(1), object(vec![("k", num(1)), ("k", num(1))])]),
    )]);
    assert!(!has_distinct_keys(&deep));
    let twice = object(vec![("a", object(vec![("k", num(1))])), ("b", object(vec![("k", num(1))]))]);
    assert!(has_distinct_keys(&twice));
}

#[test]
fn no_two_leaves_have_one_path() {
    let ast = Node::Array(vec![
        object(vec![("a", num(1)), ("a", Node::Array(vec![num(2), num(3)])), ("b", num(4))]),
        object(vec![("a", num(1)), ("0", num(5))]),
        Node::Array(vec![num(6), object(vec![("", num(7)), ("", num(8))])]),
    ]);
    let entries = traverse(&ast);
    assert_eq!(entries.len(), 7);
    for i in 0..entries.len() {
        for j in 0..i {
            assert_ne!(entries[i].path, entries[j].path);
        }
    }
}
