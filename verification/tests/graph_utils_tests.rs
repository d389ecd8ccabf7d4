use comfy_graph::graph_utils::{add_graph_prefix, is_link, DefaultPrefix, ExecutionBlocker, GraphBuilder, Link, Node};
use comfy_graph::json::{JsonNumber, JsonObject, JsonValue};
use comfy_graph::strings::u64_to_decimal;

fn string_value(s: &str) -> JsonValue {
    JsonValue::String(s.to_string())
}

fn unsigned(n: u64) -> JsonValue {
    JsonValue::Number(JsonNumber::PosInt(n))
}

fn negative(n: i64) -> JsonValue {
    JsonValue::Number(JsonNumber::NegInt(n))
}

fn float(f: f64) -> JsonValue {
    JsonValue::Number(JsonNumber::Float(f.to_bits()))
}

fn array(items: Vec<JsonValue>) -> JsonValue {
    JsonValue::Array(items)
}

fn object(pairs: Vec<(&str, JsonValue)>) -> JsonObject {
    let mut o = JsonObject::new();
    for (k, v) in pairs {
        o.insert(k.to_string(), v);
    }
    o
}

fn member<'a>(value: &'a JsonValue, key: &str) -> &'a JsonValue {
    match value {
        JsonValue::Object(o) => o.get(key).unwrap(),
        other => panic!("not an object: {other:?}"),
    }
}

fn builder_with(prefix: &str) -> GraphBuilder {
    let mut defaults = DefaultPrefix::new();
    GraphBuilder::new(Some(prefix.to_string()), &mut defaults)
}

#[test]
fn is_link_matches_python_semantics() {
    assert!(is_link(&array(vec![string_value("node1"), unsigned(0)])));
    assert!(is_link(&array(vec![string_value("node1"), float(0.0)])));
    assert!(!is_link(&string_value("node1")));
    assert!(!is_link(&array(vec![string_value("node1")])));
    assert!(!is_link(&array(vec![string_value("node1"), unsigned(0), unsigned(1)])));
    assert!(!is_link(&array(vec![unsigned(0), string_value("node1")])));
    assert!(!is_link(&array(vec![string_value("node1"), string_value("0")])));
    assert!(!is_link(&JsonValue::Null));
    assert!(!is_link(&JsonValue::Object(object(vec![("a", unsigned(1))]))));
}

#[test]
fn graph_builder_allocates_sequential_ids() {
    let mut builder = builder_with("test.0.0.");
    let id1 = builder.node("LoadImage", None, JsonObject::new()).id.clone();
    let id2 = builder.node("SaveImage", None, JsonObject::new()).id.clone();
    assert_eq!(id1, "test.0.0.1");
    assert_eq!(id2, "test.0.0.2");
}

#[test]
fn graph_builder_finalize_serializes_api_format() {
    let mut builder = builder_with("p.");
    let inputs = object(vec![("image", string_value("example.png"))]);
    builder.node("LoadImage", Some("load"), inputs);
    let load_out = builder.lookup_node("load").unwrap().out(0);
    let save_inputs = object(vec![("images", load_out)]);
    builder.node("SaveImage", Some("save"), save_inputs);

    let output = builder.finalize();
    let load = output.get("p.load").unwrap();
    assert_eq!(member(load, "class_type"), &string_value("LoadImage"));
    let save = output.get("p.save").unwrap();
    assert_eq!(
        member(member(save, "inputs"), "images"),
        &array(vec![string_value("p.load"), unsigned(0)])
    );
}

#[test]
fn replace_node_output_rewrites_and_removes_links() {
    let mut builder = builder_with("p.");
    builder.node("A", Some("a"), JsonObject::new());
    let a_out = builder.lookup_node("a").unwrap().out(0);
    let b_inputs = object(vec![("x", a_out.deep_copy()), ("y", a_out)]);
    builder.node("B", Some("b"), b_inputs);

    builder.replace_node_output("a", 0, unsigned(42));
    {
        let b = builder.lookup_node("b").unwrap();
        assert_eq!(b.inputs.get("x"), Some(&unsigned(42)));
        assert_eq!(b.inputs.get("y"), Some(&unsigned(42)));
    }

    // Null removes the inputs entirely.
    let mut builder = builder_with("q.");
    builder.node("A", Some("a"), JsonObject::new());
    let a_out = builder.lookup_node("a").unwrap().out(1);
    let b_inputs = object(vec![("x", a_out)]);
    builder.node("B", Some("b"), b_inputs);
    builder.replace_node_output("a", 1, JsonValue::Null);
    let b = builder.lookup_node("b").unwrap();
    assert!(b.inputs.get("x").is_none());
}

#[test]
fn add_graph_prefix_remaps_internal_links_and_outputs() {
    let mut graph = JsonObject::new();
    graph.insert(
        "1".to_string(),
        JsonValue::Object(object(vec![("class_type", string_value("A")), ("inputs", JsonValue::Object(JsonObject::new()))])),
    );
    graph.insert(
        "2".to_string(),
        JsonValue::Object(object(vec![
            ("class_type", string_value("B")),
            (
                "inputs",
                JsonValue::Object(object(vec![
                    ("in", array(vec![string_value("1"), unsigned(0)])),
                    ("k", unsigned(5)),
                ])),
            ),
        ])),
    );
    let outputs = vec![array(vec![string_value("2"), unsigned(0)]), string_value("constant")];

    let (new_graph, new_outputs) = add_graph_prefix(&graph, &outputs, "sub.");
    assert!(new_graph.contains_key("sub.1"));
    let node2 = new_graph.get("sub.2").unwrap();
    assert_eq!(member(member(node2, "inputs"), "in"), &array(vec![string_value("sub.1"), unsigned(0)]));
    assert_eq!(member(member(node2, "inputs"), "k"), &unsigned(5));
    assert_eq!(new_outputs[0], array(vec![string_value("sub.2"), unsigned(0)]));
    assert_eq!(new_outputs[1], string_value("constant"));
}

#[test]
fn node_set_input_null_removes_key() {
    let mut node = Node::new("n".to_string(), "T".to_string(), JsonObject::new());
    node.set_input("a", unsigned(1));
    assert_eq!(node.get_input("a"), Some(&unsigned(1)));
    node.set_input("a", JsonValue::Null);
    assert_eq!(node.get_input("a"), None);
}

#[test]
fn is_link_accepts_every_kind_of_number_as_socket() {
    assert!(is_link(&array(vec![string_value("n"), negative(-3)])));
    assert!(is_link(&array(vec![string_value("n"), float(2.5)])));
    assert!(!is_link(&array(vec![string_value("n"), JsonValue::Null])));
    assert!(!is_link(&array(vec![string_value("n"), JsonValue::Bool(true)])));
    assert!(!is_link(&array(vec![])));
}

#[test]
fn link_parse_reads_sockets_as_unsigned_integers() {
    let l = Link::parse(&array(vec![string_value("n"), unsigned(3)])).unwrap();
    assert_eq!(l, Link { node_id: "n".to_string(), socket: 3 });
    // A whole float is a socket; a fractional one is not.
    let l = Link::parse(&array(vec![string_value("n"), float(2.0)])).unwrap();
    assert_eq!(l.socket, 2);
    assert!(Link::parse(&array(vec![string_value("n"), float(2.9)])).is_none());
    assert!(Link::parse(&array(vec![string_value("n"), float(0.5)])).is_none());
    // A negative socket is not a socket.
    assert!(Link::parse(&array(vec![string_value("n"), negative(-4)])).is_none());
    assert!(Link::parse(&array(vec![string_value("a"), negative(-1)])).is_none());
    // A socket past u32 keeps its low bits.
    let l = Link::parse(&array(vec![string_value("n"), unsigned((1u64 << 32) + 7)])).unwrap();
    assert_eq!(l.socket, 7);
    // A huge whole float saturates before the low bits are kept.
    let l = Link::parse(&array(vec![string_value("n"), float(1e30)])).unwrap();
    assert_eq!(l.socket, u32::MAX);
    assert!(Link::parse(&string_value("n")).is_none());
    assert!(Link::parse(&array(vec![string_value("n")])).is_none());
}

#[test]
fn link_round_trips_through_its_value() {
    let l = Link { node_id: "abc".to_string(), socket: 12 };
    let v = l.to_value();
    assert_eq!(v, array(vec![string_value("abc"), unsigned(12)]));
    assert!(is_link(&v));
    assert_eq!(Link::parse(&v), Some(l.clone()));
    assert!(l.same_as(&Link::parse(&v).unwrap()));
    assert!(!l.same_as(&Link { node_id: "abc".to_string(), socket: 13 }));
}

#[test]
fn node_out_links_to_its_socket() {
    let node = Node::new("id7".to_string(), "T".to_string(), JsonObject::new());
    assert_eq!(node.out(4), array(vec![string_value("id7"), unsigned(4)]));
}

#[test]
fn node_serialize_includes_display_override_only_when_set() {
    let mut node = Node::new("n".to_string(), "Kind".to_string(), object(vec![("v", unsigned(1))]));
    let plain = node.serialize();
    let expected = JsonValue::Object(object(vec![
        ("class_type", string_value("Kind")),
        ("inputs", JsonValue::Object(object(vec![("v", unsigned(1))]))),
    ]));
    assert_eq!(plain, expected);
    node.set_override_display_id("shown".to_string());
    assert_eq!(node.override_display_id, Some("shown".to_string()));
    let with_display = node.serialize();
    assert_eq!(member(&with_display, "override_display_id"), &string_value("shown"));
    assert_eq!(member(&with_display, "class_type"), &string_value("Kind"));
}

#[test]
fn set_input_overwrites_in_place() {
    let mut node = Node::new("n".to_string(), "T".to_string(), object(vec![("a", unsigned(1)), ("b", unsigned(2))]));
    node.set_input("a", unsigned(9));
    assert_eq!(node.inputs.get_index(0).map(|(k, v)| (k.clone(), v.deep_copy())), Some(("a".to_string(), unsigned(9))));
    node.set_input("c", unsigned(3));
    assert_eq!(node.inputs.len(), 3);
    node.set_input("missing", JsonValue::Null);
    assert_eq!(node.inputs.len(), 3);
}

#[test]
fn builder_node_returns_the_existing_node() {
    let mut builder = builder_with("x.");
    builder.node("First", Some("n"), object(vec![("a", unsigned(1))]));
    let again = builder.node("Second", Some("n"), JsonObject::new());
    assert_eq!(again.class_type, "First");
    assert_eq!(again.inputs.len(), 1);
    assert_eq!(builder.finalize().len(), 1);
}

#[test]
fn builder_remove_node_and_lookup_miss() {
    let mut builder = builder_with("r.");
    builder.node("A", Some("a"), JsonObject::new());
    builder.node("B", Some("b"), JsonObject::new());
    assert!(builder.lookup_node("zzz").is_none());
    builder.remove_node("a");
    assert!(builder.lookup_node("a").is_none());
    let out = builder.finalize();
    assert_eq!(out.len(), 1);
    assert!(out.contains_key("r.b"));
}

#[test]
fn alloc_prefix_uses_and_advances_the_defaults() {
    let mut defaults = DefaultPrefix::new();
    assert_eq!(GraphBuilder::alloc_prefix(&mut defaults, None, None, None), ".0.0.");
    assert_eq!(GraphBuilder::alloc_prefix(&mut defaults, None, None, None), ".0.1.");
    GraphBuilder::set_default_prefix(&mut defaults, "run", 3, 7);
    assert_eq!(GraphBuilder::alloc_prefix(&mut defaults, None, None, None), "run.3.7.");
    assert_eq!(GraphBuilder::alloc_prefix(&mut defaults, Some("other"), Some(10), None), "other.10.8.");
    assert_eq!(defaults.graph_index, 9);
    let builder = GraphBuilder::new(None, &mut defaults);
    assert_eq!(builder.prefix, "run.3.9.");
    assert_eq!(defaults.graph_index, 10);
    let builder = GraphBuilder::new(Some("given.".to_string()), &mut defaults);
    assert_eq!(builder.prefix, "given.");
    assert_eq!(defaults.graph_index, 10);
}

#[test]
fn decimal_text_of_integers() {
    assert_eq!(u64_to_decimal(0), "0");
    assert_eq!(u64_to_decimal(7), "7");
    assert_eq!(u64_to_decimal(1203), "1203");
    assert_eq!(u64_to_decimal(u64::MAX), "18446744073709551615");
    assert_eq!(comfy_graph::strings::concat("ab", "cd"), "abcd");
}

#[test]
fn execution_blocker_keeps_its_message() {
    assert_eq!(ExecutionBlocker::new(Some("stop".to_string())).message, Some("stop".to_string()));
    assert_eq!(ExecutionBlocker::new(None).message, None);
}

#[test]
fn add_graph_prefix_keeps_non_object_inputs_out() {
    let mut graph = JsonObject::new();
    graph.insert("n".to_string(), JsonValue::Object(object(vec![("inputs", unsigned(3))])));
    let (new_graph, new_outputs) = add_graph_prefix(&graph, &[], "pre.");
    let expected = JsonValue::Object(object(vec![
        ("class_type", JsonValue::Null),
        ("inputs", JsonValue::Object(JsonObject::new())),
    ]));
    assert_eq!(new_graph.get("pre.n"), Some(&expected));
    assert!(new_outputs.is_empty());
}

#[test]
fn add_graph_prefix_keeps_float_sockets() {
    let mut graph = JsonObject::new();
    graph.insert(
        "m".to_string(),
        JsonValue::Object(object(vec![
            ("class_type", string_value("C")),
            ("inputs", JsonValue::Object(object(vec![("i", array(vec![string_value("z"), float(1.5)]))]))),
        ])),
    );
    let (new_graph, _) = add_graph_prefix(&graph, &[], "s/");
    let node = new_graph.get("s/m").unwrap();
    assert_eq!(member(member(node, "inputs"), "i"), &array(vec![string_value("s/z"), float(1.5)]));
}

#[test]
fn whole_float_sockets_convert_as_rust_casts_do() {
    let samples: Vec<f64> = vec![
        0.0, -0.0, 0.5, 1.0, 1.9999, 2.0, 3.75, 1023.5, 65536.25, 4294967295.0, 4294967296.0, 5e9, 1e15,
        9007199254740993.0, 1.8446744073709552e19, 1e19, 2e19, 1e300, -1.0, -1e300, f64::NAN, f64::INFINITY,
        f64::NEG_INFINITY, f64::MIN_POSITIVE, 5e-324, 123456789.987654321,
    ];
    for f in samples {
        let parsed = Link::parse(&array(vec![string_value("n"), float(f)]));
        let expected = if f.is_finite() && f.fract() == 0.0 && f >= 0.0 { Some((f as u64) as u32) } else { None };
        assert_eq!(parsed.map(|l| l.socket), expected, "socket of {f}");
    }
    for i in [-1i64, -2, -1000, i64::MIN] {
        assert!(Link::parse(&array(vec![string_value("n"), negative(i)])).is_none(), "socket of {i}");
    }
    for u in [0u64, 1, 4294967295, 4294967296, 4294967297, u64::MAX] {
        let l = Link::parse(&array(vec![string_value("n"), unsigned(u)])).unwrap();
        assert_eq!(l.socket, u as u32, "socket of {u}");
    }
}

#[test]
fn replace_node_output_leaves_links_with_non_integer_sockets() {
    let mut builder = builder_with("p.");
    builder.node("A", Some("a"), JsonObject::new());
    let b_inputs = object(vec![
        ("half", array(vec![string_value("p.a"), float(0.5)])),
        ("neg", array(vec![string_value("p.a"), negative(-1)])),
        ("zero", array(vec![string_value("p.a"), float(0.0)])),
    ]);
    builder.node("B", Some("b"), b_inputs);
    builder.replace_node_output("a", 0, unsigned(7));
    let b = builder.lookup_node("b").unwrap();
    assert_eq!(b.inputs.get("half"), Some(&array(vec![string_value("p.a"), float(0.5)])));
    assert_eq!(b.inputs.get("neg"), Some(&array(vec![string_value("p.a"), negative(-1)])));
    assert_eq!(b.inputs.get("zero"), Some(&unsigned(7)));
}

#[test]
fn prefixing_twice_is_prefixing_once_with_both() {
    let mut graph = JsonObject::new();
    graph.insert(
        "1".to_string(),
        JsonValue::Object(object(vec![("class_type", string_value("A")), ("inputs", JsonValue::Object(JsonObject::new()))])),
    );
    graph.insert(
        "2".to_string(),
        JsonValue::Object(object(vec![
            ("class_type", string_value("B")),
            ("inputs", JsonValue::Object(object(vec![("in", array(vec![string_value("1"), unsigned(3)]))]))),
        ])),
    );
    let outputs = vec![array(vec![string_value("2"), unsigned(0)]), unsigned(7)];
    let (g1, o1) = add_graph_prefix(&graph, &outputs, "p.");
    let (g2, o2) = add_graph_prefix(&g1, &o1, "q.");
    let (g3, o3) = add_graph_prefix(&graph, &outputs, "q.p.");
    assert_eq!(JsonValue::Object(g2), JsonValue::Object(g3));
    assert_eq!(o2, o3);
    assert_eq!(o3[0], array(vec![string_value("q.p.2"), unsigned(0)]));
}

#[test]
fn a_cloned_node_and_value_equal_their_originals() {
    let mut node = Node::new("n".to_string(), "T".to_string(), object(vec![("x", array(vec![string_value("m"), unsigned(1)]))]));
    node.override_display_id = Some("shown".to_string());
    let copy = node.clone();
    assert_eq!(copy, node);
    let value = JsonValue::Object(object(vec![("k", array(vec![negative(-2), float(1.5)]))]));
    assert_eq!(value.clone(), value);
}
