use comfy_graph::graph::{DynamicPrompt, GraphError, NodeDefResolver, NoopResolver, TopologicalSort};
use comfy_graph::json::{JsonNumber, JsonObject, JsonValue};
use indexmap::IndexSet;

fn text(s: &str) -> JsonValue {
    JsonValue::String(s.to_string())
}

fn uint(n: u64) -> JsonValue {
    JsonValue::Number(JsonNumber::PosInt(n))
}

fn link_to(id: &str, socket: u64) -> JsonValue {
    JsonValue::Array(vec![text(id), uint(socket)])
}

fn object_of(pairs: Vec<(&str, JsonValue)>) -> JsonObject {
    let mut o = JsonObject::new();
    for (k, v) in pairs {
        o.insert(k.to_string(), v);
    }
    o
}

fn node_info(class_type: &str, inputs: Vec<(&str, JsonValue)>) -> JsonValue {
    JsonValue::Object(object_of(vec![
        ("class_type", text(class_type)),
        ("inputs", JsonValue::Object(object_of(inputs))),
    ]))
}

fn prompt_of(nodes: Vec<(&str, JsonValue)>) -> DynamicPrompt {
    DynamicPrompt::new(object_of(nodes))
}

/// load -> decode -> save, plus an independent node.
fn linear_prompt() -> DynamicPrompt {
    prompt_of(vec![
        ("save", node_info("SaveImage", vec![("images", link_to("decode", 0))])),
        ("decode", node_info("VAEDecode", vec![("samples", link_to("load", 0))])),
        ("load", node_info("LoadLatent", vec![])),
        ("island", node_info("Note", vec![])),
    ])
}

fn cycle_prompt() -> DynamicPrompt {
    prompt_of(vec![
        ("a", node_info("T", vec![("in", link_to("c", 0))])),
        ("b", node_info("T", vec![("in", link_to("a", 0))])),
        ("c", node_info("T", vec![("in", link_to("b", 0))])),
        ("root", node_info("T", vec![("in", link_to("c", 0))])),
    ])
}

#[test]
fn execution_order_respects_dependencies() {
    let prompt = linear_prompt();
    let resolver = NoopResolver;
    let mut sort = TopologicalSort::new(&prompt, &resolver);
    sort.add_node("save", false, None).unwrap();
    let order = sort.execution_order().unwrap();
    let pos = |id: &str| order.iter().position(|n| n == id).unwrap();
    assert!(pos("load") < pos("decode"));
    assert!(pos("decode") < pos("save"));
    // "island" was never requested, so it is not scheduled.
    assert_eq!(order.len(), 3);
}

#[test]
fn cached_nodes_are_not_scheduled() {
    let prompt = linear_prompt();
    let resolver = NoopResolver;
    let mut sort = TopologicalSort::new(&prompt, &resolver);
    sort.set_cached("decode");
    sort.add_node("save", false, None).unwrap();
    let order = sort.execution_order().unwrap();
    assert_eq!(order, vec!["save".to_string()]);
}

#[test]
fn cycle_is_detected_and_reported() {
    let prompt = cycle_prompt();
    let resolver = NoopResolver;
    let mut sort = TopologicalSort::new(&prompt, &resolver);
    sort.add_node("root", false, None).unwrap();
    let err = sort.execution_order().unwrap_err();
    match err {
        GraphError::DependencyCycle { mut nodes_in_cycle } => {
            nodes_in_cycle.sort();
            // Nodes downstream of the cycle ("root") are also reported:
            // only sources dissolve.
            assert_eq!(nodes_in_cycle, vec!["a", "b", "c", "root"]);
        }
        other => panic!("expected cycle error, got {other:?}"),
    }
}

struct LazyIn;

impl NodeDefResolver for LazyIn {
    fn is_input_lazy(&self, _class_type: &str, input_name: &str) -> bool {
        input_name == "lazy_in"
    }
}

#[test]
fn lazy_inputs_are_skipped_unless_included() {
    let prompt = prompt_of(vec![
        ("expensive", node_info("T", vec![])),
        ("switch", node_info("T", vec![("lazy_in", link_to("expensive", 0))])),
    ]);
    let resolver = LazyIn;
    let mut sort = TopologicalSort::new(&prompt, &resolver);
    sort.add_node("switch", false, None).unwrap();
    assert_eq!(sort.execution_order().unwrap(), vec!["switch".to_string()]);

    let mut sort = TopologicalSort::new(&prompt, &resolver);
    sort.add_node("switch", true, None).unwrap();
    let order = sort.execution_order().unwrap();
    assert_eq!(order, vec!["expensive".to_string(), "switch".to_string()]);
}

#[test]
fn make_input_strong_link_errors() {
    let prompt = prompt_of(vec![("n", node_info("T", vec![("c", uint(5))]))]);
    let resolver = NoopResolver;
    let mut sort = TopologicalSort::new(&prompt, &resolver);
    sort.add_node("n", false, None).unwrap();
    assert!(matches!(sort.make_input_strong_link("n", "missing"), Err(GraphError::NodeInput(_))));
    assert!(matches!(sort.make_input_strong_link("n", "c"), Err(GraphError::NodeInput(_))));
}

#[test]
fn dynamic_prompt_ephemeral_lookup_chains() {
    let mut prompt = prompt_of(vec![("real", node_info("T", vec![]))]);
    prompt.add_ephemeral_node("e1", node_info("T", vec![]), "real", "real");
    prompt.add_ephemeral_node("e2", node_info("T", vec![]), "e1", "e1");
    assert_eq!(prompt.get_real_node_id("e2"), "real");
    assert_eq!(prompt.get_display_node_id("e2"), "real");
    assert_eq!(prompt.get_parent_node_id("e2"), Some("e1"));
    assert!(prompt.has_node("e2"));
    assert!(prompt.get_node("nope").is_err());
    assert_eq!(prompt.all_node_ids().len(), 3);
}

#[test]
fn subgraph_filter_excludes_external_links() {
    let prompt = prompt_of(vec![
        ("outside", node_info("T", vec![])),
        ("inside", node_info("T", vec![("in", link_to("outside", 0))])),
    ]);
    let resolver = NoopResolver;
    let mut sort = TopologicalSort::new(&prompt, &resolver);
    let subgraph: IndexSet<String> = ["inside".to_string()].into_iter().collect();
    sort.add_node("inside", false, Some(&subgraph)).unwrap();
    assert_eq!(sort.execution_order().unwrap(), vec!["inside".to_string()]);
}

#[test]
fn nodes_in_cycle_are_listed_in_pending_order() {
    let prompt = cycle_prompt();
    let resolver = NoopResolver;
    let mut sort = TopologicalSort::new(&prompt, &resolver);
    sort.add_node("root", false, None).unwrap();
    let cycle = sort.get_nodes_in_cycle();
    assert_eq!(cycle, vec!["root", "c", "b", "a"]);
}

#[test]
fn nodes_in_cycle_is_empty_without_a_cycle() {
    let prompt = linear_prompt();
    let resolver = NoopResolver;
    let mut sort = TopologicalSort::new(&prompt, &resolver);
    sort.add_node("save", false, None).unwrap();
    assert!(sort.get_nodes_in_cycle().is_empty());
}

#[test]
fn a_cycle_leaves_its_independent_sources_out() {
    // "free" feeds into the cycle but dissolves itself.
    let prompt = prompt_of(vec![
        ("free", node_info("T", vec![])),
        ("x", node_info("T", vec![("a", link_to("y", 0)), ("b", link_to("free", 0))])),
        ("y", node_info("T", vec![("a", link_to("x", 0))])),
    ]);
    let resolver = NoopResolver;
    let mut sort = TopologicalSort::new(&prompt, &resolver);
    sort.add_node("x", false, None).unwrap();
    let mut cycle = sort.get_nodes_in_cycle();
    cycle.sort();
    assert_eq!(cycle, vec!["x", "y"]);
}

#[test]
fn ready_nodes_and_pop_node_dissolve_the_graph() {
    let prompt = linear_prompt();
    let resolver = NoopResolver;
    let mut sort = TopologicalSort::new(&prompt, &resolver);
    assert!(sort.is_empty());
    sort.add_node("save", false, None).unwrap();
    assert!(!sort.is_empty());
    assert_eq!(sort.get_ready_nodes(), vec!["load".to_string()]);
    sort.pop_node("load");
    assert_eq!(sort.get_ready_nodes(), vec!["decode".to_string()]);
    sort.pop_node("decode");
    assert_eq!(sort.get_ready_nodes(), vec!["save".to_string()]);
    sort.pop_node("save");
    assert!(sort.is_empty());
    assert!(sort.get_ready_nodes().is_empty());
}

#[test]
fn cached_flag_is_reported() {
    let prompt = linear_prompt();
    let resolver = NoopResolver;
    let mut sort = TopologicalSort::new(&prompt, &resolver);
    assert!(!sort.is_cached("load"));
    sort.set_cached("load");
    assert!(sort.is_cached("load"));
    assert!(!sort.is_cached("save"));
}

#[test]
fn strong_link_on_a_linked_input_adds_a_dependency() {
    let prompt = prompt_of(vec![
        ("src", node_info("T", vec![])),
        ("dst", node_info("T", vec![("lazy_in", link_to("src", 0))])),
    ]);
    let resolver = LazyIn;
    let mut sort = TopologicalSort::new(&prompt, &resolver);
    sort.add_node("dst", false, None).unwrap();
    assert_eq!(sort.get_ready_nodes(), vec!["dst".to_string()]);
    sort.make_input_strong_link("dst", "lazy_in").unwrap();
    let order = sort.execution_order().unwrap();
    assert_eq!(order, vec!["src".to_string(), "dst".to_string()]);
}

#[test]
fn add_strong_link_blocks_the_target() {
    let prompt = prompt_of(vec![("p", node_info("T", vec![])), ("q", node_info("T", vec![]))]);
    let resolver = NoopResolver;
    let mut sort = TopologicalSort::new(&prompt, &resolver);
    sort.add_node("q", false, None).unwrap();
    sort.add_strong_link("p", 0, "q").unwrap();
    assert_eq!(sort.get_ready_nodes(), vec!["p".to_string()]);
    assert_eq!(sort.execution_order().unwrap(), vec!["p".to_string(), "q".to_string()]);
}

#[test]
fn add_node_reports_a_missing_node() {
    let prompt = prompt_of(vec![("n", node_info("T", vec![("in", link_to("ghost", 0))]))]);
    let resolver = NoopResolver;
    let mut sort = TopologicalSort::new(&prompt, &resolver);
    match sort.add_node("n", false, None) {
        Err(GraphError::NodeNotFound(id)) => assert_eq!(id, "ghost"),
        other => panic!("expected a missing node, got {other:?}"),
    }
}

#[test]
fn error_messages_name_the_problem() {
    let e = GraphError::NodeNotFound("x".to_string());
    assert_eq!(e.message(), "Node x not found");
    let e = GraphError::NodeInput("bad input".to_string());
    assert_eq!(e.message(), "bad input");
    let e = GraphError::DependencyCycle { nodes_in_cycle: vec![] };
    assert_eq!(e.message(), "Dependency cycle detected");
}

#[test]
fn dynamic_prompt_lookups_of_real_nodes() {
    let prompt = prompt_of(vec![("real", node_info("T", vec![]))]);
    assert_eq!(prompt.get_real_node_id("real"), "real");
    assert_eq!(prompt.get_display_node_id("real"), "real");
    assert_eq!(prompt.get_parent_node_id("real"), None);
    assert!(prompt.has_node("real"));
    assert!(!prompt.has_node("other"));
    assert_eq!(prompt.get_node("real").unwrap(), &node_info("T", vec![]));
    match prompt.get_node("other") {
        Err(GraphError::NodeNotFound(id)) => assert_eq!(id, "other"),
        other => panic!("expected a missing node, got {other:?}"),
    }
    assert_eq!(prompt.get_original_prompt().len(), 1);
}

#[test]
fn ephemeral_node_shadows_nothing_of_the_original_prompt() {
    let mut prompt = prompt_of(vec![("real", node_info("A", vec![]))]);
    prompt.add_ephemeral_node("e", node_info("B", vec![]), "real", "real");
    assert_eq!(prompt.get_node("e").unwrap(), &node_info("B", vec![]));
    assert_eq!(prompt.get_node("real").unwrap(), &node_info("A", vec![]));
    assert_eq!(prompt.get_original_prompt().len(), 1);
    let ids: Vec<String> = prompt.all_node_ids().into_iter().collect();
    assert_eq!(ids, vec!["real".to_string(), "e".to_string()]);
}

#[test]
fn all_node_ids_lists_a_shadowed_id_once() {
    let mut prompt = prompt_of(vec![("a", node_info("T", vec![])), ("b", node_info("T", vec![]))]);
    prompt.add_ephemeral_node("b", node_info("U", vec![]), "a", "a");
    prompt.add_ephemeral_node("c", node_info("U", vec![]), "b", "b");
    let ids: Vec<String> = prompt.all_node_ids().into_iter().collect();
    assert_eq!(ids, vec!["a".to_string(), "b".to_string(), "c".to_string()]);
    // The ephemeral node shadows the original one of the same id.
    assert_eq!(prompt.get_node("b").unwrap(), &node_info("U", vec![]));
    assert_eq!(prompt.get_real_node_id("c"), "a");
    assert_eq!(prompt.get_real_node_id("c"), prompt.get_real_node_id(prompt.get_parent_node_id("c").unwrap()));
}

#[test]
fn a_cycle_elsewhere_does_not_stop_the_requested_node() {
    let prompt = prompt_of(vec![
        ("p", node_info("T", vec![("in", link_to("q", 0))])),
        ("q", node_info("T", vec![("in", link_to("p", 0))])),
        ("ok", node_info("T", vec![])),
    ]);
    let resolver = NoopResolver;
    let mut sort = TopologicalSort::new(&prompt, &resolver);
    sort.add_node("ok", false, None).unwrap();
    assert_eq!(sort.execution_order().unwrap(), vec!["ok".to_string()]);
}

#[test]
fn every_input_link_becomes_a_dependency_when_lazy_inputs_are_included() {
    let prompt = prompt_of(vec![
        ("a", node_info("T", vec![])),
        ("b", node_info("T", vec![])),
        ("c", node_info("T", vec![])),
        ("top", node_info("T", vec![
            ("x", link_to("a", 0)),
            ("lazy_in", link_to("b", 1)),
            ("z", link_to("c", 2)),
            ("k", uint(9)),
        ])),
    ]);
    let resolver = LazyIn;
    let mut sort = TopologicalSort::new(&prompt, &resolver);
    sort.set_cached("c");
    sort.add_node("top", true, None).unwrap();
    // "c" is cached: never made pending, so "top" waits on "a" and "b" only.
    let mut ready = sort.get_ready_nodes();
    ready.sort();
    assert_eq!(ready, vec!["a".to_string(), "b".to_string()]);
    let order = sort.execution_order().unwrap();
    assert_eq!(order.len(), 3);
    assert_eq!(order[2], "top");
}

#[test]
fn a_cached_node_is_never_added() {
    let prompt = linear_prompt();
    let resolver = NoopResolver;
    let mut sort = TopologicalSort::new(&prompt, &resolver);
    sort.set_cached("decode");
    sort.add_node("decode", false, None).unwrap();
    assert!(sort.is_empty());
    assert_eq!(sort.execution_order().unwrap(), Vec::<String>::new());
}

#[test]
fn adding_a_pending_node_again_changes_nothing() {
    let prompt = prompt_of(vec![
        ("expensive", node_info("T", vec![])),
        ("switch", node_info("T", vec![("lazy_in", link_to("expensive", 0))])),
    ]);
    let resolver = LazyIn;
    let mut sort = TopologicalSort::new(&prompt, &resolver);
    sort.add_node("switch", false, None).unwrap();
    sort.add_node("switch", true, None).unwrap();
    assert_eq!(sort.execution_order().unwrap(), vec!["switch".to_string()]);
}

#[test]
fn add_node_rejects_a_socket_that_is_not_a_whole_number() {
    for socket in [JsonValue::Number(JsonNumber::NegInt(-1)), JsonValue::Number(JsonNumber::Float(0.5f64.to_bits()))] {
        let prompt = prompt_of(vec![
            ("m", node_info("T", vec![])),
            ("n", node_info("T", vec![("in", JsonValue::Array(vec![text("m"), socket]))])),
        ]);
        let resolver = NoopResolver;
        let mut sort = TopologicalSort::new(&prompt, &resolver);
        match sort.add_node("n", false, None) {
            Err(GraphError::NodeInput(m)) => assert_eq!(m, "Node n input in has a non-integer socket index"),
            other => panic!("expected a socket error, got {other:?}"),
        }
    }
}

#[test]
fn add_node_reports_a_node_without_inputs() {
    let prompt = prompt_of(vec![("bare", JsonValue::Object(object_of(vec![("class_type", text("T"))])))]);
    let resolver = NoopResolver;
    let mut sort = TopologicalSort::new(&prompt, &resolver);
    match sort.add_node("bare", false, None) {
        Err(GraphError::NodeInput(m)) => assert_eq!(m, "Node bare has no inputs object"),
        other => panic!("expected a missing inputs object, got {other:?}"),
    }
}

#[test]
fn make_input_strong_link_messages() {
    let prompt = prompt_of(vec![("n", node_info("T", vec![("c", uint(5))]))]);
    let resolver = NoopResolver;
    let mut sort = TopologicalSort::new(&prompt, &resolver);
    sort.add_node("n", false, None).unwrap();
    match sort.make_input_strong_link("n", "missing") {
        Err(GraphError::NodeInput(m)) => assert_eq!(
            m,
            "Node n says it needs input missing, but there is no input to that node at all"
        ),
        other => panic!("unexpected {other:?}"),
    }
    match sort.make_input_strong_link("n", "c") {
        Err(GraphError::NodeInput(m)) => assert_eq!(m, "Node n says it needs input c, but that value is a constant"),
        other => panic!("unexpected {other:?}"),
    }
    match sort.make_input_strong_link("zz", "c") {
        Err(GraphError::NodeNotFound(id)) => assert_eq!(id, "zz"),
        other => panic!("unexpected {other:?}"),
    }
}

#[test]
fn execution_order_goes_round_by_round_in_pending_order() {
    // "top" needs "mid" and "b"; "mid" needs "a".
    let prompt = prompt_of(vec![
        ("a", node_info("T", vec![])),
        ("b", node_info("T", vec![])),
        ("mid", node_info("T", vec![("in", link_to("a", 0))])),
        ("top", node_info("T", vec![("x", link_to("mid", 0)), ("y", link_to("b", 0))])),
    ]);
    let resolver = NoopResolver;
    let mut sort = TopologicalSort::new(&prompt, &resolver);
    sort.add_node("top", false, None).unwrap();
    // Pending order: top, then the last input first (b), then mid and a.
    // Round 0 dissolves b and a, round 1 mid, round 2 top.
    let order = sort.execution_order().unwrap();
    assert_eq!(order, vec!["b".to_string(), "a".to_string(), "mid".to_string(), "top".to_string()]);
}

#[test]
fn add_strong_link_to_a_node_that_the_source_pulls_in() {
    // Adding "p" makes "q" pending (p links from q); the strong link q <- p
    // then closes a cycle.
    let prompt = prompt_of(vec![
        ("p", node_info("T", vec![("in", link_to("q", 0))])),
        ("q", node_info("T", vec![])),
    ]);
    let resolver = NoopResolver;
    let mut sort = TopologicalSort::new(&prompt, &resolver);
    sort.add_strong_link("p", 0, "q").unwrap();
    let mut cycle = match sort.execution_order() {
        Err(GraphError::DependencyCycle { nodes_in_cycle }) => nodes_in_cycle,
        other => panic!("expected a cycle, got {other:?}"),
    };
    cycle.sort();
    assert_eq!(cycle, vec!["p".to_string(), "q".to_string()]);
}

#[test]
fn two_sockets_of_one_link_count_the_source_once() {
    let prompt = prompt_of(vec![("p", node_info("T", vec![])), ("q", node_info("T", vec![]))]);
    let resolver = NoopResolver;
    let mut sort = TopologicalSort::new(&prompt, &resolver);
    sort.add_node("p", false, None).unwrap();
    sort.add_node("q", false, None).unwrap();
    sort.add_strong_link("p", 0, "q").unwrap();
    sort.add_strong_link("p", 1, "q").unwrap();
    assert_eq!(sort.get_ready_nodes(), vec!["p".to_string()]);
    sort.pop_node("p");
    assert_eq!(sort.get_ready_nodes(), vec!["q".to_string()]);
}

#[test]
fn an_input_link_and_the_same_strong_link_end_alike() {
    let prompt = prompt_of(vec![
        ("src", node_info("T", vec![("in", link_to("up", 0))])),
        ("up", node_info("T", vec![])),
        ("dst", node_info("T", vec![("lazy_in", link_to("src", 2))])),
    ]);
    let resolver = LazyIn;
    let mut by_input = TopologicalSort::new(&prompt, &resolver);
    let mut by_link = TopologicalSort::new(&prompt, &resolver);
    by_input.add_node("dst", false, None).unwrap();
    by_link.add_node("dst", false, None).unwrap();
    by_input.make_input_strong_link("dst", "lazy_in").unwrap();
    by_link.add_strong_link("src", 2, "dst").unwrap();
    assert_eq!(by_input.get_ready_nodes(), by_link.get_ready_nodes());
    assert_eq!(by_input.get_ready_nodes(), vec!["up".to_string()]);
    let order = vec!["up".to_string(), "src".to_string(), "dst".to_string()];
    assert_eq!(by_input.execution_order().unwrap(), order);
    assert_eq!(by_link.execution_order().unwrap(), order);
}

#[test]
fn a_failed_strong_link_keeps_the_nodes_before_the_bad_one() {
    let prompt = prompt_of(vec![
        ("ok", node_info("T", vec![])),
        ("src", node_info("T", vec![("in", link_to("ok", 0)), ("bad", link_to("missing", 0))])),
        ("dst", node_info("T", vec![])),
    ]);
    let resolver = NoopResolver;
    let mut sort = TopologicalSort::new(&prompt, &resolver);
    sort.add_node("dst", false, None).unwrap();
    match sort.add_strong_link("src", 0, "dst") {
        Err(GraphError::NodeNotFound(id)) => assert_eq!(id, "missing"),
        other => panic!("expected a missing node, got {other:?}"),
    }
    assert!(sort.get_ready_nodes().contains(&"dst".to_string()));
    assert!(!sort.is_empty());
}

#[test]
fn add_node_names_the_first_input_with_a_bad_socket() {
    let prompt = prompt_of(vec![
        ("m", node_info("T", vec![])),
        (
            "n",
            node_info(
                "T",
                vec![
                    ("good", link_to("m", 0)),
                    ("first", JsonValue::Array(vec![text("m"), JsonValue::Number(JsonNumber::Float(0.5f64.to_bits()))])),
                    ("second", JsonValue::Array(vec![text("m"), JsonValue::Number(JsonNumber::NegInt(-3))])),
                ],
            ),
        ),
    ]);
    let resolver = NoopResolver;
    let mut sort = TopologicalSort::new(&prompt, &resolver);
    match sort.add_node("n", false, None) {
        Err(GraphError::NodeInput(m)) => assert_eq!(m, "Node n input first has a non-integer socket index"),
        other => panic!("expected a socket error, got {other:?}"),
    }
}

#[test]
fn a_default_prompt_has_no_nodes() {
    let prompt = DynamicPrompt::default();
    assert!(!prompt.has_node("any"));
    assert!(prompt.all_node_ids().is_empty());
    assert!(prompt.get_original_prompt().is_empty());
}
