//! Links between nodes, nodes under construction, and the graph builder
//! that emits graphs in the API prompt format.

use vstd::prelude::*;

use crate::json::{
    lemma_array_view, number_index, opt_ref_view, JsonNumber, JsonObject, JsonValue, JsonView,
};
use crate::collections::{
    node_entries, node_map_get_index, node_map_get_index_of, node_map_index_mut, node_map_insert,
    node_map_len, node_map_new, node_map_shift_remove,
};
use crate::keyed::{filter_keep, has_key, key_pos, keyed_insert, keyed_remove, keys_of, keys_unique, lemma_key_pos, lemma_keyed_insert, lemma_keyed_remove, lemma_lookup_push, lemma_push_keys_unique, lookup};
use crate::strings::{concat, decimal, lemma_decimal_injective, push_decimal, str_eq, u64_to_decimal};
use indexmap::IndexMap;

verus! {

/// A link is an array of exactly two elements, a string (the node id) and
/// a number (the output socket).
pub open spec fn spec_is_link(v: JsonView) -> bool {
    match v {
        JsonView::Array(a) => a.len() == 2 && a[0] is Str && a[1] is Number,
        _ => false,
    }
}

/// The node id and socket a value links to: a link whose socket is a
/// whole number not below zero (see [`number_index`]), the socket taken as
/// `u32` by its low 32 bits. Nothing for any other value.
pub open spec fn link_of(v: JsonView) -> Option<(Seq<char>, u32)> {
    if spec_is_link(v) {
        let a = v->Array_0;
        match number_index(a[1]->Number_0) {
            Some(k) => Some((a[0]->Str_0, (k % 0x1_0000_0000) as u32)),
            None => None,
        }
    } else {
        None
    }
}

/// The value `[node_id, socket]` that links to a socket.
pub open spec fn link_value(node_id: Seq<char>, socket: u32) -> JsonView {
    JsonView::Array(seq![JsonView::Str(node_id), JsonView::Number(JsonNumber::PosInt(socket as u64))])
}

/// Whether `value` is a link: a JSON array `[node_id, socket_index]`
/// whose first element is a string and whose second is a number, integer
/// or not.
pub fn is_link(value: &JsonValue) -> (r: bool)
    ensures
        r == spec_is_link(value@),
{
    match value {
        JsonValue::Array(arr) => {
            proof {
                lemma_array_view(*arr);
            }
            arr.len() == 2 && matches!(arr[0], JsonValue::String(_)) && matches!(arr[1], JsonValue::Number(_))
        },
        _ => false,
    }
}

/// Strongly typed view of a link value.
#[derive(Debug, Clone, PartialEq, Eq, Hash)]
pub struct Link {
    pub node_id: String,
    pub socket: u32,
}

impl View for Link {
    type V = (Seq<char>, u32);

    open spec fn view(&self) -> (Seq<char>, u32) {
        (self.node_id@, self.socket)
    }
}

impl Link {
    /// Parses a JSON value as a link. Returns `None` when the value is not
    /// a link or the socket index is not a non-negative integer.
    pub fn parse(value: &JsonValue) -> (r: Option<Link>)
        ensures
            match r {
                Some(l) => link_of(value@) == Some(l@),
                None => link_of(value@) is None,
            },
    {
        if !is_link(value) {
            return None;
        }
        match value {
            JsonValue::Array(arr) => {
                proof {
                    lemma_array_view(*arr);
                }
                match (&arr[0], &arr[1]) {
                    (JsonValue::String(s), JsonValue::Number(n)) => match n.as_index() {
                        Some(socket) => Some(Link { node_id: s.clone(), socket: (socket % 0x1_0000_0000) as u32 }),
                        None => None,
                    },
                    _ => None,
                }
            },
            _ => None,
        }
    }

    /// The link as the JSON value `[node_id, socket]`.
    pub fn to_value(&self) -> (r: JsonValue)
        ensures
            r@ == link_value(self.node_id@, self.socket),
    {
        let v = vec![JsonValue::String(self.node_id.clone()), JsonValue::Number(JsonNumber::PosInt(self.socket as u64))];
        proof {
            lemma_array_view(v);
            assert(v@.map_values(|x: JsonValue| x@) =~= seq![JsonView::Str(self.node_id@), JsonView::Number(JsonNumber::PosInt(self.socket as u64))]);
        }
        JsonValue::Array(v)
    }

    /// Whether two links name the same node and socket.
    pub fn same_as(&self, other: &Link) -> (r: bool)
        ensures
            r == (self@ == other@),
    {
        self.socket == other.socket && str_eq(self.node_id.as_str(), other.node_id.as_str())
    }
}

/// The value that `Link::to_value` or `Node::out` writes for a node id and
/// a socket is a link, and reads back as that node id and socket.
pub proof fn lemma_link_round_trip(node_id: Seq<char>, socket: u32)
    ensures
        spec_is_link(link_value(node_id, socket)),
        link_of(link_value(node_id, socket)) == Some((node_id, socket)),
{
    let v = link_value(node_id, socket);
    assert(v->Array_0[0] == JsonView::Str(node_id));
    assert(v->Array_0[1] == JsonView::Number(JsonNumber::PosInt(socket as u64)));
    assert(number_index(JsonNumber::PosInt(socket as u64)) == Some(socket as int));
    assert((socket as int % 0x1_0000_0000) == socket);
}

/// Reading an input after setting it gives the value set, or no value when
/// the value set is null; every other input reads as before.
pub proof fn lemma_set_input_get_input(
    inputs: Seq<(Seq<char>, JsonView)>,
    key: Seq<char>,
    value: JsonView,
    other: Seq<char>,
)
    requires
        keys_unique(inputs),
    ensures
        ({
            let after = if value is Null { keyed_remove(inputs, key) } else { keyed_insert(inputs, key, value) };
            &&& lookup(after, key) == (if value is Null { None } else { Some(value) })
            &&& other != key ==> lookup(after, other) == lookup(inputs, other)
        }),
{
    lemma_keyed_remove(inputs, key);
    lemma_keyed_insert(inputs, key, value);
}

/// Return this from a node to block any consumers with the given error
/// message. A `None` message blocks execution silently.
#[derive(Debug, Clone, PartialEq, Eq)]
pub struct ExecutionBlocker {
    pub message: Option<String>,
}

impl ExecutionBlocker {
    pub fn new(message: Option<String>) -> (r: ExecutionBlocker)
        ensures
            r.message == message,
    {
        ExecutionBlocker { message }
    }
}

/// A node under construction inside a [`GraphBuilder`].
#[derive(Debug, PartialEq)]
pub struct Node {
    pub id: String,
    pub class_type: String,
    pub inputs: JsonObject,
    pub override_display_id: Option<String>,
}

impl Clone for Node {
    /// A copy with the same id, class type, inputs and display override.
    fn clone(&self) -> (r: Node)
        ensures
            r.id@ == self.id@,
            r.class_type@ == self.class_type@,
            r.inputs@ == self.inputs@,
            match (r.override_display_id, self.override_display_id) {
                (Some(a), Some(b)) => a@ == b@,
                (None, None) => true,
                _ => false,
            },
    {
        let override_display_id = match &self.override_display_id {
            Some(d) => Some(d.clone()),
            None => None,
        };
        Node {
            id: self.id.clone(),
            class_type: self.class_type.clone(),
            inputs: self.inputs.clone(),
            override_display_id,
        }
    }
}

/// A node in the API prompt format:
/// `{"class_type": .., "inputs": {..}}`, with `"override_display_id"` last
/// when there is one.
pub open spec fn serialized_node(
    class_type: Seq<char>,
    inputs: Seq<(Seq<char>, JsonView)>,
    override_display_id: Option<Seq<char>>,
) -> JsonView {
    let base = seq![("class_type"@, JsonView::Str(class_type)), ("inputs"@, JsonView::Object(inputs))];
    JsonView::Object(
        match override_display_id {
            Some(d) => base.push(("override_display_id"@, JsonView::Str(d))),
            None => base,
        },
    )
}

/// A serialised node holds the class type under `"class_type"`, the
/// inputs under `"inputs"` (whether or not a display override is set), the
/// display override under `"override_display_id"` exactly when there is
/// one, and nothing else.
pub proof fn lemma_serialized_node_fields(
    class_type: Seq<char>,
    inputs: Seq<(Seq<char>, JsonView)>,
    override_display_id: Option<Seq<char>>,
)
    ensures
        field(serialized_node(class_type, inputs, override_display_id), "class_type"@) == Some(JsonView::Str(class_type)),
        field(serialized_node(class_type, inputs, override_display_id), "inputs"@) == Some(JsonView::Object(inputs)),
        field(serialized_node(class_type, inputs, override_display_id), "override_display_id"@) == match override_display_id {
            Some(d) => Some(JsonView::Str(d)),
            None => None::<JsonView>,
        },
        forall|k: Seq<char>| #[trigger] field(serialized_node(class_type, inputs, override_display_id), k) is Some
            ==> k == "class_type"@ || k == "inputs"@ || k == "override_display_id"@,
        keys_of(serialized_node(class_type, inputs, override_display_id)->Object_0) == match override_display_id {
            Some(_) => seq!["class_type"@, "inputs"@, "override_display_id"@],
            None => seq!["class_type"@, "inputs"@],
        },
{
    reveal_strlit("class_type");
    reveal_strlit("inputs");
    reveal_strlit("override_display_id");
    assert("inputs"@[0] != "class_type"@[0]);
    assert("override_display_id"@[0] != "class_type"@[0]);
    assert("override_display_id"@[0] != "inputs"@[0]);
    let o = serialized_node(class_type, inputs, override_display_id)->Object_0;
    assert(keys_unique(o));
    lemma_key_pos(o, 0);
    lemma_key_pos(o, 1);
    if override_display_id is Some {
        lemma_key_pos(o, 2);
        assert(keys_of(o) =~= seq!["class_type"@, "inputs"@, "override_display_id"@]);
    } else {
        assert(keys_of(o) =~= seq!["class_type"@, "inputs"@]);
        assert(!has_key(o, "override_display_id"@));
    }
}

/// The optional string by its view.
pub open spec fn opt_string_view(o: Option<String>) -> Option<Seq<char>> {
    match o {
        Some(s) => Some(s@),
        None => None,
    }
}

/// The API-format serialisation of a node.
pub open spec fn node_view(n: Node) -> JsonView {
    serialized_node(n.class_type@, n.inputs@, opt_string_view(n.override_display_id))
}

impl Node {
    /// A node with the given id, class type and inputs, and no display
    /// override.
    pub fn new(id: String, class_type: String, inputs: JsonObject) -> (r: Node)
        ensures
            r.id == id,
            r.class_type == class_type,
            r.inputs == inputs,
            r.override_display_id is None,
    {
        Node { id, class_type, inputs, override_display_id: None }
    }

    /// A link to the given output socket of this node.
    pub fn out(&self, index: u32) -> (r: JsonValue)
        ensures
            r@ == link_value(self.id@, index),
    {
        let v = vec![JsonValue::String(self.id.clone()), JsonValue::Number(JsonNumber::PosInt(index as u64))];
        proof {
            lemma_array_view(v);
            assert(v@.map_values(|x: JsonValue| x@) =~= seq![JsonView::Str(self.id@), JsonView::Number(JsonNumber::PosInt(index as u64))]);
        }
        JsonValue::Array(v)
    }

    /// Sets an input; a null value removes the input instead.
    pub fn set_input(&mut self, key: &str, value: JsonValue)
        ensures
            final(self).id == old(self).id,
            final(self).class_type == old(self).class_type,
            final(self).override_display_id == old(self).override_display_id,
            final(self).inputs@ == (if value@ is Null {
                keyed_remove(old(self).inputs@, key@)
            } else {
                keyed_insert(old(self).inputs@, key@, value@)
            }),
    {
        if matches!(value, JsonValue::Null) {
            self.inputs.shift_remove(key);
        } else {
            self.inputs.insert(String::from_str(key), value);
        }
    }

    /// The input under `key`.
    pub fn get_input(&self, key: &str) -> (r: Option<&JsonValue>)
        ensures
            opt_ref_view(r) == lookup(self.inputs@, key@),
    {
        self.inputs.get(key)
    }

    /// Sets the display id that the serialised node carries.
    pub fn set_override_display_id(&mut self, override_display_id: String)
        ensures
            final(self).id == old(self).id,
            final(self).class_type == old(self).class_type,
            final(self).inputs == old(self).inputs,
            final(self).override_display_id == Some(override_display_id),
    {
        self.override_display_id = Some(override_display_id);
    }

    /// The node in the API prompt format.
    pub fn serialize(&self) -> (r: JsonValue)
        ensures
            r@ == node_view(*self),
    {
        proof {
            reveal_strlit("class_type");
            reveal_strlit("inputs");
            reveal_strlit("override_display_id");
        }
        let mut serialized = JsonObject::new();
        serialized.insert(String::from_str("class_type"), JsonValue::String(self.class_type.clone()));
        assert("inputs"@ != "class_type"@) by {
            assert("inputs"@[0] != "class_type"@[0]);
        }
        serialized.insert(String::from_str("inputs"), JsonValue::Object(self.inputs.deep_copy()));
        match &self.override_display_id {
            Some(display_id) => {
                assert("override_display_id"@ != "class_type"@) by {
                    assert("override_display_id"@[0] != "class_type"@[0]);
                }
                assert("override_display_id"@ != "inputs"@) by {
                    assert("override_display_id"@[0] != "inputs"@[0]);
                }
                serialized.insert(String::from_str("override_display_id"), JsonValue::String(display_id.clone()));
            },
            None => {},
        }
        assert(serialized@ =~= (node_view(*self))->Object_0);
        JsonValue::Object(serialized)
    }
}


/// The defaults from which graph prefixes are allocated.
#[derive(Debug)]
pub struct DefaultPrefix {
    pub root: String,
    pub call_index: u64,
    pub graph_index: u64,
}

impl DefaultPrefix {
    /// Empty root, both indices zero.
    pub fn new() -> (r: DefaultPrefix)
        ensures
            r.root@ == Seq::<char>::empty(),
            r.call_index == 0,
            r.graph_index == 0,
    {
        DefaultPrefix { root: String::new(), call_index: 0, graph_index: 0 }
    }
}

/// The prefix `"{root}.{call_index}.{graph_index}."`.
pub open spec fn prefix_text(root: Seq<char>, call_index: u64, graph_index: u64) -> Seq<char> {
    root + "."@ + decimal(call_index as nat) + "."@ + decimal(graph_index as nat) + "."@
}

/// The prefix that [`GraphBuilder::alloc_prefix`] gives for the arguments
/// under the defaults `d`.
pub open spec fn allocated_prefix(
    d: DefaultPrefix,
    root: Option<&str>,
    call_index: Option<u64>,
    graph_index: Option<u64>,
) -> Seq<char> {
    prefix_text(
        match root {
            Some(r) => r@,
            None => d.root@,
        },
        match call_index {
            Some(c) => c,
            None => d.call_index,
        },
        match graph_index {
            Some(g) => g,
            None => d.graph_index,
        },
    )
}

/// A given root, call index or graph index is used as given: the
/// defaults matter only for the parts not given, and a part not given is
/// its default.
pub proof fn lemma_allocated_prefix_defaults(
    d1: DefaultPrefix,
    d2: DefaultPrefix,
    root: Option<&str>,
    call_index: Option<u64>,
    graph_index: Option<u64>,
)
    requires
        root is None ==> d1.root@ == d2.root@,
        call_index is None ==> d1.call_index == d2.call_index,
        graph_index is None ==> d1.graph_index == d2.graph_index,
    ensures
        allocated_prefix(d1, root, call_index, graph_index) == allocated_prefix(d2, root, call_index, graph_index),
        allocated_prefix(d1, root, None, graph_index) == allocated_prefix(d1, root, Some(d1.call_index), graph_index),
        allocated_prefix(d1, root, call_index, None) == allocated_prefix(d1, root, call_index, Some(d1.graph_index)),
{
}

/// The allocated prefix starts with the given root and a dot, and ends
/// with a dot, the given graph index in decimal, and a dot.
pub proof fn lemma_allocated_prefix_ends(
    d: DefaultPrefix,
    root: Option<&str>,
    call_index: Option<u64>,
    graph_index: Option<u64>,
)
    ensures
        root matches Some(r) ==> allocated_prefix(d, root, call_index, graph_index).take(r@.len() as int + 1) == r@ + "."@,
        graph_index matches Some(g) ==> {
            let a = allocated_prefix(d, root, call_index, graph_index);
            let tail = "."@ + decimal(g as nat) + "."@;
            &&& tail.len() <= a.len()
            &&& a.skip(a.len() - tail.len()) == tail
        },
{
    reveal_strlit(".");
    let a = allocated_prefix(d, root, call_index, graph_index);
    if let Some(r) = root {
        assert(a.take(r@.len() as int + 1) =~= r@ + "."@);
    }
    if let Some(g) = graph_index {
        let tail = "."@ + decimal(g as nat) + "."@;
        let c = match call_index {
            Some(c) => c,
            None => d.call_index,
        };
        let rt = match root {
            Some(r) => r@,
            None => d.root@,
        };
        let head = rt + "."@ + decimal(c as nat);
        assert(a =~= head + tail);
        assert(a.skip(a.len() - tail.len()) =~= tail);
    }
}

/// Utility that outputs graphs in the JSON form expected by the ComfyUI
/// backend.
#[derive(Debug)]
pub struct GraphBuilder {
    pub prefix: String,
    nodes: IndexMap<String, Node>,
    id_gen: u64,
}

/// A node's entry with its inputs replaced.
pub open spec fn same_but_inputs(a: Node, b: Node) -> bool {
    &&& a.id == b.id
    &&& a.class_type == b.class_type
    &&& a.override_display_id == b.override_display_id
}

/// The inputs after every input that links to `target` is replaced by
/// `new_value`, or removed when `new_value` is null.
pub open spec fn rewrite_links(
    s: Seq<(Seq<char>, JsonView)>,
    target: (Seq<char>, u32),
    new_value: JsonView,
) -> Seq<(Seq<char>, JsonView)>
    decreases s.len(),
{
    if s.len() == 0 {
        s
    } else {
        let rest = rewrite_links(s.drop_last(), target, new_value);
        let e = s.last();
        if link_of(e.1) == Some(target) {
            if new_value is Null {
                rest
            } else {
                rest.push((e.0, new_value))
            }
        } else {
            rest.push(e)
        }
    }
}

/// After the links to `target` are rewritten, each input keeps its value
/// unless it links to `target`, node and socket both: then it holds
/// `new_value`, or is gone when that is null. So a link to the same node on
/// another socket is kept. No input is added, and keys stay distinct.
pub proof fn lemma_rewrite_links_lookup(
    s: Seq<(Seq<char>, JsonView)>,
    target: (Seq<char>, u32),
    new_value: JsonView,
    k: Seq<char>,
)
    requires
        keys_unique(s),
    ensures
        keys_unique(rewrite_links(s, target, new_value)),
        lookup(rewrite_links(s, target, new_value), k) == match lookup(s, k) {
            Some(v) => if link_of(v) == Some(target) {
                if new_value is Null { None } else { Some(new_value) }
            } else {
                Some(v)
            },
            None => None,
        },
        lookup(s, k) matches Some(v) ==> (link_of(v) matches Some(l) ==> (l.1 != target.1
            ==> lookup(rewrite_links(s, target, new_value), k) == Some(v))),
    decreases s.len(),
{
    if s.len() > 0 {
        let d = s.drop_last();
        let last = s.last();
        assert(d.push(last) =~= s);
        lemma_lookup_push(d, last, k);
        lemma_lookup_push(d, last, last.0);
        lemma_rewrite_links_lookup(d, target, new_value, k);
        lemma_rewrite_links_lookup(d, target, new_value, last.0);
        let rest = rewrite_links(d, target, new_value);
        assert(!has_key(d, last.0)) by {
            if has_key(d, last.0) {
                let i = choose|i: int| 0 <= i < d.len() && #[trigger] d[i].0 == last.0;
                assert(s[i].0 == s[s.len() - 1].0);
            }
        }
        assert(!has_key(rest, last.0));
        if link_of(last.1) == Some(target) {
            if !(new_value is Null) {
                lemma_push_keys_unique(rest, (last.0, new_value));
                lemma_lookup_push(rest, (last.0, new_value), k);
            }
        } else {
            lemma_push_keys_unique(rest, last);
            lemma_lookup_push(rest, last, k);
        }
    }
}

/// Rewriting links keeps the inputs in their order: the keys that remain
/// are those of the inputs that are kept (all of them unless `new_value` is
/// null, then all but the inputs that link to `target`), in the same order.
pub proof fn lemma_rewrite_links_order(s: Seq<(Seq<char>, JsonView)>, target: (Seq<char>, u32), new_value: JsonView)
    ensures
        keys_of(rewrite_links(s, target, new_value)) == keys_of(filter_keep(
            s,
            |e: (Seq<char>, JsonView)| !(new_value is Null && link_of(e.1) == Some(target)),
        )),
    decreases s.len(),
{
    if s.len() > 0 {
        lemma_rewrite_links_order(s.drop_last(), target, new_value);
        let rest = rewrite_links(s.drop_last(), target, new_value);
        let kept = filter_keep(
            s.drop_last(),
            |e: (Seq<char>, JsonView)| !(new_value is Null && link_of(e.1) == Some(target)),
        );
        let last = s.last();
        assert(keys_of(rest.push(last)) =~= keys_of(rest).push(last.0));
        assert(keys_of(rest.push((last.0, new_value))) =~= keys_of(rest).push(last.0));
        assert(keys_of(kept.push(last)) =~= keys_of(kept).push(last.0));
    }
}

proof fn lemma_rewrite_links_keys(s: Seq<(Seq<char>, JsonView)>, target: (Seq<char>, u32), new_value: JsonView, k: Seq<char>)
    requires
        has_key(rewrite_links(s, target, new_value), k),
    ensures
        has_key(s, k),
    decreases s.len(),
{
    let r = rewrite_links(s, target, new_value);
    let i = choose|i: int| 0 <= i < r.len() && #[trigger] r[i].0 == k;
    if s.len() > 0 {
        let rest = rewrite_links(s.drop_last(), target, new_value);
        if i < rest.len() {
            assert(rest[i].0 == k);
            lemma_rewrite_links_keys(s.drop_last(), target, new_value, k);
            let j = choose|j: int| 0 <= j < s.drop_last().len() && #[trigger] s.drop_last()[j].0 == k;
            assert(s[j].0 == k);
        } else {
            assert(s[s.len() - 1].0 == k);
        }
    }
}

impl GraphBuilder {
    /// The nodes built so far, by id, in order of creation.
    pub closed spec fn nodes_view(&self) -> Seq<(Seq<char>, Node)> {
        node_entries(self.nodes)
    }

    /// The prefix of every node id.
    pub closed spec fn prefix_view(&self) -> Seq<char> {
        self.prefix@
    }

    /// The number the next node without an explicit id is given.
    pub closed spec fn next_id(&self) -> u64 {
        self.id_gen
    }

    /// Node ids are distinct.
    pub open spec fn wf(&self) -> bool {
        keys_unique(self.nodes_view())
    }

    /// Creates a builder with the given prefix, or with one allocated from
    /// the defaults when none is given.
    pub fn new(prefix: Option<String>, defaults: &mut DefaultPrefix) -> (r: GraphBuilder)
        requires
            prefix is None ==> old(defaults).graph_index < u64::MAX,
        ensures
            r.wf(),
            r.prefix_view() == (match prefix {
                Some(p) => p@,
                None => allocated_prefix(*old(defaults), None, None, None),
            }),
            prefix is Some ==> *final(defaults) == *old(defaults),
            prefix is None ==> final(defaults).root == old(defaults).root
                && final(defaults).call_index == old(defaults).call_index
                && final(defaults).graph_index == old(defaults).graph_index + 1,
            r.nodes_view().len() == 0,
            r.next_id() == 1,
    {
        let prefix = match prefix {
            Some(p) => p,
            None => Self::alloc_prefix(defaults, None, None, None),
        };
        GraphBuilder { prefix, nodes: node_map_new(), id_gen: 1 }
    }

    /// Sets the defaults from which prefixes are allocated.
    pub fn set_default_prefix(defaults: &mut DefaultPrefix, prefix_root: &str, call_index: u64, graph_index: u64)
        ensures
            final(defaults).root@ == prefix_root@,
            final(defaults).call_index == call_index,
            final(defaults).graph_index == graph_index,
    {
        defaults.root = String::from_str(prefix_root);
        defaults.call_index = call_index;
        defaults.graph_index = graph_index;
    }

    /// Allocates the prefix `"{root}.{call_index}.{graph_index}."`, each part
    /// taken from the defaults where it is not given, and advances the
    /// default graph index.
    pub fn alloc_prefix(
        defaults: &mut DefaultPrefix,
        root: Option<&str>,
        call_index: Option<u64>,
        graph_index: Option<u64>,
    ) -> (r: String)
        requires
            old(defaults).graph_index < u64::MAX,
        ensures
            r@ == allocated_prefix(*old(defaults), root, call_index, graph_index),
            final(defaults).root == old(defaults).root,
            final(defaults).call_index == old(defaults).call_index,
            final(defaults).graph_index == old(defaults).graph_index + 1,
    {
        let mut result = match root {
            Some(r) => String::from_str(r),
            None => defaults.root.clone(),
        };
        let call_index = match call_index {
            Some(c) => c,
            None => defaults.call_index,
        };
        let graph_index = match graph_index {
            Some(g) => g,
            None => defaults.graph_index,
        };
        result.append(".");
        push_decimal(&mut result, call_index);
        result.append(".");
        push_decimal(&mut result, graph_index);
        result.append(".");
        defaults.graph_index = defaults.graph_index + 1;
        result
    }

    /// Creates the node with the given class type, or returns the existing
    /// node with that id. When `id` is `None` a sequential id is allocated.
    /// The node's id is the builder's prefix followed by the given or
    /// allocated id.
    pub fn node(&mut self, class_type: &str, id: Option<&str>, inputs: JsonObject) -> (r: &mut Node)
        requires
            old(self).wf(),
            id is None ==> old(self).next_id() < u64::MAX,
        ensures
            final(self).wf(),
            final(self).prefix_view() == old(self).prefix_view(),
            final(self).next_id() == (if id is None { old(self).next_id() + 1 } else { old(self).next_id() as int }),
            ({
                let key = old(self).prefix_view() + (match id {
                    Some(i) => i@,
                    None => decimal(old(self).next_id() as nat),
                });
                let old_nodes = old(self).nodes_view();
                if has_key(old_nodes, key) {
                    &&& *r == old_nodes[key_pos(old_nodes, key)].1
                    &&& final(self).nodes_view() == old_nodes.update(key_pos(old_nodes, key), (key, *final(r)))
                } else {
                    &&& r.id@ == key
                    &&& r.class_type@ == class_type@
                    &&& r.inputs == inputs
                    &&& r.override_display_id is None
                    &&& final(self).nodes_view() == old_nodes.push((key, *final(r)))
                }
            }),
    {
        let ghost old_nodes = node_entries(self.nodes);
        let id_str = match id {
            Some(s) => String::from_str(s),
            None => {
                let s = u64_to_decimal(self.id_gen);
                self.id_gen = self.id_gen + 1;
                s
            },
        };
        let full = concat(self.prefix.as_str(), id_str.as_str());
        match node_map_get_index_of(&self.nodes, full.as_str()) {
            Some(i) => {
                proof {
                    let ghost kp = key_pos(old_nodes, full@);
                    assert(old_nodes[kp].0 == full@);
                    assert forall|a: int, b: int|
                        0 <= a < old_nodes.len() && 0 <= b < old_nodes.len() && a != b implies
                        #[trigger] old_nodes.update(kp, (full@, old_nodes[kp].1))[a].0 != #[trigger] old_nodes.update(kp, (full@, old_nodes[kp].1))[b].0 by {
                    }
                }
                let r = node_map_index_mut(&mut self.nodes, i);
                proof {
                    let ghost kp = key_pos(old_nodes, full@);
                    assert(old_nodes[kp].0 == full@);
                }
                r
            },
            None => {
                let node = Node::new(full.clone(), String::from_str(class_type), inputs);
                node_map_insert(&mut self.nodes, full, node);
                proof {
                    lemma_keyed_insert(old_nodes, full@, node);
                }
                let n = node_map_len(&self.nodes);
                let r = node_map_index_mut(&mut self.nodes, n - 1);
                r
            },
        }
    }

    /// The node with id prefix followed by `id`, if there is one.
    pub fn lookup_node(&mut self, id: &str) -> (r: Option<&mut Node>)
        requires
            old(self).wf(),
        ensures
            final(self).wf(),
            final(self).prefix_view() == old(self).prefix_view(),
            final(self).next_id() == old(self).next_id(),
            ({
                let key = old(self).prefix_view() + id@;
                let old_nodes = old(self).nodes_view();
                &&& r is Some <==> has_key(old_nodes, key)
                &&& r is None ==> final(self).nodes_view() == old_nodes
                &&& r matches Some(n) ==> {
                    &&& *n == old_nodes[key_pos(old_nodes, key)].1
                    &&& final(self).nodes_view() == old_nodes.update(key_pos(old_nodes, key), (key, *final(n)))
                }
            }),
    {
        let ghost old_nodes = node_entries(self.nodes);
        let full = concat(self.prefix.as_str(), id);
        match node_map_get_index_of(&self.nodes, full.as_str()) {
            Some(i) => {
                proof {
                    let ghost kp = key_pos(old_nodes, full@);
                    assert(old_nodes[kp].0 == full@);
                    assert forall|a: int, b: int|
                        0 <= a < old_nodes.len() && 0 <= b < old_nodes.len() && a != b implies
                        #[trigger] old_nodes.update(kp, (full@, old_nodes[kp].1))[a].0 != #[trigger] old_nodes.update(kp, (full@, old_nodes[kp].1))[b].0 by {
                    }
                }
                Some(node_map_index_mut(&mut self.nodes, i))
            },
            None => None,
        }
    }

    /// All nodes in the API prompt format, keyed by node id, in order of
    /// creation.
    pub fn finalize(&self) -> (r: JsonObject)
        requires
            self.wf(),
        ensures
            r@ == self.nodes_view().map_values(|e: (Seq<char>, Node)| (e.0, node_view(e.1))),
    {
        let ghost nodes = node_entries(self.nodes);
        let mut output = JsonObject::new();
        let n = node_map_len(&self.nodes);
        let mut i: usize = 0;
        while i < n
            invariant
                n == nodes.len(),
                nodes == node_entries(self.nodes),
                keys_unique(nodes),
                i <= n,
                output@ == nodes.take(i as int).map_values(|e: (Seq<char>, Node)| (e.0, node_view(e.1))),
            decreases n - i,
        {
            let (node_id, node) = node_map_get_index(&self.nodes, i).unwrap();
            let ghost before = output@;
            proof {
                if has_key(before, node_id@) {
                    let j = choose|j: int| 0 <= j < before.len() && #[trigger] before[j].0 == node_id@;
                    assert(nodes[j].0 == node_id@);
                }
            }
            output.insert(node_id.clone(), node.serialize());
            assert(output@ =~= nodes.take(i + 1).map_values(|e: (Seq<char>, Node)| (e.0, node_view(e.1))));
            i += 1;
        }
        assert(nodes.take(n as int) =~= nodes);
        output
    }

    /// Rewrites every input, of every node, that links to socket `index`
    /// of the node with id prefix followed by `node_id`: the input takes the
    /// value `new_value`, or is removed when `new_value` is null.
    pub fn replace_node_output(&mut self, node_id: &str, index: u32, new_value: JsonValue)
        requires
            old(self).wf(),
        ensures
            final(self).wf(),
            final(self).prefix_view() == old(self).prefix_view(),
            final(self).next_id() == old(self).next_id(),
            final(self).nodes_view().len() == old(self).nodes_view().len(),
            forall|i: int| 0 <= i < old(self).nodes_view().len() ==> {
                let e = old(self).nodes_view()[i];
                let f = #[trigger] final(self).nodes_view()[i];
                &&& f.0 == e.0
                &&& same_but_inputs(f.1, e.1)
                &&& f.1.inputs@ == rewrite_links(e.1.inputs@, (old(self).prefix_view() + node_id@, index), new_value@)
            },
    {
        let ghost old_nodes = node_entries(self.nodes);
        let full = concat(self.prefix.as_str(), node_id);
        let target = Link { node_id: full, socket: index };
        let n = node_map_len(&self.nodes);
        let mut i: usize = 0;
        while i < n
            invariant
                n == old_nodes.len(),
                node_entries(self.nodes).len() == n,
                keys_unique(node_entries(self.nodes)),
                target@ == (self.prefix@ + node_id@, index),
                self.prefix == old(self).prefix,
                self.id_gen == old(self).id_gen,
                i <= n,
                forall|j: int| i <= j < n ==> #[trigger] node_entries(self.nodes)[j] == old_nodes[j],
                forall|j: int| 0 <= j < i ==> {
                    let e = old_nodes[j];
                    let f = #[trigger] node_entries(self.nodes)[j];
                    &&& f.0 == e.0
                    &&& same_but_inputs(f.1, e.1)
                    &&& f.1.inputs@ == rewrite_links(e.1.inputs@, target@, new_value@)
                },
            decreases n - i,
        {
            let ghost before = node_entries(self.nodes);
            let node = node_map_index_mut(&mut self.nodes, i);
            let rewritten = rewrite_inputs(&node.inputs, &target, &new_value);
            node.inputs = rewritten;
            proof {
                assert forall|a: int, b: int|
                    0 <= a < n && 0 <= b < n && a != b implies
                    #[trigger] node_entries(self.nodes)[a].0 != #[trigger] node_entries(self.nodes)[b].0 by {
                    assert(before[a].0 != before[b].0);
                }
            }
            i += 1;
        }
    }

    /// Removes the node with id prefix followed by `id`.
    pub fn remove_node(&mut self, id: &str)
        requires
            old(self).wf(),
        ensures
            final(self).wf(),
            final(self).prefix_view() == old(self).prefix_view(),
            final(self).next_id() == old(self).next_id(),
            final(self).nodes_view() == keyed_remove(old(self).nodes_view(), old(self).prefix_view() + id@),
            !has_key(final(self).nodes_view(), old(self).prefix_view() + id@),
    {
        let full = concat(self.prefix.as_str(), id);
        proof {
            lemma_keyed_remove(node_entries(self.nodes), full@);
        }
        node_map_shift_remove(&mut self.nodes, full.as_str());
    }
}

/// The inputs with every link to `target` replaced by `new_value`, or
/// removed when `new_value` is null.
fn rewrite_inputs(inputs: &JsonObject, target: &Link, new_value: &JsonValue) -> (r: JsonObject)
    ensures
        r@ == rewrite_links(inputs@, target@, new_value@),
{
    let n = inputs.len();
    let ghost s = inputs@;
    let mut out = JsonObject::new();
    let mut i: usize = 0;
    while i < n
        invariant
            n == s.len(),
            s == inputs@,
            keys_unique(s),
            i <= n,
            out@ == rewrite_links(s.take(i as int), target@, new_value@),
        decreases n - i,
    {
        let (key, value) = inputs.get_index(i).unwrap();
        assert(s.take(i + 1).drop_last() =~= s.take(i as int));
        let ghost before = out@;
        proof {
            if has_key(before, key@) {
                lemma_rewrite_links_keys(s.take(i as int), target@, new_value@, key@);
                let j = choose|j: int| 0 <= j < s.take(i as int).len() && #[trigger] s.take(i as int)[j].0 == key@;
                assert(s[j].0 == key@);
            }
        }
        if links_match(value, target) {
            if !matches!(new_value, JsonValue::Null) {
                out.insert(key.clone(), new_value.deep_copy());
            }
        } else {
            out.insert(key.clone(), value.deep_copy());
        }
        i += 1;
    }
    assert(s.take(n as int) =~= s);
    out
}

/// Whether `a` is a link to the same node and socket as `target`.
fn links_match(a: &JsonValue, target: &Link) -> (r: bool)
    ensures
        r == (link_of(a@) == Some(target@)),
{
    match Link::parse(a) {
        Some(l) => l.same_as(target),
        None => false,
    }
}


/// `value.get(key)` of a JSON value: the field of an object; nothing for
/// any other value.
pub open spec fn field(v: JsonView, k: Seq<char>) -> Option<JsonView> {
    match v {
        JsonView::Object(o) => lookup(o, k),
        _ => None,
    }
}

/// A link with `prefix` put before the node id it names; any other value
/// as it is.
pub open spec fn prefixed_link(v: JsonView, prefix: Seq<char>) -> JsonView {
    if spec_is_link(v) {
        JsonView::Array(seq![JsonView::Str(prefix + v->Array_0[0]->Str_0), v->Array_0[1]])
    } else {
        v
    }
}

/// The inputs object of a node with every link prefixed; empty when the
/// node has no inputs object.
pub open spec fn prefixed_inputs(info: JsonView, prefix: Seq<char>) -> Seq<(Seq<char>, JsonView)> {
    match field(info, "inputs"@) {
        Some(JsonView::Object(o)) => o.map_values(|e: (Seq<char>, JsonView)| (e.0, prefixed_link(e.1, prefix))),
        _ => Seq::empty(),
    }
}

/// A node of a graph under a prefix: its class type (null when it has
/// none) and its inputs with every link prefixed.
pub open spec fn prefixed_node(info: JsonView, prefix: Seq<char>) -> JsonView {
    JsonView::Object(
        seq![
            ("class_type"@, match field(info, "class_type"@) {
                Some(c) => c,
                None => JsonView::Null,
            }),
            ("inputs"@, JsonView::Object(prefixed_inputs(info, prefix))),
        ],
    )
}

/// A link under a prefix links to the prefixed node id on the same
/// socket; a value that is not a link stays as it is.
pub proof fn lemma_prefixed_link_of(v: JsonView, p: Seq<char>)
    ensures
        link_of(prefixed_link(v, p)) == match link_of(v) {
            Some(l) => Some((p + l.0, l.1)),
            None => None::<(Seq<char>, u32)>,
        },
        spec_is_link(prefixed_link(v, p)) == spec_is_link(v),
        !spec_is_link(v) ==> prefixed_link(v, p) == v,
{
}

/// A node under a prefix keeps its class type (null when it has none)
/// and each of its inputs under the same key, with links prefixed (see
/// [`lemma_prefixed_link_of`]); a node without an inputs object gets an
/// empty one; it holds nothing else.
pub proof fn lemma_prefixed_node_fields(info: JsonView, p: Seq<char>, k: Seq<char>)
    ensures
        field(info, "class_type"@) matches Some(c) ==> field(prefixed_node(info, p), "class_type"@) == Some(c),
        field(info, "class_type"@) is None ==> field(prefixed_node(info, p), "class_type"@) == Some(JsonView::Null),
        field(info, "inputs"@) matches Some(JsonView::Object(o)) ==> (keys_unique(o) ==> (
            field(prefixed_node(info, p), "inputs"@) matches Some(JsonView::Object(o2)) && lookup(o2, k) == match lookup(o, k) {
                Some(v) => Some(prefixed_link(v, p)),
                None => None::<JsonView>,
            })),
        !(field(info, "inputs"@) matches Some(JsonView::Object(_)))
            ==> field(prefixed_node(info, p), "inputs"@) == Some(JsonView::Object(Seq::empty())),
        field(prefixed_node(info, p), k) is Some ==> k == "class_type"@ || k == "inputs"@,
        field(info, "inputs"@) matches Some(JsonView::Object(o)) ==> (field(prefixed_node(info, p), "inputs"@)
            matches Some(JsonView::Object(o2)) && keys_of(o2) == keys_of(o)),
{
    reveal_strlit("class_type");
    reveal_strlit("inputs");
    assert("inputs"@[0] != "class_type"@[0]);
    let n = prefixed_node(info, p)->Object_0;
    assert(keys_unique(n));
    lemma_key_pos(n, 0);
    lemma_key_pos(n, 1);
    if let Some(JsonView::Object(o)) = field(info, "inputs"@) {
        assert(keys_of(prefixed_inputs(info, p)) =~= keys_of(o));
        if keys_unique(o) {
            let o2 = prefixed_inputs(info, p);
            assert(keys_unique(o2)) by {
                assert forall|i: int, j: int| 0 <= i < o2.len() && 0 <= j < o2.len() && i != j
                    implies #[trigger] o2[i].0 != #[trigger] o2[j].0 by {
                    assert(o2[i].0 == o[i].0);
                    assert(o2[j].0 == o[j].0);
                }
            }
            if has_key(o, k) {
                let i = choose|i: int| 0 <= i < o.len() && #[trigger] o[i].0 == k;
                lemma_key_pos(o, i);
                assert(o2[i].0 == k);
                lemma_key_pos(o2, i);
            } else {
                assert(!has_key(o2, k)) by {
                    if has_key(o2, k) {
                        let i = choose|i: int| 0 <= i < o2.len() && #[trigger] o2[i].0 == k;
                        assert(o[i].0 == o2[i].0);
                    }
                }
            }
        }
    }
}

/// Putting the same prefix before two strings keeps them apart.
pub proof fn lemma_prefix_injective(p: Seq<char>, a: Seq<char>, b: Seq<char>)
    ensures
        (p + a == p + b) == (a == b),
{
    if p + a == p + b {
        assert((p + a).subrange(p.len() as int, (p + a).len() as int) =~= a);
        assert((p + b).subrange(p.len() as int, (p + b).len() as int) =~= b);
    }
}

/// The ids that a builder allocates for nodes created without an id, its
/// prefix followed by a number, differ for different numbers.
pub proof fn lemma_allocated_ids_distinct(prefix: Seq<char>, a: nat, b: nat)
    ensures
        (prefix + decimal(a) == prefix + decimal(b)) == (a == b),
{
    lemma_prefix_injective(prefix, decimal(a), decimal(b));
    lemma_decimal_injective(a, b);
}

/// A link prefixed with `p` and then with `q` is the link prefixed with
/// `q + p`; any other value stays as it is.
pub proof fn lemma_prefixed_link_twice(v: JsonView, p: Seq<char>, q: Seq<char>)
    ensures
        prefixed_link(prefixed_link(v, p), q) == prefixed_link(v, q + p),
{
    if spec_is_link(v) {
        let a = v->Array_0;
        let w = prefixed_link(v, p);
        assert(w->Array_0[0] == JsonView::Str(p + a[0]->Str_0));
        assert(w->Array_0[1] == a[1]);
        assert(spec_is_link(w));
        assert(q + (p + a[0]->Str_0) =~= (q + p) + a[0]->Str_0);
        assert(prefixed_link(w, q)->Array_0 =~= prefixed_link(v, q + p)->Array_0);
    }
}

/// A node prefixed with `p` and then with `q` is the node prefixed with
/// `q + p`.
pub proof fn lemma_prefixed_node_twice(info: JsonView, p: Seq<char>, q: Seq<char>)
    ensures
        prefixed_node(prefixed_node(info, p), q) == prefixed_node(info, q + p),
{
    reveal_strlit("class_type");
    reveal_strlit("inputs");
    assert("inputs"@ != "class_type"@) by {
        assert("inputs"@[0] != "class_type"@[0]);
    }
    let n = prefixed_node(info, p);
    let o = n->Object_0;
    assert(o[0].0 == "class_type"@);
    assert(o[1].0 == "inputs"@);
    lemma_key_pos_two(o);
    assert(field(n, "class_type"@) == Some(o[0].1));
    assert(field(n, "inputs"@) == Some(o[1].1));
    assert forall|i: int| 0 <= i < prefixed_inputs(n, q).len() implies
        #[trigger] prefixed_inputs(n, q)[i] == prefixed_inputs(info, q + p)[i] by {
        match field(info, "inputs"@) {
            Some(JsonView::Object(io)) => {
                lemma_prefixed_link_twice(io[i].1, p, q);
            },
            _ => {},
        }
    }
    assert(prefixed_inputs(n, q) =~= prefixed_inputs(info, q + p));
    assert(prefixed_node(n, q)->Object_0 =~= prefixed_node(info, q + p)->Object_0);
}

/// In a two-entry object whose keys differ, each key is found at its entry.
proof fn lemma_key_pos_two(o: Seq<(Seq<char>, JsonView)>)
    requires
        o.len() == 2,
        o[0].0 != o[1].0,
    ensures
        lookup(o, o[0].0) == Some(o[0].1),
        lookup(o, o[1].0) == Some(o[1].1),
{
    assert(has_key(o, o[0].0));
    assert(has_key(o, o[1].0));
}

/// Prefixing a graph with `p`, and then its result with `q`, is prefixing
/// it once with `q + p`: for the nodes and for the outputs (as
/// [`add_graph_prefix`] states them).
pub proof fn lemma_prefix_twice(graph: Seq<(Seq<char>, JsonView)>, outputs: Seq<JsonView>, p: Seq<char>, q: Seq<char>)
    ensures
        graph.map_values(|e: (Seq<char>, JsonView)| (p + e.0, prefixed_node(e.1, p))).map_values(
            |e: (Seq<char>, JsonView)| (q + e.0, prefixed_node(e.1, q)),
        ) == graph.map_values(|e: (Seq<char>, JsonView)| ((q + p) + e.0, prefixed_node(e.1, q + p))),
        outputs.map_values(|v: JsonView| prefixed_link(v, p)).map_values(|v: JsonView| prefixed_link(v, q))
            == outputs.map_values(|v: JsonView| prefixed_link(v, q + p)),
{
    let g1 = graph.map_values(|e: (Seq<char>, JsonView)| (p + e.0, prefixed_node(e.1, p)));
    let g2 = g1.map_values(|e: (Seq<char>, JsonView)| (q + e.0, prefixed_node(e.1, q)));
    let g3 = graph.map_values(|e: (Seq<char>, JsonView)| ((q + p) + e.0, prefixed_node(e.1, q + p)));
    assert forall|i: int| 0 <= i < g2.len() implies #[trigger] g2[i] == g3[i] by {
        lemma_prefixed_node_twice(graph[i].1, p, q);
        assert(q + (p + graph[i].0) =~= (q + p) + graph[i].0);
    }
    assert(g2 =~= g3);
    let o1 = outputs.map_values(|v: JsonView| prefixed_link(v, p));
    let o2 = o1.map_values(|v: JsonView| prefixed_link(v, q));
    let o3 = outputs.map_values(|v: JsonView| prefixed_link(v, q + p));
    assert forall|i: int| 0 <= i < o2.len() implies #[trigger] o2[i] == o3[i] by {
        lemma_prefixed_link_twice(outputs[i], p, q);
    }
    assert(o2 =~= o3);
}

/// The value with [`prefixed_link`] applied.
fn prefix_link_value(v: &JsonValue, prefix: &str) -> (r: JsonValue)
    ensures
        r@ == prefixed_link(v@, prefix@),
{
    if is_link(v) {
        match v {
            JsonValue::Array(arr) => {
                proof {
                    lemma_array_view(*arr);
                }
                match &arr[0] {
                    JsonValue::String(from_id) => {
                        let out = vec![JsonValue::String(concat(prefix, from_id.as_str())), arr[1].deep_copy()];
                        proof {
                            lemma_array_view(out);
                            assert(out@.map_values(|x: JsonValue| x@) =~= (prefixed_link(v@, prefix@))->Array_0);
                        }
                        JsonValue::Array(out)
                    },
                    _ => v.deep_copy(),
                }
            },
            _ => v.deep_copy(),
        }
    } else {
        v.deep_copy()
    }
}

/// The prefixed inputs of a node, see [`prefixed_inputs`].
fn prefix_inputs(node_info: &JsonValue, prefix: &str) -> (r: JsonObject)
    ensures
        r@ == prefixed_inputs(node_info@, prefix@),
{
    proof {
        reveal_strlit("inputs");
    }
    let mut new_inputs = JsonObject::new();
    match node_info {
        JsonValue::Object(o) => match o.get("inputs") {
            Some(JsonValue::Object(inputs)) => {
                let n = inputs.len();
                let ghost s = inputs@;
                let mut i: usize = 0;
                while i < n
                    invariant
                        n == s.len(),
                        s == inputs@,
                        keys_unique(s),
                        i <= n,
                        new_inputs@ == s.take(i as int).map_values(|e: (Seq<char>, JsonView)| (e.0, prefixed_link(e.1, prefix@))),
                    decreases n - i,
                {
                    let (name, value) = inputs.get_index(i).unwrap();
                    let ghost before = new_inputs@;
                    proof {
                        if has_key(before, name@) {
                            let j = choose|j: int| 0 <= j < before.len() && #[trigger] before[j].0 == name@;
                            assert(s[j].0 == name@);
                        }
                    }
                    new_inputs.insert(name.clone(), prefix_link_value(value, prefix));
                    assert(new_inputs@ =~= s.take(i + 1).map_values(|e: (Seq<char>, JsonView)| (e.0, prefixed_link(e.1, prefix@))));
                    i += 1;
                }
                assert(s.take(n as int) =~= s);
            },
            _ => {},
        },
        _ => {},
    }
    new_inputs
}

/// Prefixes every node id in `graph`, and every link in the inputs of its
/// nodes, with `prefix`, and remaps the given outputs the same way. Each node
/// keeps only its class type and inputs.
pub fn add_graph_prefix(graph: &JsonObject, outputs: &[JsonValue], prefix: &str) -> (r: (JsonObject, Vec<JsonValue>))
    ensures
        r.0@ == graph@.map_values(|e: (Seq<char>, JsonView)| (prefix@ + e.0, prefixed_node(e.1, prefix@))),
        r.1@.map_values(|v: JsonValue| v@) == outputs@.map_values(|v: JsonValue| prefixed_link(v@, prefix@)),
{
    proof {
        reveal_strlit("class_type");
        reveal_strlit("inputs");
    }
    assert("inputs"@ != "class_type"@) by {
        assert("inputs"@[0] != "class_type"@[0]);
    }
    let mut new_graph = JsonObject::new();
    let n = graph.len();
    let ghost s = graph@;
    let mut i: usize = 0;
    while i < n
        invariant
            n == s.len(),
            s == graph@,
            keys_unique(s),
            i <= n,
            "inputs"@ != "class_type"@,
            new_graph@ == s.take(i as int).map_values(|e: (Seq<char>, JsonView)| (prefix@ + e.0, prefixed_node(e.1, prefix@))),
        decreases n - i,
    {
        let (node_id, node_info) = graph.get_index(i).unwrap();
        let new_node_id = concat(prefix, node_id.as_str());
        let class_type = match node_info {
            JsonValue::Object(o) => match o.get("class_type") {
                Some(c) => c.deep_copy(),
                None => JsonValue::Null,
            },
            _ => JsonValue::Null,
        };
        let new_inputs = prefix_inputs(node_info, prefix);
        let mut new_node = JsonObject::new();
        new_node.insert(String::from_str("class_type"), class_type);
        new_node.insert(String::from_str("inputs"), JsonValue::Object(new_inputs));
        assert(new_node@ =~= (prefixed_node(node_info@, prefix@))->Object_0);
        let ghost before = new_graph@;
        proof {
            if has_key(before, new_node_id@) {
                let j = choose|j: int| 0 <= j < before.len() && #[trigger] before[j].0 == new_node_id@;
                lemma_prefix_injective(prefix@, s[j].0, node_id@);
                assert(s[j].0 == node_id@);
            }
        }
        new_graph.insert(new_node_id, JsonValue::Object(new_node));
        assert(new_graph@ =~= s.take(i + 1).map_values(|e: (Seq<char>, JsonView)| (prefix@ + e.0, prefixed_node(e.1, prefix@))));
        i += 1;
    }
    assert(s.take(n as int) =~= s);
    let mut new_outputs: Vec<JsonValue> = Vec::new();
    let m = outputs.len();
    let mut k: usize = 0;
    while k < m
        invariant
            m == outputs@.len(),
            k <= m,
            new_outputs@.len() == k,
            forall|j: int| 0 <= j < k ==> #[trigger] new_outputs@[j]@ == prefixed_link(outputs@[j]@, prefix@),
        decreases m - k,
    {
        new_outputs.push(prefix_link_value(&outputs[k], prefix));
        k += 1;
    }
    assert(new_outputs@.map_values(|v: JsonValue| v@) =~= outputs@.map_values(|v: JsonValue| prefixed_link(v@, prefix@)));
    (new_graph, new_outputs)
}

} // verus!
