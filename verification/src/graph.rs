//! The dynamic prompt (the user's prompt plus nodes added while the graph
//! executes) and the dependency tracker that dissolves the graph as nodes
//! complete.

use vstd::prelude::*;

use indexmap::{IndexMap, IndexSet};

use crate::blocking::{
    all_strong, any_strong, blocked_of, blocker_count, blocks, cycle_nodes, dissolves, has_pending_blocker, in_cycle,
    in_round,
    lemma_dissolves_le, lemma_dissolves_mono, lemma_round_before, lemma_round_of, round_of, runs_before,
    lemma_all_blocked_all_in_cycle, lemma_blocker_count_le, lemma_blocker_count_same, lemma_blocker_count_add, flag, lemma_blocker_count_push, lemma_blocker_count_remove,
    lemma_blocker_count_update, lemma_blocker_count_zero, lemma_blocks_at, lemma_ordered_no_cycle,
    lemma_removal_done, lemma_removal_keys_unique, lemma_removal_ready, lemma_removal_round, lemma_removal_start,
    lemma_removal_step, lemma_stuck_in_cycle, removal_state, strongly_blocks, Blocked, Blocking, Sockets,
};
use crate::collections::{
    blocked_entries, blocked_map_contains_key, blocked_map_get_index, blocked_map_insert, blocked_map_len,
    blocked_map_new, blocker_entries, blocker_map_contains_key, blocker_map_get_index, blocker_map_insert,
    blocker_map_len, blocker_map_new, blocker_map_shift_remove, blocking_entries, blocking_map_get_index,
    blocking_map_insert, blocking_map_len, blocking_map_new, blocking_map_shift_remove, count_map_entries,
    count_map_get, count_map_insert, count_map_new, count_map_shift_remove, socket_entries, socket_map_get_index,
    socket_map_insert, socket_map_len, socket_map_new, string_map_entries, string_map_get, string_map_insert,
    string_map_new, string_set_contains, string_set_get_index, string_set_insert, string_set_items, string_set_len,
    string_set_new, string_set_shift_remove,
};
use crate::graph_utils::{field, is_link, link_of, spec_is_link, Link};
use crate::json::{JsonObject, JsonValue, JsonView};
use crate::keyed::{
    has_key, key_pos, keyed_insert, keyed_remove, keys_of, keys_unique, lemma_filter_keep, lemma_has_key_keys_of,
    lemma_key_pos, lemma_keyed_insert, lemma_keyed_insert_has_key, lemma_keyed_insert_twice, lemma_keyed_remove,
    lemma_keys_of_insert, lemma_keys_of_remove, lemma_keys_of_unique, lemma_seq_without, lookup, seq_with,
    seq_without,
};

verus! {

/// The errors of graph operations.
#[derive(Debug)]
pub enum GraphError {
    DependencyCycle { nodes_in_cycle: Vec<String> },
    NodeInput(String),
    NodeNotFound(String),
}

/// The message that describes an error.
pub open spec fn error_message(e: GraphError) -> Seq<char> {
    match e {
        GraphError::DependencyCycle { .. } => "Dependency cycle detected"@,
        GraphError::NodeInput(m) => m@,
        GraphError::NodeNotFound(id) => "Node "@ + id@ + " not found"@,
    }
}

impl GraphError {
    /// The message that describes the error.
    pub fn message(&self) -> (r: String)
        ensures
            r@ == error_message(*self),
    {
        match self {
            GraphError::DependencyCycle { .. } => String::from_str("Dependency cycle detected"),
            GraphError::NodeInput(m) => m.clone(),
            GraphError::NodeNotFound(id) => {
                let mut s = String::from_str("Node ");
                s.append(id.as_str());
                s.append(" not found");
                s
            },
        }
    }
}

/// Resolves node-definition metadata that lives in the node registry.
/// Implementations can consult a native registry, ask a backend, or (for
/// pure graph work) use [`NoopResolver`].
pub trait NodeDefResolver {
    /// Whether the input `input_name` of the node class `class_type` is
    /// declared lazy: none is, unless an implementation that declares lazy
    /// inputs says which.
    open spec fn lazy_input(&self, class_type: Seq<char>, input_name: Seq<char>) -> bool {
        false
    }

    /// Whether the given input of the given node class is declared lazy.
    fn is_input_lazy(&self, class_type: &str, input_name: &str) -> (r: bool)
        ensures
            r == self.lazy_input(class_type@, input_name@),
    ;

    /// Whether the node class is an output node. Unless an implementation
    /// says otherwise, no node class is.
    fn is_output_node(&self, class_type: &str) -> (r: bool)
        default_ensures
            !r,
    {
        false
    }
}

/// Resolver that treats every input as non-lazy and no node as an output
/// node. Matches graphs that do not use lazy evaluation.
#[derive(Debug, Default, Clone, Copy)]
pub struct NoopResolver;

impl NodeDefResolver for NoopResolver {
    fn is_input_lazy(&self, class_type: &str, input_name: &str) -> (r: bool) {
        false
    }
}

/// The user's original prompt plus any ephemeral nodes added while the
/// graph executes (e.g. expanded subgraphs).
#[derive(Debug)]
pub struct DynamicPrompt {
    original_prompt: JsonObject,
    ephemeral_prompt: JsonObject,
    ephemeral_parents: IndexMap<String, String>,
    ephemeral_display: IndexMap<String, String>,
}

/// The node under `id`: an ephemeral node first, then one of the original
/// prompt.
pub open spec fn node_in(
    original: Seq<(Seq<char>, JsonView)>,
    ephemeral: Seq<(Seq<char>, JsonView)>,
    id: Seq<char>,
) -> Option<JsonView> {
    match lookup(ephemeral, id) {
        Some(v) => Some(v),
        None => lookup(original, id),
    }
}

/// `id` after `n` steps along `m`, each step from a key to its value and
/// staying put at an id that is not a key.
pub open spec fn follow(m: Seq<(Seq<char>, Seq<char>)>, id: Seq<char>, n: nat) -> Seq<char>
    decreases n,
{
    if n == 0 {
        id
    } else {
        let prev = follow(m, id, (n - 1) as nat);
        match lookup(m, prev) {
            Some(next) => next,
            None => prev,
        }
    }
}

/// Following `m` from `id` reaches an id that is not a key.
pub open spec fn chain_ends(m: Seq<(Seq<char>, Seq<char>)>, id: Seq<char>) -> bool {
    exists|n: nat| !has_key(m, #[trigger] follow(m, id, n))
}

/// A number of steps after which following `m` from `id` has ended.
pub open spec fn chain_len(m: Seq<(Seq<char>, Seq<char>)>, id: Seq<char>) -> nat {
    choose|n: nat| !has_key(m, #[trigger] follow(m, id, n))
}

/// The id where following `m` from `id` ends.
pub open spec fn chain_end(m: Seq<(Seq<char>, Seq<char>)>, id: Seq<char>) -> Seq<char> {
    follow(m, id, chain_len(m, id))
}

/// Once the chain has ended it stays where it ended.
pub proof fn lemma_follow_stays(m: Seq<(Seq<char>, Seq<char>)>, id: Seq<char>, n: nat, k: nat)
    requires
        !has_key(m, follow(m, id, n)),
        n <= k,
    ensures
        follow(m, id, k) == follow(m, id, n),
    decreases k,
{
    if k > n {
        lemma_follow_stays(m, id, n, (k - 1) as nat);
    }
}

/// One step along `m` and then `n` more is `n + 1` steps.
proof fn lemma_follow_shift(m: Seq<(Seq<char>, Seq<char>)>, id: Seq<char>, n: nat)
    requires
        has_key(m, id),
    ensures
        follow(m, id, n + 1) == follow(m, lookup(m, id)->0, n),
    decreases n,
{
    let next = lookup(m, id)->0;
    if n > 0 {
        lemma_follow_shift(m, id, (n - 1) as nat);
        let prev = follow(m, id, n);
        assert(prev == follow(m, next, (n - 1) as nat));
        assert(follow(m, id, n + 1) == (match lookup(m, prev) {
            Some(x) => x,
            None => prev,
        }));
        assert(follow(m, next, n) == (match lookup(m, prev) {
            Some(x) => x,
            None => prev,
        }));
    } else {
        assert(follow(m, id, 0) == id);
        assert(follow(m, id, 1) == next);
    }
}

/// Following `m` from a key ends where following it from the key's value
/// ends: the real id (or display id) of an ephemeral node is that of its
/// parent (or display node).
pub proof fn lemma_chain_end_step(m: Seq<(Seq<char>, Seq<char>)>, id: Seq<char>)
    requires
        has_key(m, id),
        chain_ends(m, id),
    ensures
        chain_ends(m, lookup(m, id)->0),
        chain_end(m, id) == chain_end(m, lookup(m, id)->0),
{
    let next = lookup(m, id)->0;
    let l = chain_len(m, id);
    assert(!has_key(m, follow(m, id, l)));
    assert(l >= 1);
    lemma_follow_shift(m, id, (l - 1) as nat);
    assert(!has_key(m, follow(m, next, (l - 1) as nat)));
    assert(chain_ends(m, next));
    let l2 = chain_len(m, next);
    assert(!has_key(m, follow(m, next, l2)));
    let k: nat = if l2 > l { l2 } else { l };
    lemma_follow_stays(m, next, (l - 1) as nat, k);
    lemma_follow_stays(m, next, l2, k);
}

/// With `v` added, the elements are the old ones and `v`.
pub proof fn lemma_seq_with_contains<A>(s: Seq<A>, v: A)
    ensures
        forall|x: A| #[trigger] seq_with(s, v).contains(x) == (s.contains(x) || x == v),
        s.no_duplicates() ==> seq_with(s, v).no_duplicates(),
{
    if !s.contains(v) {
        let t = s.push(v);
        assert forall|x: A| #[trigger] t.contains(x) == (s.contains(x) || x == v) by {
            if t.contains(x) {
                let i = choose|i: int| 0 <= i < t.len() && t[i] == x;
                if i < s.len() {
                    assert(s[i] == x);
                }
            }
            if s.contains(x) {
                let i = choose|i: int| 0 <= i < s.len() && s[i] == x;
                assert(t[i] == x);
            }
            assert(t[s.len() as int] == v);
        }
        if s.no_duplicates() {
            assert forall|a: int, b: int| 0 <= a < t.len() && 0 <= b < t.len() && a != b implies t[a] != t[b] by {
                if a == s.len() {
                    assert(s.contains(t[b]));
                } else if b == s.len() {
                    assert(s.contains(t[a]));
                }
            }
        }
    }
}

/// Dropping the repeats keeps every element once.
pub proof fn lemma_dedup(s: Seq<Seq<char>>)
    ensures
        forall|x: Seq<char>| #[trigger] dedup(s).contains(x) == s.contains(x),
        dedup(s).no_duplicates(),
    decreases s.len(),
{
    if s.len() > 0 {
        let s0 = s.drop_last();
        lemma_dedup(s0);
        lemma_seq_with_contains(dedup(s0), s.last());
        assert forall|x: Seq<char>| #[trigger] dedup(s).contains(x) == s.contains(x) by {
            if s0.contains(x) {
                let i = choose|i: int| 0 <= i < s0.len() && s0[i] == x;
                assert(s[i] == x);
            }
            if s.contains(x) {
                let i = choose|i: int| 0 <= i < s.len() && s[i] == x;
                if i < s0.len() {
                    assert(s0[i] == x);
                }
            }
            assert(s[s.len() - 1] == s.last());
        }
    }
}

/// The ids that `all_node_ids` lists are exactly those that `has_node`
/// accepts, each once.
pub proof fn lemma_all_node_ids(
    original: Seq<(Seq<char>, JsonView)>,
    ephemeral: Seq<(Seq<char>, JsonView)>,
    x: Seq<char>,
)
    ensures
        dedup(keys_of(original) + keys_of(ephemeral)).contains(x) == (has_key(original, x) || has_key(ephemeral, x)),
        dedup(keys_of(original) + keys_of(ephemeral)).no_duplicates(),
{
    let all = keys_of(original) + keys_of(ephemeral);
    lemma_dedup(all);
    lemma_has_key_keys_of(original, x);
    lemma_has_key_keys_of(ephemeral, x);
    if all.contains(x) {
        let i = choose|i: int| 0 <= i < all.len() && all[i] == x;
        if i < keys_of(original).len() {
            assert(keys_of(original)[i] == x);
        } else {
            assert(keys_of(ephemeral)[i - keys_of(original).len()] == x);
        }
    }
    if keys_of(original).contains(x) {
        let i = choose|i: int| 0 <= i < keys_of(original).len() && keys_of(original)[i] == x;
        assert(all[i] == x);
    }
    if keys_of(ephemeral).contains(x) {
        let i = choose|i: int| 0 <= i < keys_of(ephemeral).len() && keys_of(ephemeral)[i] == x;
        assert(all[i + keys_of(original).len()] == x);
    }
}

/// The class type of a node: its `"class_type"` string, or the empty
/// string when it has none.
pub open spec fn class_type_of(node: JsonView) -> Seq<char> {
    match field(node, "class_type"@) {
        Some(JsonView::Str(s)) => s,
        _ => Seq::empty(),
    }
}

/// The class type asked about a node (when the resolver is asked which of
/// its inputs are lazy) is the node's own `"class_type"` string when it
/// has one: two nodes with different class type strings are told apart,
/// and a node without one is asked about under the empty class type.
pub proof fn lemma_class_of_node(node: Option<JsonView>)
    ensures
        node matches Some(n) ==> (field(n, "class_type"@) matches Some(JsonView::Str(c)) ==> class_of(node) == c),
        !(node matches Some(n) && field(n, "class_type"@) matches Some(JsonView::Str(_))) ==> class_of(node).len() == 0,
{
}

/// The ids with the ones seen before dropped, first occurrences in order.
pub open spec fn dedup(s: Seq<Seq<char>>) -> Seq<Seq<char>>
    decreases s.len(),
{
    if s.len() == 0 {
        s
    } else {
        seq_with(dedup(s.drop_last()), s.last())
    }
}

impl Default for DynamicPrompt {
    /// A prompt without nodes.
    fn default() -> (r: DynamicPrompt)
        ensures
            r.original().len() == 0,
            r.ephemeral().len() == 0,
            r.parents().len() == 0,
            r.display().len() == 0,
    {
        DynamicPrompt::new(JsonObject::new())
    }
}

impl DynamicPrompt {
    #[verifier::type_invariant]
    spec fn maps_keyed(self) -> bool {
        &&& keys_unique(string_map_entries(self.ephemeral_parents))
        &&& keys_unique(string_map_entries(self.ephemeral_display))
    }

    /// The user's original prompt.
    pub closed spec fn original(&self) -> Seq<(Seq<char>, JsonView)> {
        self.original_prompt@
    }

    /// The ephemeral nodes.
    pub closed spec fn ephemeral(&self) -> Seq<(Seq<char>, JsonView)> {
        self.ephemeral_prompt@
    }

    /// The parent of each ephemeral node.
    pub closed spec fn parents(&self) -> Seq<(Seq<char>, Seq<char>)> {
        string_map_entries(self.ephemeral_parents)
    }

    /// The display id of each ephemeral node.
    pub closed spec fn display(&self) -> Seq<(Seq<char>, Seq<char>)> {
        string_map_entries(self.ephemeral_display)
    }

    /// The node under `id`.
    pub open spec fn node(&self, id: Seq<char>) -> Option<JsonView> {
        node_in(self.original(), self.ephemeral(), id)
    }

    /// The ids of all nodes.
    pub open spec fn node_ids(&self) -> Set<Seq<char>> {
        keys_of(self.original()).to_set().union(keys_of(self.ephemeral()).to_set())
    }

    pub fn new(original_prompt: JsonObject) -> (r: DynamicPrompt)
        ensures
            r.original() == original_prompt@,
            r.ephemeral().len() == 0,
            r.parents().len() == 0,
            r.display().len() == 0,
    {
        DynamicPrompt {
            original_prompt,
            ephemeral_prompt: JsonObject::new(),
            ephemeral_parents: string_map_new(),
            ephemeral_display: string_map_new(),
        }
    }

    /// The node under `node_id`, ephemeral nodes first.
    pub fn get_node(&self, node_id: &str) -> (r: Result<&JsonValue, GraphError>)
        ensures
            match r {
                Ok(v) => self.node(node_id@) == Some(v@),
                Err(e) => self.node(node_id@) is None && (e matches GraphError::NodeNotFound(id) && id@ == node_id@),
            },
    {
        match self.ephemeral_prompt.get(node_id) {
            Some(v) => Ok(v),
            None => match self.original_prompt.get(node_id) {
                Some(v) => Ok(v),
                None => Err(GraphError::NodeNotFound(String::from_str(node_id))),
            },
        }
    }

    /// Whether there is a node under `node_id`.
    pub fn has_node(&self, node_id: &str) -> (r: bool)
        ensures
            r == (has_key(self.original(), node_id@) || has_key(self.ephemeral(), node_id@)),
            r == self.node(node_id@) is Some,
    {
        self.original_prompt.contains_key(node_id) || self.ephemeral_prompt.contains_key(node_id)
    }

    /// Adds (or replaces) an ephemeral node with its parent and display id.
    pub fn add_ephemeral_node(&mut self, node_id: &str, node_info: JsonValue, parent_id: &str, display_id: &str)
        ensures
            final(self).original() == old(self).original(),
            final(self).ephemeral() == keyed_insert(old(self).ephemeral(), node_id@, node_info@),
            final(self).parents() == keyed_insert(old(self).parents(), node_id@, parent_id@),
            final(self).display() == keyed_insert(old(self).display(), node_id@, display_id@),
            final(self).node(node_id@) == Some(node_info@),
            lookup(final(self).parents(), node_id@) == Some(parent_id@),
            lookup(final(self).display(), node_id@) == Some(display_id@),
            keys_unique(final(self).ephemeral()),
            keys_unique(final(self).parents()),
            keys_unique(final(self).display()),
            forall|id: Seq<char>| id != node_id@ ==> {
                &&& #[trigger] final(self).node(id) == old(self).node(id)
                &&& lookup(final(self).parents(), id) == lookup(old(self).parents(), id)
                &&& lookup(final(self).display(), id) == lookup(old(self).display(), id)
            },
    {
        proof {
            use_type_invariant(&*self);
            lemma_keyed_insert(self.parents(), node_id@, parent_id@);
            lemma_keyed_insert(self.display(), node_id@, display_id@);
        }
        let ghost info = node_info@;
        let mut ephemeral = JsonObject::new();
        std::mem::swap(&mut ephemeral, &mut self.ephemeral_prompt);
        let key = String::from_str(node_id);
        ephemeral.insert(key, node_info);
        self.ephemeral_prompt = ephemeral;
        let mut parents = string_map_new();
        std::mem::swap(&mut parents, &mut self.ephemeral_parents);
        string_map_insert(&mut parents, String::from_str(node_id), String::from_str(parent_id));
        self.ephemeral_parents = parents;
        let mut display = string_map_new();
        std::mem::swap(&mut display, &mut self.ephemeral_display);
        string_map_insert(&mut display, String::from_str(node_id), String::from_str(display_id));
        self.ephemeral_display = display;
        proof {
            use_type_invariant(&*self);
        }
    }

    /// Follows the parents of ephemeral nodes from `node_id` up to a node
    /// that has none, and returns that node's id.
    pub fn get_real_node_id<'a>(&'a self, node_id: &'a str) -> (r: &'a str)
        requires
            chain_ends(self.parents(), node_id@),
        ensures
            r@ == chain_end(self.parents(), node_id@),
            !has_key(self.parents(), r@),
    {
        follow_chain(&self.ephemeral_parents, node_id)
    }

    /// The parent of an ephemeral node.
    pub fn get_parent_node_id(&self, node_id: &str) -> (r: Option<&str>)
        ensures
            match r {
                Some(p) => lookup(self.parents(), node_id@) == Some(p@),
                None => lookup(self.parents(), node_id@) is None,
            },
    {
        match string_map_get(&self.ephemeral_parents, node_id) {
            Some(p) => Some(p.as_str()),
            None => None,
        }
    }

    /// Follows the display ids of ephemeral nodes from `node_id` up to a
    /// node that has none, and returns that node's id.
    pub fn get_display_node_id<'a>(&'a self, node_id: &'a str) -> (r: &'a str)
        requires
            chain_ends(self.display(), node_id@),
        ensures
            r@ == chain_end(self.display(), node_id@),
            !has_key(self.display(), r@),
    {
        follow_chain(&self.ephemeral_display, node_id)
    }

    /// The ids of all nodes: those of the original prompt, then those of
    /// the ephemeral nodes, each id once.
    pub fn all_node_ids(&self) -> (r: IndexSet<String>)
        ensures
            string_set_items(r) == dedup(keys_of(self.original()) + keys_of(self.ephemeral())),
    {
        let ghost all = keys_of(self.original()) + keys_of(self.ephemeral());
        let mut ids = string_set_new();
        let n = self.original_prompt.len();
        let mut i: usize = 0;
        while i < n
            invariant
                n == self.original().len(),
                all == keys_of(self.original()) + keys_of(self.ephemeral()),
                i <= n,
                string_set_items(ids) == dedup(all.take(i as int)),
            decreases n - i,
        {
            let (k, _) = self.original_prompt.get_index(i).unwrap();
            assert(all.take(i + 1).drop_last() =~= all.take(i as int));
            string_set_insert(&mut ids, k.clone());
            i += 1;
        }
        let m = self.ephemeral_prompt.len();
        let mut j: usize = 0;
        while j < m
            invariant
                n == self.original().len(),
                m == self.ephemeral().len(),
                all == keys_of(self.original()) + keys_of(self.ephemeral()),
                j <= m,
                string_set_items(ids) == dedup(all.take(n + j)),
            decreases m - j,
        {
            let (k, _) = self.ephemeral_prompt.get_index(j).unwrap();
            assert(all.take(n + j + 1).drop_last() =~= all.take(n + j));
            string_set_insert(&mut ids, k.clone());
            j += 1;
        }
        assert(all.take(n + m) =~= all);
        ids
    }

    /// The user's original prompt.
    pub fn get_original_prompt(&self) -> (r: &JsonObject)
        ensures
            r@ == self.original(),
    {
        &self.original_prompt
    }

    /// The class type of the node under `node_id`: its `"class_type"`
    /// string, or the empty string when it has none.
    fn node_class_type(&self, node_id: &str) -> (r: Result<String, GraphError>)
        ensures
            match r {
                Ok(c) => self.node(node_id@) is Some && c@ == class_type_of(self.node(node_id@)->0)
                    && (field(self.node(node_id@)->0, "class_type"@) matches Some(JsonView::Str(t)) ==> c@ == t)
                    && (!(field(self.node(node_id@)->0, "class_type"@) matches Some(JsonView::Str(_))) ==> c@.len() == 0),
                Err(e) => self.node(node_id@) is None && (e matches GraphError::NodeNotFound(id) && id@ == node_id@),
            },
    {
        proof {
            reveal_strlit("class_type");
        }
        let node = self.get_node(node_id)?;
        match node {
            JsonValue::Object(o) => match o.get("class_type") {
                Some(JsonValue::String(s)) => Ok(s.clone()),
                _ => Ok(String::new()),
            },
            _ => Ok(String::new()),
        }
    }

    /// The inputs object of the node under `node_id`.
    fn node_inputs(&self, node_id: &str) -> (r: Result<&JsonObject, GraphError>)
        ensures
            match r {
                Ok(o) => self.node(node_id@) is Some && field(self.node(node_id@)->0, "inputs"@) == Some(JsonView::Object(o@)),
                Err(e) => match self.node(node_id@) {
                    None => e matches GraphError::NodeNotFound(id) && id@ == node_id@,
                    Some(n) => !(field(n, "inputs"@) matches Some(JsonView::Object(_)))
                        && (e matches GraphError::NodeInput(m) && m@ == no_inputs_message(node_id@)),
                },
            },
    {
        let node = self.get_node(node_id)?;
        match node {
            JsonValue::Object(o) => match o.get("inputs") {
                Some(JsonValue::Object(inputs)) => Ok(inputs),
                _ => Err(GraphError::NodeInput(no_inputs_text(node_id))),
            },
            _ => Err(GraphError::NodeInput(no_inputs_text(node_id))),
        }
    }
}

/// Some element of the stack `s` is `x`.
/// `x` is in the subgraph, or no subgraph is given.
pub open spec fn in_subgraph(sub: Option<Seq<Seq<char>>>, x: Seq<char>) -> bool {
    match sub {
        Some(s) => s.contains(x),
        None => true,
    }
}

/// A node that adding `root` may make pending: `root` itself, or a node
/// that is not cached and is in the subgraph.
pub open spec fn admitted(root: Seq<char>, cached: Seq<Seq<char>>, sub: Option<Seq<Seq<char>>>, x: Seq<char>) -> bool {
    x == root || (!cached.contains(x) && in_subgraph(sub, x))
}

/// The entries of the inputs object of a node; none when it has none.
pub open spec fn inputs_of(node: Option<JsonView>) -> Seq<(Seq<char>, JsonView)> {
    match node {
        Some(n) => match field(n, "inputs"@) {
            Some(JsonView::Object(o)) => o,
            _ => Seq::empty(),
        },
        None => Seq::empty(),
    }
}

/// The node that input `j` of `node` links from, when that input is a link.
pub open spec fn input_source(node: Option<JsonView>, j: int) -> Option<Seq<char>> {
    match link_of(inputs_of(node)[j].1) {
        Some(l) => Some(l.0),
        None => None,
    }
}

/// The class type of a node, empty when there is no node.
pub open spec fn class_of(node: Option<JsonView>) -> Seq<char> {
    match node {
        Some(n) => class_type_of(n),
        None => Seq::empty(),
    }
}

/// Input `j` of `node` is followed when the node is added: it links from a
/// node in the subgraph, and it is not lazy unless lazy inputs are included.
pub open spec fn followed<R: NodeDefResolver>(
    resolver: R,
    include_lazy: bool,
    sub: Option<Seq<Seq<char>>>,
    node: Option<JsonView>,
    j: int,
) -> bool {
    &&& input_source(node, j) is Some
    &&& in_subgraph(sub, input_source(node, j)->0)
    &&& (include_lazy || !resolver.lazy_input(class_of(node), inputs_of(node)[j].0))
}

/// Some followed input of `node` links from `from`.
pub open spec fn followed_from<R: NodeDefResolver>(
    resolver: R,
    include_lazy: bool,
    sub: Option<Seq<Seq<char>>>,
    node: Option<JsonView>,
    from: Seq<char>,
) -> bool {
    exists|j: int| 0 <= j < inputs_of(node).len() && #[trigger] input_source(node, j) == Some(from)
        && followed(resolver, include_lazy, sub, node, j)
}

/// Each followed input of `x` (whose node is `node`) that links from a
/// node `y` that is not cached makes `y` block `x`.
pub open spec fn deps_blocked<R: NodeDefResolver>(
    resolver: R,
    include_lazy: bool,
    bl: Blocking,
    x: Seq<char>,
    node: Option<JsonView>,
    cached: Seq<Seq<char>>,
    sub: Option<Seq<Seq<char>>>,
) -> bool {
    forall|j: int| 0 <= j < inputs_of(node).len() && (#[trigger] input_source(node, j)) is Some
        && in_subgraph(sub, input_source(node, j)->0) && (include_lazy || !resolver.lazy_input(class_of(node), inputs_of(node)[j].0))
        && !cached.contains(input_source(node, j)->0)
        ==> blocks(bl, input_source(node, j)->0, x)
}

/// `s` holds `root` and, with each of its nodes, every node in the
/// subgraph and not cached that an input of that node links from.
pub open spec fn link_closed(
    p: DynamicPrompt,
    root: Seq<char>,
    cached: Seq<Seq<char>>,
    sub: Option<Seq<Seq<char>>>,
    s: Set<Seq<char>>,
) -> bool {
    &&& s.contains(root)
    &&& forall|x: Seq<char>, j: int| s.contains(x) && 0 <= j < inputs_of(p.node(x)).len()
        && (#[trigger] input_source(p.node(x), j)) is Some && in_subgraph(sub, input_source(p.node(x), j)->0)
        && !cached.contains(input_source(p.node(x), j)->0) ==> s.contains(input_source(p.node(x), j)->0)
}

/// Input `j` of the node is a link whose socket is not a non-negative
/// integer.
pub open spec fn bad_socket(node: Option<JsonView>, j: int) -> bool {
    spec_is_link(inputs_of(node)[j].1) && link_of(inputs_of(node)[j].1) is None
}

/// The node exists, has an inputs object, and every link among its inputs
/// has a non-negative integer socket.
pub open spec fn node_ok(node: Option<JsonView>) -> bool {
    &&& has_inputs_object(node)
    &&& forall|j: int| 0 <= j < inputs_of(node).len() ==> !#[trigger] bad_socket(node, j)
}

/// The error that adding a node with `node_id`, whose node is `node`,
/// reports: not found when there is no node, else a missing inputs object,
/// else the first input whose socket is not a non-negative integer.
pub open spec fn node_error(node_id: Seq<char>, node: Option<JsonView>, e: GraphError) -> bool {
    match e {
        GraphError::NodeNotFound(id) => id@ == node_id && node is None,
        GraphError::NodeInput(m) => {
            &&& node is Some
            &&& {
                ||| !has_inputs_object(node) && m@ == no_inputs_message(node_id)
                ||| has_inputs_object(node) && exists|j: int| 0 <= j < inputs_of(node).len() && #[trigger] bad_socket(node, j)
                    && (forall|jj: int| 0 <= jj < j ==> !bad_socket(node, jj))
                    && m@ == non_integer_socket_message(node_id, inputs_of(node)[j].0)
            }
        },
        _ => false,
    }
}

/// Adding stopped at node `k` of `added`, the first one that is not well
/// formed: it and the nodes before it were made pending, nothing after it.
pub open spec fn stopped_at(
    p: DynamicPrompt,
    old_pending: Seq<Seq<char>>,
    added: Seq<Seq<char>>,
    post_pending: Seq<Seq<char>>,
    k: int,
) -> bool {
    &&& 0 <= k < added.len()
    &&& post_pending == old_pending + added.take(k + 1)
    &&& !node_ok(p.node(added[k]))
    &&& forall|j: int| 0 <= j < k ==> node_ok(p.node(#[trigger] added[j]))
}

/// Where the walk stands when node `u` has just been made pending after
/// `p0`: `p0` and `u` begin the pending order it is heading for.
proof fn lemma_stop_prefix(
    old_pending: Seq<Seq<char>>,
    added: Seq<Seq<char>>,
    p0: Seq<Seq<char>>,
    u: Seq<char>,
    rest: Seq<Seq<char>>,
)
    requires
        old_pending + added == p0.push(u) + rest,
        old_pending.len() <= p0.len(),
    ensures
        0 <= p0.len() - old_pending.len() < added.len(),
        added[p0.len() - old_pending.len()] == u,
        old_pending + added.take(p0.len() - old_pending.len() + 1) == p0.push(u),
        forall|j: int| 0 <= j < p0.len() - old_pending.len() ==> #[trigger] added[j] == p0[old_pending.len() + j],
{
    let k = p0.len() - old_pending.len();
    let t = old_pending + added;
    assert(t.len() == p0.len() + 1 + rest.len());
    assert(t[p0.len() as int] == u);
    assert forall|j: int| 0 <= j < k implies #[trigger] added[j] == p0[old_pending.len() + j] by {
        assert(t[old_pending.len() + j] == added[j]);
        assert(t[old_pending.len() + j] == p0[old_pending.len() + j]);
    }
    assert forall|i: int| 0 <= i < p0.len() + 1 implies (old_pending + added.take(k + 1))[i] == p0.push(u)[i] by {
        assert(t[i] == (p0.push(u) + rest)[i]);
        if i < old_pending.len() {
            assert(t[i] == old_pending[i]);
        } else {
            assert(t[i] == added[i - old_pending.len()]);
        }
    }
    assert(old_pending + added.take(k + 1) =~= p0.push(u));
}

/// Every node of `s` exists, has an inputs object, and has a non-negative
/// integer socket in every link among its inputs.
pub open spec fn all_have_inputs(p: DynamicPrompt, s: Set<Seq<char>>) -> bool {
    forall|x: Seq<char>| #[trigger] s.contains(x) ==> node_ok(p.node(x))
}

/// The nodes that adding a node with inputs `node` pushes onto the stack
/// of nodes to visit, from its first `n` inputs: the source of each
/// followed input that is not cached, in input order.
pub open spec fn pushed_sources<R: NodeDefResolver>(
    resolver: R,
    include_lazy: bool,
    sub: Option<Seq<Seq<char>>>,
    cached: Seq<Seq<char>>,
    node: Option<JsonView>,
    n: int,
) -> Seq<Seq<char>>
    decreases n,
{
    if n <= 0 {
        Seq::empty()
    } else {
        let prev = pushed_sources(resolver, include_lazy, sub, cached, node, n - 1);
        if followed(resolver, include_lazy, sub, node, n - 1) && !cached.contains(input_source(node, n - 1)->0) {
            prev.push(input_source(node, n - 1)->0)
        } else {
            prev
        }
    }
}

/// A node of the prompt has its id among the prompt's ids.
pub proof fn lemma_node_in_ids(p: DynamicPrompt, x: Seq<char>)
    ensures
        p.node(x) is Some ==> p.node_ids().contains(x),
        p.node_ids().finite(),
{
    vstd::seq_lib::seq_to_set_is_finite(keys_of(p.original()));
    vstd::seq_lib::seq_to_set_is_finite(keys_of(p.ephemeral()));
    if lookup(p.ephemeral(), x) is Some {
        lemma_has_key_keys_of(p.ephemeral(), x);
    } else if lookup(p.original(), x) is Some {
        lemma_has_key_keys_of(p.original(), x);
    }
}

/// Visiting `x` shrinks the ids left to visit when `x` is a node, and
/// keeps them otherwise.
pub proof fn lemma_visit_measure(p: DynamicPrompt, visited: Seq<Seq<char>>, x: Seq<char>)
    requires
        !visited.contains(x),
    ensures
        p.node(x) is Some ==> p.node_ids().difference(visited.push(x).to_set()).len()
            < p.node_ids().difference(visited.to_set()).len(),
        p.node(x) is None ==> p.node_ids().difference(visited.push(x).to_set())
            == p.node_ids().difference(visited.to_set()),
{
    lemma_node_in_ids(p, x);
    let k = p.node_ids();
    let before = k.difference(visited.to_set());
    let after = k.difference(visited.push(x).to_set());
    assert forall|y: Seq<char>| visited.push(x).to_set().contains(y) == (visited.to_set().contains(y) || y == x) by {
        if visited.push(x).contains(y) && y != x {
            let i = choose|i: int| 0 <= i < visited.push(x).len() && visited.push(x)[i] == y;
            assert(visited[i] == y);
        }
        if visited.contains(y) {
            let i = choose|i: int| 0 <= i < visited.len() && visited[i] == y;
            assert(visited.push(x)[i] == y);
        }
        assert(visited.push(x)[visited.len() as int] == x);
    }
    if p.node(x) is Some {
        assert(after =~= before.remove(x));
        assert(before.contains(x));
    } else {
        assert(after =~= before);
    }
}

/// The nodes that adding pending nodes visits from the stack `stack`, with
/// the nodes of `visited` already pending, in the order they become
/// pending: the top of the stack is taken; a node already pending is
/// skipped; any other becomes pending and the sources of its followed,
/// uncached inputs are pushed in input order.
pub open spec fn visit_order<R: NodeDefResolver>(
    p: DynamicPrompt,
    resolver: R,
    include_lazy: bool,
    sub: Option<Seq<Seq<char>>>,
    cached: Seq<Seq<char>>,
    stack: Seq<Seq<char>>,
    visited: Seq<Seq<char>>,
) -> Seq<Seq<char>>
    decreases p.node_ids().difference(visited.to_set()).len(), stack.len(),
{
    if stack.len() == 0 {
        Seq::empty()
    } else {
        let x = stack.last();
        let rest = stack.drop_last();
        if visited.contains(x) {
            visit_order(p, resolver, include_lazy, sub, cached, rest, visited)
        } else {
            let node = p.node(x);
            let pushed = pushed_sources(resolver, include_lazy, sub, cached, node, inputs_of(node).len() as int);
            proof {
                lemma_node_in_ids(p, x);
                lemma_visit_measure(p, visited, x);
            }
            seq![x] + visit_order(p, resolver, include_lazy, sub, cached, rest + pushed, visited.push(x))
        }
    }
}

/// The links that the first `n` inputs of node `x` (whose node is `node`)
/// record when it is added: for each followed input, its source, its
/// socket and `x`, in input order.
pub open spec fn node_links<R: NodeDefResolver>(
    resolver: R,
    include_lazy: bool,
    sub: Option<Seq<Seq<char>>>,
    node: Option<JsonView>,
    x: Seq<char>,
    n: nat,
) -> Seq<(Seq<char>, u32, Seq<char>)>
    decreases n,
{
    if n == 0 {
        Seq::empty()
    } else {
        let prev = node_links(resolver, include_lazy, sub, node, x, (n - 1) as nat);
        if followed(resolver, include_lazy, sub, node, n - 1) {
            let l = link_of(inputs_of(node)[n - 1].1)->0;
            prev.push((l.0, l.1, x))
        } else {
            prev
        }
    }
}

/// The links recorded while adding the nodes `ids`, node after node.
pub open spec fn nodes_links<R: NodeDefResolver>(
    p: DynamicPrompt,
    resolver: R,
    include_lazy: bool,
    sub: Option<Seq<Seq<char>>>,
    ids: Seq<Seq<char>>,
) -> Seq<(Seq<char>, u32, Seq<char>)>
    decreases ids.len(),
{
    if ids.len() == 0 {
        Seq::empty()
    } else {
        let x = ids.last();
        nodes_links(p, resolver, include_lazy, sub, ids.drop_last())
            + node_links(resolver, include_lazy, sub, p.node(x), x, inputs_of(p.node(x)).len())
    }
}

/// The blocking entries that newly pending nodes start with.
pub open spec fn fresh_entries(ids: Seq<Seq<char>>) -> Blocking {
    ids.map_values(|x: Seq<char>| (x, Seq::<(Seq<char>, Sockets)>::empty()))
}

/// The counts that newly pending nodes start with.
pub open spec fn fresh_counts(ids: Seq<Seq<char>>) -> Seq<(Seq<char>, usize)> {
    ids.map_values(|x: Seq<char>| (x, 0usize))
}

/// `bl` with `from` blocking `to` on `socket` as well.
pub open spec fn with_edge(bl: Blocking, from: Seq<char>, socket: u32, to: Seq<char>) -> Blocking {
    keyed_insert(
        bl,
        from,
        keyed_insert(
            blocked_of(bl, from),
            to,
            keyed_insert(
                match lookup(blocked_of(bl, from), to) {
                    Some(sk) => sk,
                    None => Seq::empty(),
                },
                socket,
                true,
            ),
        ),
    )
}

/// `counts` with `to` counted up when `from` does not block it in `bl`.
pub open spec fn counted_edge(
    counts: Seq<(Seq<char>, usize)>,
    bl: Blocking,
    from: Seq<char>,
    to: Seq<char>,
) -> Seq<(Seq<char>, usize)> {
    if blocks(bl, from, to) {
        counts
    } else {
        keyed_insert(counts, to, (lookup(counts, to)->0 + 1) as usize)
    }
}

/// The blocking entries and counts after `links` are recorded in order,
/// starting from `bl` and `counts`; a link from a cached node records
/// nothing.
pub open spec fn with_links(
    bl: Blocking,
    counts: Seq<(Seq<char>, usize)>,
    cached: Seq<Seq<char>>,
    links: Seq<(Seq<char>, u32, Seq<char>)>,
) -> (Blocking, Seq<(Seq<char>, usize)>)
    decreases links.len(),
{
    if links.len() == 0 {
        (bl, counts)
    } else {
        let prev = with_links(bl, counts, cached, links.drop_last());
        let l = links.last();
        if cached.contains(l.0) {
            prev
        } else {
            (with_edge(prev.0, l.0, l.1, l.2), counted_edge(prev.1, prev.0, l.0, l.2))
        }
    }
}

/// The links as recorded values.
pub open spec fn link_views(links: Seq<(String, u32, String)>) -> Seq<(Seq<char>, u32, Seq<char>)> {
    links.map_values(|l: (String, u32, String)| (l.0@, l.1, l.2@))
}

/// Some recorded link goes from `y` to `x`.
spec fn has_link(links: Seq<(String, u32, String)>, y: Seq<char>, x: Seq<char>) -> bool {
    exists|k: int| 0 <= k < links.len() && (#[trigger] links[k]).0@ == y && links[k].2@ == x
}

/// The first `n` inputs of `x` that are followed and link from a node
/// that is not cached have a recorded link.
spec fn links_recorded<R: NodeDefResolver>(
    resolver: R,
    include_lazy: bool,
    links: Seq<(String, u32, String)>,
    x: Seq<char>,
    node: Option<JsonView>,
    n: int,
    cached: Seq<Seq<char>>,
    sub: Option<Seq<Seq<char>>>,
) -> bool {
    forall|j: int| 0 <= j < n && j < inputs_of(node).len() && (#[trigger] input_source(node, j)) is Some
        && in_subgraph(sub, input_source(node, j)->0) && (include_lazy || !resolver.lazy_input(class_of(node), inputs_of(node)[j].0))
        && !cached.contains(input_source(node, j)->0)
        ==> has_link(links, input_source(node, j)->0, x)
}

proof fn lemma_has_link_push(links: Seq<(String, u32, String)>, e: (String, u32, String))
    ensures
        forall|y: Seq<char>, x: Seq<char>| #[trigger] has_link(links, y, x) ==> has_link(links.push(e), y, x),
{
    assert forall|y: Seq<char>, x: Seq<char>| #[trigger] has_link(links, y, x) implies has_link(links.push(e), y, x) by {
        let k = choose|k: int| 0 <= k < links.len() && (#[trigger] links[k]).0@ == y && links[k].2@ == x;
        assert(links.push(e)[k] == links[k]);
    }
}

/// A node added with nothing blocked changes no blocking.
proof fn lemma_blocks_push_empty(bl: Blocking, id: Seq<char>)
    requires
        keys_unique(bl),
        !has_key(bl, id),
    ensures
        forall|a: Seq<char>, b: Seq<char>| #[trigger] blocks(bl.push((id, Seq::<(Seq<char>, Sockets)>::empty())), a, b)
            == blocks(bl, a, b),
{
    let e = Seq::<(Seq<char>, Sockets)>::empty();
    assert(bl.push((id, e)) == keyed_insert(bl, id, e));
    lemma_keyed_insert(bl, id, e);
    assert forall|a: Seq<char>, b: Seq<char>| #[trigger] blocks(bl.push((id, e)), a, b) == blocks(bl, a, b) by {
        if a != id {
            assert(lookup(bl.push((id, e)), a) == lookup(bl, a));
        }
    }
}

/// The items of the subgraph, when one is given.
pub open spec fn subgraph_items(sub: Option<&IndexSet<String>>) -> Option<Seq<Seq<char>>> {
    match sub {
        Some(s) => Some(string_set_items(*s)),
        None => None,
    }
}

/// Some id on the stack is `x`.
pub open spec fn in_stack(s: Seq<String>, x: Seq<char>) -> bool {
    exists|t: int| 0 <= t < s.len() && #[trigger] s[t]@ == x
}

proof fn lemma_in_stack_push(s: Seq<String>, y: String, x: Seq<char>)
    ensures
        in_stack(s.push(y), x) == (in_stack(s, x) || y@ == x),
{
    if in_stack(s, x) {
        let t = choose|t: int| 0 <= t < s.len() && #[trigger] s[t]@ == x;
        assert(s.push(y)[t] == s[t]);
    }
    if y@ == x {
        assert(s.push(y)[s.len() as int]@ == x);
    }
    if in_stack(s.push(y), x) {
        let t = choose|t: int| 0 <= t < s.push(y).len() && #[trigger] s.push(y)[t]@ == x;
        if t < s.len() {
            assert(s[t] == s.push(y)[t]);
        }
    }
}

/// The node exists and has an inputs object.
pub open spec fn has_inputs_object(node: Option<JsonView>) -> bool {
    node matches Some(n) && field(n, "inputs"@) matches Some(JsonView::Object(_))
}

/// The message for a node without an inputs object.
pub open spec fn no_inputs_message(node_id: Seq<char>) -> Seq<char> {
    "Node "@ + node_id + " has no inputs object"@
}

/// The message for an input that a node does not have.
pub open spec fn missing_input_message(node_id: Seq<char>, input: Seq<char>) -> Seq<char> {
    "Node "@ + node_id + " says it needs input "@ + input + ", but there is no input to that node at all"@
}

/// The message for an input that holds a constant, not a link.
pub open spec fn constant_input_message(node_id: Seq<char>, input: Seq<char>) -> Seq<char> {
    "Node "@ + node_id + " says it needs input "@ + input + ", but that value is a constant"@
}

/// The message for a link input whose socket is not a non-negative integer.
pub open spec fn non_integer_socket_message(node_id: Seq<char>, input: Seq<char>) -> Seq<char> {
    "Node "@ + node_id + " input "@ + input + " has a non-integer socket index"@
}

fn non_integer_socket_text(node_id: &str, input: &str) -> (r: String)
    ensures
        r@ == non_integer_socket_message(node_id@, input@),
{
    let mut s = String::from_str("Node ");
    s.append(node_id);
    s.append(" input ");
    s.append(input);
    s.append(" has a non-integer socket index");
    s
}

fn missing_input_text(node_id: &str, input: &str) -> (r: String)
    ensures
        r@ == missing_input_message(node_id@, input@),
{
    let mut s = String::from_str("Node ");
    s.append(node_id);
    s.append(" says it needs input ");
    s.append(input);
    s.append(", but there is no input to that node at all");
    s
}

fn constant_input_text(node_id: &str, input: &str) -> (r: String)
    ensures
        r@ == constant_input_message(node_id@, input@),
{
    let mut s = String::from_str("Node ");
    s.append(node_id);
    s.append(" says it needs input ");
    s.append(input);
    s.append(", but that value is a constant");
    s
}

fn no_inputs_text(node_id: &str) -> (r: String)
    ensures
        r@ == no_inputs_message(node_id@),
{
    let mut s = String::from_str("Node ");
    s.append(node_id);
    s.append(" has no inputs object");
    s
}

/// Follows `m` from `id` to an id that is not a key.
fn follow_chain<'a>(m: &'a IndexMap<String, String>, id: &'a str) -> (r: &'a str)
    requires
        chain_ends(string_map_entries(*m), id@),
    ensures
        r@ == chain_end(string_map_entries(*m), id@),
        !has_key(string_map_entries(*m), r@),
{
    let ghost s = string_map_entries(*m);
    let ghost fuel = chain_len(s, id@);
    let mut cur: &'a str = id;
    let ghost mut steps: nat = 0;
    loop
        invariant
            s == string_map_entries(*m),
            fuel == chain_len(s, id@),
            !has_key(s, follow(s, id@, fuel)),
            cur@ == follow(s, id@, steps),
            steps <= fuel,
        decreases fuel - steps,
    {
        match string_map_get(m, cur) {
            Some(p) => {
                proof {
                    if steps == fuel {
                        assert(false);
                    }
                    steps = steps + 1;
                }
                cur = p.as_str();
            },
            None => {
                proof {
                    lemma_follow_stays(s, id@, steps, fuel);
                }
                return cur;
            },
        }
    }
}


/// The counts after every node that `blocked` names is counted down by one.
pub open spec fn counted_down(counts: Seq<(Seq<char>, usize)>, blocked: Blocked) -> Seq<(Seq<char>, usize)> {
    counts.map_values(|e: (Seq<char>, usize)| if has_key(blocked, e.0) { (e.0, (e.1 - 1) as usize) } else { e })
}

/// The pending nodes, in order, whose count is zero.
pub open spec fn ready_nodes(counts: Seq<(Seq<char>, usize)>) -> Seq<Seq<char>>
    decreases counts.len(),
{
    if counts.len() == 0 {
        Seq::empty()
    } else {
        let rest = ready_nodes(counts.drop_last());
        if counts.last().1 == 0 {
            rest.push(counts.last().0)
        } else {
            rest
        }
    }
}

/// The nodes of `counts` ready by [`ready_nodes`] have count zero, are
/// keys of `counts` and, with distinct keys, are distinct.
/// The elements of `s` come in the order they have in `p`.
pub open spec fn ordered_as(s: Seq<Seq<char>>, p: Seq<Seq<char>>) -> bool {
    forall|i: int, j: int| 0 <= i < j < s.len() ==> p.index_of(#[trigger] s[i]) < p.index_of(#[trigger] s[j])
}

/// Every node with count zero is ready, and the ready nodes come in the
/// order of the counts.
proof fn lemma_ready_nodes_complete(counts: Seq<(Seq<char>, usize)>, p: Seq<Seq<char>>)
    ensures
        forall|i: int| 0 <= i < counts.len() && counts[i].1 == 0 ==> ready_nodes(counts).contains(#[trigger] counts[i].0),
        ordered_as(keys_of(counts), p) ==> ordered_as(ready_nodes(counts), p),
    decreases counts.len(),
{
    if counts.len() > 0 {
        let c0 = counts.drop_last();
        lemma_ready_nodes_complete(c0, p);
        lemma_ready_nodes(c0);
        let r0 = ready_nodes(c0);
        let r = ready_nodes(counts);
        let last = counts.last();
        if last.1 == 0 {
            assert(r == r0.push(last.0));
        } else {
            assert(r == r0);
        }
        assert forall|i: int| 0 <= i < counts.len() && counts[i].1 == 0 implies r.contains(#[trigger] counts[i].0) by {
            if i < c0.len() {
                assert(c0[i] == counts[i]);
                assert(r0.contains(c0[i].0));
                let t = choose|t: int| 0 <= t < r0.len() && r0[t] == c0[i].0;
                assert(r[t] == r0[t]);
            } else {
                assert(r[r0.len() as int] == last.0);
            }
        }
        if ordered_as(keys_of(counts), p) {
            assert(ordered_as(keys_of(c0), p)) by {
                assert forall|i: int, j: int| 0 <= i < j < keys_of(c0).len() implies
                    p.index_of(#[trigger] keys_of(c0)[i]) < p.index_of(#[trigger] keys_of(c0)[j]) by {
                    assert(keys_of(c0)[i] == keys_of(counts)[i]);
                    assert(keys_of(c0)[j] == keys_of(counts)[j]);
                }
            }
            if last.1 == 0 {
                assert forall|i: int, j: int| 0 <= i < j < r.len() implies
                    p.index_of(#[trigger] r[i]) < p.index_of(#[trigger] r[j]) by {
                    if j == r0.len() {
                        assert(r[i] == r0[i]);
                        assert(r0.contains(r0[i]));
                        let a = choose|a: int| 0 <= a < c0.len() && c0[a] == (r0[i], 0usize);
                        assert(keys_of(counts)[a] == r0[i]);
                        assert(keys_of(counts)[counts.len() - 1] == last.0);
                    } else {
                        assert(r[i] == r0[i]);
                        assert(r[j] == r0[j]);
                    }
                }
            }
        }
    }
}

/// Removing an element keeps the others in their order.
proof fn lemma_ordered_as_without(s: Seq<Seq<char>>, x: Seq<char>, p: Seq<Seq<char>>)
    requires
        ordered_as(s, p),
    ensures
        ordered_as(seq_without(s, x), p),
{
    if s.contains(x) {
        let q = s.index_of(x);
        let t = s.remove(q);
        assert forall|i: int, j: int| 0 <= i < j < t.len() implies p.index_of(#[trigger] t[i]) < p.index_of(#[trigger] t[j]) by {
            let i2 = if i < q { i } else { i + 1 };
            let j2 = if j < q { j } else { j + 1 };
            assert(t[i] == s[i2]);
            assert(t[j] == s[j2]);
        }
    }
}

proof fn lemma_ready_nodes(counts: Seq<(Seq<char>, usize)>)
    ensures
        forall|x: Seq<char>| #[trigger] ready_nodes(counts).contains(x)
            ==> exists|i: int| 0 <= i < counts.len() && counts[i] == (x, 0usize),
        keys_of(counts).no_duplicates() ==> ready_nodes(counts).no_duplicates(),
        ready_nodes(counts).len() == 0 ==> forall|i: int| 0 <= i < counts.len() ==> #[trigger] counts[i].1 != 0,
    decreases counts.len(),
{
    if counts.len() > 0 {
        let c0 = counts.drop_last();
        lemma_ready_nodes(c0);
        let r0 = ready_nodes(c0);
        let r = ready_nodes(counts);
        assert forall|x: Seq<char>| #[trigger] r.contains(x)
            implies exists|i: int| 0 <= i < counts.len() && counts[i] == (x, 0usize) by {
            if r0.contains(x) {
                let i = choose|i: int| 0 <= i < c0.len() && c0[i] == (x, 0usize);
                assert(counts[i] == c0[i]);
            } else {
                let t = choose|t: int| 0 <= t < r.len() && r[t] == x;
                assert(counts.last().1 == 0);
                assert(r == r0.push(counts.last().0));
                assert(t == r0.len());
                assert(counts[counts.len() - 1] == (x, 0usize));
            }
        }
        if keys_of(counts).no_duplicates() {
            assert(keys_of(c0) =~= keys_of(counts).drop_last());
            assert(keys_of(c0).no_duplicates()) by {
                assert forall|a: int, b: int| 0 <= a < keys_of(c0).len() && 0 <= b < keys_of(c0).len() && a != b
                    implies keys_of(c0)[a] != keys_of(c0)[b] by {
                    assert(keys_of(c0)[a] == keys_of(counts)[a]);
                    assert(keys_of(c0)[b] == keys_of(counts)[b]);
                }
            }
            if counts.last().1 == 0 {
                let x = counts.last().0;
                if r0.contains(x) {
                    let i = choose|i: int| 0 <= i < c0.len() && c0[i] == (x, 0usize);
                    assert(keys_of(counts)[i] == x);
                    assert(keys_of(counts)[counts.len() - 1] == x);
                }
                assert forall|a: int, b: int| 0 <= a < r.len() && 0 <= b < r.len() && a != b implies r[a] != r[b] by {
                    if a == r0.len() {
                        assert(r[b] == r0[b]);
                        assert(r0.contains(r0[b]));
                    } else if b == r0.len() {
                        assert(r[a] == r0[a]);
                        assert(r0.contains(r0[a]));
                    } else {
                        assert(r[a] == r0[a]);
                        assert(r[b] == r0[b]);
                    }
                }
            }
        }
        if r.len() == 0 {
            assert forall|i: int| 0 <= i < counts.len() implies #[trigger] counts[i].1 != 0 by {
                if i < c0.len() {
                    assert(counts[i] == c0[i]);
                }
            }
        }
    }
}

/// Whether the socket map flags some socket strong.
fn any_strong_exec(m: &IndexMap<u32, bool>) -> (r: bool)
    ensures
        r == any_strong(socket_entries(*m)),
{
    let n = socket_map_len(m);
    let mut i: usize = 0;
    while i < n
        invariant
            n == socket_entries(*m).len(),
            i <= n,
            forall|j: int| 0 <= j < i ==> !(#[trigger] socket_entries(*m)[j]).1,
        decreases n - i,
    {
        let (_, strong) = socket_map_get_index(m, i).unwrap();
        if strong {
            proof {
                assert(socket_entries(*m)[i as int].1);
            }
            return true;
        }
        i += 1;
    }
    proof {
        if any_strong(socket_entries(*m)) {
            let j = choose|j: int| 0 <= j < socket_entries(*m).len() && #[trigger] socket_entries(*m)[j].1;
            assert(!socket_entries(*m)[j].1);
        }
    }
    false
}

/// The keys of `bb` whose set is empty, in order.
fn empty_blocker_keys(bb: &IndexMap<String, IndexSet<String>>) -> (r: Vec<String>)
    requires
        keys_unique(blocker_entries(*bb)),
    ensures
        views(r@).no_duplicates(),
        forall|k: Seq<char>| #[trigger] views(r@).contains(k) == (exists|i: int| 0 <= i < blocker_entries(*bb).len()
            && #[trigger] blocker_entries(*bb)[i].0 == k && blocker_entries(*bb)[i].1.len() == 0),
{
    let ghost e = blocker_entries(*bb);
    let n = blocker_map_len(bb);
    let mut out: Vec<String> = Vec::new();
    let mut i: usize = 0;
    while i < n
        invariant
            e == blocker_entries(*bb),
            keys_unique(e),
            n == e.len(),
            i <= n,
            views(out@).no_duplicates(),
            forall|k: Seq<char>| #[trigger] views(out@).contains(k) == (exists|j: int| 0 <= j < i
                && #[trigger] e[j].0 == k && e[j].1.len() == 0),
        decreases n - i,
    {
        let (key, set) = blocker_map_get_index(bb, i).unwrap();
        let ghost o0 = views(out@);
        if string_set_len(set) == 0 {
            out.push(key.clone());
            proof {
                let o1 = views(out@);
                assert(o1 == o0.push(key@));
                assert(!o0.contains(key@)) by {
                    if o0.contains(key@) {
                        let j = choose|j: int| 0 <= j < i && #[trigger] e[j].0 == key@ && e[j].1.len() == 0;
                        assert(e[i as int].0 == key@);
                    }
                }
                assert(o1.no_duplicates()) by {
                    assert forall|a: int, b: int| 0 <= a < o1.len() && 0 <= b < o1.len() && a != b implies o1[a] != o1[b] by {
                        if a == o0.len() {
                            assert(o0.contains(o1[b]));
                        } else if b == o0.len() {
                            assert(o0.contains(o1[a]));
                        }
                    }
                }
                assert forall|k: Seq<char>| #[trigger] o1.contains(k) == (exists|j: int| 0 <= j < i + 1
                    && #[trigger] e[j].0 == k && e[j].1.len() == 0) by {
                    if o1.contains(k) {
                        let t = choose|t: int| 0 <= t < o1.len() && o1[t] == k;
                        if t < o0.len() {
                            assert(o0[t] == k);
                            assert(o0.contains(k));
                        } else {
                            assert(e[i as int].0 == k);
                        }
                    }
                    if exists|j: int| 0 <= j < i + 1 && #[trigger] e[j].0 == k && e[j].1.len() == 0 {
                        let j = choose|j: int| 0 <= j < i + 1 && #[trigger] e[j].0 == k && e[j].1.len() == 0;
                        if j < i {
                            assert(o0.contains(k));
                            let t = choose|t: int| 0 <= t < o0.len() && o0[t] == k;
                            assert(o1[t] == k);
                        } else {
                            assert(o1[o0.len() as int] == k);
                        }
                    }
                }
            }
        } else {
            proof {
                assert forall|k: Seq<char>| #[trigger] o0.contains(k) == (exists|j: int| 0 <= j < i + 1
                    && #[trigger] e[j].0 == k && e[j].1.len() == 0) by {
                    if exists|j: int| 0 <= j < i + 1 && #[trigger] e[j].0 == k && e[j].1.len() == 0 {
                        let j = choose|j: int| 0 <= j < i + 1 && #[trigger] e[j].0 == k && e[j].1.len() == 0;
                        assert(j != i);
                    }
                }
            }
        }
        i += 1;
    }
    out
}

/// Removes `x` from every set of `bb`.
fn remove_from_all(bb: &mut IndexMap<String, IndexSet<String>>, x: &str)
    requires
        keys_unique(blocker_entries(*old(bb))),
        forall|i: int| 0 <= i < blocker_entries(*old(bb)).len() ==> (#[trigger] blocker_entries(*old(bb))[i]).1.no_duplicates(),
    ensures
        blocker_entries(*final(bb)).len() == blocker_entries(*old(bb)).len(),
        forall|i: int| 0 <= i < blocker_entries(*old(bb)).len() ==> {
            &&& (#[trigger] blocker_entries(*final(bb))[i]).0 == blocker_entries(*old(bb))[i].0
            &&& blocker_entries(*final(bb))[i].1 == seq_without(blocker_entries(*old(bb))[i].1, x@)
        },
{
    let ghost e0 = blocker_entries(*bb);
    let n = blocker_map_len(bb);
    let mut q: usize = 0;
    while q < n
        invariant
            e0 == blocker_entries(*old(bb)),
            n == e0.len(),
            q <= n,
            blocker_entries(*bb).len() == n,
            keys_unique(blocker_entries(*bb)),
            forall|i: int| 0 <= i < n ==> (#[trigger] blocker_entries(*bb)[i]).0 == e0[i].0,
            forall|i: int| 0 <= i < q ==> (#[trigger] blocker_entries(*bb)[i]).1 == seq_without(e0[i].1, x@),
            forall|i: int| q <= i < n ==> (#[trigger] blocker_entries(*bb)[i]).1 == e0[i].1,
        decreases n - q,
    {
        let ghost cur = blocker_entries(*bb);
        let key = blocker_map_get_index(bb, q).unwrap().0.clone();
        proof {
            lemma_key_pos(cur, q as int);
        }
        let mut set = blocker_map_insert(bb, key.clone(), string_set_new()).unwrap();
        string_set_shift_remove(&mut set, x);
        blocker_map_insert(bb, key, set);
        proof {
            lemma_keyed_insert_twice(cur, cur[q as int].0, Seq::<Seq<char>>::empty(), string_set_items(set));
            assert(blocker_entries(*bb) == cur.update(q as int, (cur[q as int].0, string_set_items(set))));
            assert forall|a: int, b: int| 0 <= a < n && 0 <= b < n && a != b implies
                #[trigger] blocker_entries(*bb)[a].0 != #[trigger] blocker_entries(*bb)[b].0 by {
                assert(cur[a].0 != cur[b].0);
            }
        }
        q += 1;
    }
}

/// Some entry of `b` has key `k` and a socket flagged strong.
pub open spec fn entry_strong(b: Blocked, k: Seq<char>) -> bool {
    exists|t: int| 0 <= t < b.len() && #[trigger] b[t].0 == k && any_strong(b[t].1)
}

/// Some of the first `i` entries of `bl` has key `x` and strongly blocks `k`.
pub open spec fn prefix_blocks(bl: Blocking, i: int, x: Seq<char>, k: Seq<char>) -> bool {
    exists|a: int| 0 <= a < i && #[trigger] bl[a].0 == x && entry_strong(bl[a].1, k)
}

proof fn lemma_entry_strong(b: Blocked, k: Seq<char>)
    requires
        keys_unique(b),
    ensures
        entry_strong(b, k) == (match lookup(b, k) {
            Some(sk) => any_strong(sk),
            None => false,
        }),
{
    if has_key(b, k) {
        let p = key_pos(b, k);
        assert(b[p].0 == k);
        if entry_strong(b, k) {
            let t = choose|t: int| 0 <= t < b.len() && #[trigger] b[t].0 == k && any_strong(b[t].1);
            assert(t == p);
        }
    } else {
        if entry_strong(b, k) {
            let t = choose|t: int| 0 <= t < b.len() && #[trigger] b[t].0 == k && any_strong(b[t].1);
            assert(b[t].0 == k);
        }
    }
}

proof fn lemma_entry_strong_step(b: Blocked, j: int, k: Seq<char>)
    requires
        0 <= j < b.len(),
    ensures
        entry_strong(b.take(j + 1), k) == (entry_strong(b.take(j), k) || (b[j].0 == k && any_strong(b[j].1))),
{
    if entry_strong(b.take(j + 1), k) {
        let t = choose|t: int| 0 <= t < b.take(j + 1).len() && #[trigger] b.take(j + 1)[t].0 == k && any_strong(b.take(j + 1)[t].1);
        if t < j {
            assert(b.take(j)[t] == b[t]);
        }
    }
    if entry_strong(b.take(j), k) {
        let t = choose|t: int| 0 <= t < b.take(j).len() && #[trigger] b.take(j)[t].0 == k && any_strong(b.take(j)[t].1);
        assert(b.take(j + 1)[t] == b[t]);
    }
    if b[j].0 == k && any_strong(b[j].1) {
        assert(b.take(j + 1)[j] == b[j]);
    }
}

/// Collects the keys of `bb` in order.
fn blocker_keys(bb: &IndexMap<String, IndexSet<String>>) -> (r: Vec<String>)
    ensures
        views(r@) == keys_of(blocker_entries(*bb)),
{
    let n = blocker_map_len(bb);
    let mut out: Vec<String> = Vec::new();
    let mut i: usize = 0;
    while i < n
        invariant
            n == blocker_entries(*bb).len(),
            i <= n,
            out@.len() == i,
            views(out@) == keys_of(blocker_entries(*bb)).take(i as int),
        decreases n - i,
    {
        let (key, _) = blocker_map_get_index(bb, i).unwrap();
        let ghost prev = out@;
        out.push(key.clone());
        proof {
            let ks = keys_of(blocker_entries(*bb));
            assert(ks[i as int] == blocker_entries(*bb)[i as int].0);
            assert forall|j: int| 0 <= j < i + 1 implies #[trigger] views(out@)[j] == ks.take(i + 1)[j] by {
                assert(views(out@)[j] == out@[j]@);
                if j < i {
                    assert(out@[j] == prev[j]);
                    assert(views(prev)[j] == prev[j]@);
                }
            }
            assert(views(out@) =~= ks.take(i + 1));
        }
        i += 1;
    }
    assert(keys_of(blocker_entries(*bb)).take(n as int) =~= keys_of(blocker_entries(*bb)));
    out
}

/// The strings by their views.
pub open spec fn views(v: Seq<String>) -> Seq<Seq<char>> {
    v.map_values(|s: String| s@)
}

/// A dependency tracker that dissolves the graph as nodes complete.
/// Each pending node has a count of the distinct pending nodes blocking
/// it, and records which nodes it blocks on which sockets.
pub struct TopologicalSort<'a, R: NodeDefResolver> {
    pub dynprompt: &'a DynamicPrompt,
    resolver: &'a R,
    pending_nodes: IndexSet<String>,
    block_count: IndexMap<String, usize>,
    blocking: IndexMap<String, IndexMap<String, IndexMap<u32, bool>>>,
    cached_nodes: IndexSet<String>,
}

impl<'a, R: NodeDefResolver> TopologicalSort<'a, R> {
    /// The resolver of node-definition metadata.
    pub closed spec fn resolver(&self) -> R {
        *self.resolver
    }

    /// The nodes that adding `root` makes pending, in order (see
    /// [`visit_order`]); none when `root` is cached.
    pub open spec fn added_nodes(&self, root: Seq<char>, include_lazy: bool, sub: Option<Seq<Seq<char>>>) -> Seq<Seq<char>> {
        visit_order(
            self.prompt(),
            self.resolver(),
            include_lazy,
            sub,
            self.cached(),
            if self.cached().contains(root) { Seq::empty() } else { seq![root] },
            self.pending(),
        )
    }

    /// The pending nodes, in the order they were added.
    pub closed spec fn pending(&self) -> Seq<Seq<char>> {
        string_set_items(self.pending_nodes)
    }

    /// The count of each pending node.
    pub closed spec fn counts(&self) -> Seq<(Seq<char>, usize)> {
        count_map_entries(self.block_count)
    }

    /// What each pending node blocks.
    pub closed spec fn blocking(&self) -> Blocking {
        blocking_entries(self.blocking)
    }

    /// The nodes treated as already computed.
    pub closed spec fn cached(&self) -> Seq<Seq<char>> {
        string_set_items(self.cached_nodes)
    }

    /// The prompt the nodes come from.
    pub closed spec fn prompt(&self) -> DynamicPrompt {
        *self.dynprompt
    }

    /// The shape every operation keeps: each pending node once, with one
    /// count and one blocking entry in the same order, each blocking entry
    /// naming each blocked node once, and no count above the number of
    /// entries that block its node.
    pub open spec fn wf(&self) -> bool {
        &&& self.pending().no_duplicates()
        &&& keys_of(self.blocking()) == self.pending()
        &&& keys_of(self.counts()) == self.pending()
        &&& forall|i: int| 0 <= i < self.blocking().len() ==> keys_unique(#[trigger] self.blocking()[i].1)
        &&& forall|i: int| 0 <= i < self.counts().len()
            ==> #[trigger] self.counts()[i].1 <= blocker_count(self.blocking(), self.counts()[i].0)
        &&& all_strong(self.blocking())
    }

    /// Counts are exact and only pending nodes are blocked.
    pub open spec fn consistent(&self) -> bool {
        &&& forall|i: int| 0 <= i < self.counts().len()
            ==> #[trigger] self.counts()[i].1 == blocker_count(self.blocking(), self.counts()[i].0)
        &&& forall|i: int, j: int| 0 <= i < self.blocking().len() && 0 <= j < self.blocking()[i].1.len()
            ==> self.pending().contains(#[trigger] self.blocking()[i].1[j].0)
    }

    /// Popping `id` counts nothing down below zero.
    pub open spec fn pop_ok(&self, id: Seq<char>) -> bool {
        forall|i: int| 0 <= i < self.counts().len() && has_key(blocked_of(self.blocking(), id), #[trigger] self.counts()[i].0)
            ==> self.counts()[i].1 >= 1
    }

    proof fn lemma_pop_wf(
        &self,
        old_pending: Seq<Seq<char>>,
        old_counts: Seq<(Seq<char>, usize)>,
        old_bl: Blocking,
        id: Seq<char>,
    )
        requires
            old_pending.no_duplicates(),
            keys_of(old_bl) == old_pending,
            keys_of(old_counts) == old_pending,
            forall|i: int| 0 <= i < old_bl.len() ==> keys_unique(#[trigger] old_bl[i].1),
            forall|i: int| 0 <= i < old_counts.len() ==> #[trigger] old_counts[i].1 <= blocker_count(old_bl, old_counts[i].0),
            forall|i: int| 0 <= i < old_counts.len() && has_key(blocked_of(old_bl, id), #[trigger] old_counts[i].0)
                ==> old_counts[i].1 >= 1,
            all_strong(old_bl),
            self.pending() == seq_without(old_pending, id),
            self.blocking() == keyed_remove(old_bl, id),
            self.counts() == keyed_remove(counted_down(old_counts, blocked_of(old_bl, id)), id),
        ensures
            self.wf(),
            ({
                &&& forall|i: int| 0 <= i < old_counts.len() ==> #[trigger] old_counts[i].1 == blocker_count(old_bl, old_counts[i].0)
                &&& forall|i: int, j: int| 0 <= i < old_bl.len() && 0 <= j < old_bl[i].1.len()
                    ==> old_pending.contains(#[trigger] old_bl[i].1[j].0)
                &&& (lookup(old_counts, id) == Some(0usize) || !old_pending.contains(id))
            }) ==> self.consistent(),
    {
        let inner = blocked_of(old_bl, id);
        let cd = counted_down(old_counts, inner);
        lemma_keys_of_unique(old_bl);
        lemma_keys_of_unique(old_counts);
        lemma_seq_without(old_pending, id);
        lemma_keys_of_remove(old_bl, id);
        assert(keys_of(cd) =~= keys_of(old_counts));
        lemma_keys_of_unique(cd);
        lemma_keys_of_remove(cd, id);
        lemma_has_key_keys_of(old_bl, id);
        let nb = self.blocking();
        let nc = self.counts();
        if has_key(old_bl, id) {
            let p = key_pos(old_bl, id);
            assert(old_bl[p].0 == id);
            lemma_blocks_at(old_bl, p, id);
            assert(inner == old_bl[p].1);
            assert(nb == old_bl.remove(p));
            lemma_has_key_keys_of(cd, id);
            let q = key_pos(cd, id);
            assert(cd[q].0 == id);
            assert(keys_of(cd)[q] == id);
            assert(old_pending[p] == id);
            assert(q == p);
            assert(nc == cd.remove(p));
            assert forall|i: int| 0 <= i < nb.len() implies keys_unique(#[trigger] nb[i].1) by {
                let i2 = if i < p { i } else { i + 1 };
                assert(nb[i] == old_bl[i2]);
            }
            assert forall|i: int, j: int| 0 <= i < nb.len() && 0 <= j < nb[i].1.len() implies any_strong(#[trigger] nb[i].1[j].1) by {
                let i2 = if i < p { i } else { i + 1 };
                assert(nb[i] == old_bl[i2]);
                assert(any_strong(old_bl[i2].1[j].1));
            }
            assert forall|i: int| 0 <= i < nc.len() implies #[trigger] nc[i].1 <= blocker_count(nb, nc[i].0) by {
                let i2 = if i < p { i } else { i + 1 };
                assert(nc[i] == cd[i2]);
                let k = old_counts[i2].0;
                lemma_blocker_count_remove(old_bl, p, k);
            }
            if ({
                &&& forall|i: int| 0 <= i < old_counts.len() ==> #[trigger] old_counts[i].1 == blocker_count(old_bl, old_counts[i].0)
                &&& forall|i: int, j: int| 0 <= i < old_bl.len() && 0 <= j < old_bl[i].1.len()
                    ==> old_pending.contains(#[trigger] old_bl[i].1[j].0)
                &&& (lookup(old_counts, id) == Some(0usize) || !old_pending.contains(id))
            }) {
                assert forall|i: int| 0 <= i < nc.len() implies #[trigger] nc[i].1 == blocker_count(nb, nc[i].0) by {
                    let i2 = if i < p { i } else { i + 1 };
                    assert(nc[i] == cd[i2]);
                    let k = old_counts[i2].0;
                    lemma_blocker_count_remove(old_bl, p, k);
                }
                assert(old_pending.contains(id));
                lemma_key_pos(old_counts, p);
                assert(old_counts[p].0 == id);
                assert(old_counts[p].1 == 0);
                assert forall|i: int, j: int| 0 <= i < nb.len() && 0 <= j < nb[i].1.len()
                    implies self.pending().contains(#[trigger] nb[i].1[j].0) by {
                    let i2 = if i < p { i } else { i + 1 };
                    assert(nb[i] == old_bl[i2]);
                    let k = nb[i].1[j].0;
                    assert(old_pending.contains(k));
                    if k == id {
                        assert(has_key(old_bl[i2].1, id));
                        lemma_blocker_count_remove(old_bl, i2, id);
                        assert(false);
                    }
                }
            }
        } else {
            assert(inner =~= Seq::<(Seq<char>, Sockets)>::empty());
            assert(cd =~= old_counts);
            lemma_has_key_keys_of(old_counts, id);
            assert(nb == old_bl);
            assert(nc == old_counts);
            assert(!old_pending.contains(id));
            assert forall|i: int, j: int| 0 <= i < nb.len() && 0 <= j < nb[i].1.len()
                && old_pending.contains(nb[i].1[j].0) implies self.pending().contains(#[trigger] nb[i].1[j].0) by {
            }
        }
    }

    proof fn lemma_edge_wf(
        &self,
        old_pending: Seq<Seq<char>>,
        old_counts: Seq<(Seq<char>, usize)>,
        old_bl: Blocking,
        from: Seq<char>,
        to: Seq<char>,
        socket: u32,
    )
        requires
            old_pending.no_duplicates(),
            keys_of(old_bl) == old_pending,
            keys_of(old_counts) == old_pending,
            forall|i: int| 0 <= i < old_bl.len() ==> keys_unique(#[trigger] old_bl[i].1),
            forall|i: int| 0 <= i < old_counts.len() ==> #[trigger] old_counts[i].1 <= blocker_count(old_bl, old_counts[i].0),
            old_pending.contains(from),
            old_pending.contains(to) || blocks(old_bl, from, to),
            self.pending() == old_pending,
            self.blocking() == keyed_insert(
                old_bl,
                from,
                keyed_insert(
                    blocked_of(old_bl, from),
                    to,
                    keyed_insert(
                        match lookup(blocked_of(old_bl, from), to) {
                            Some(sk) => sk,
                            None => Seq::empty(),
                        },
                        socket,
                        true,
                    ),
                ),
            ),
            self.counts() == (if blocks(old_bl, from, to) {
                old_counts
            } else {
                keyed_insert(old_counts, to, (lookup(old_counts, to)->0 + 1) as usize)
            }),
            !blocks(old_bl, from, to) ==> lookup(old_counts, to)->0 + 1 <= usize::MAX,
            all_strong(old_bl),
        ensures
            self.wf(),
            ({
                &&& forall|i: int| 0 <= i < old_counts.len() ==> #[trigger] old_counts[i].1 == blocker_count(old_bl, old_counts[i].0)
                &&& forall|i: int, j: int| 0 <= i < old_bl.len() && 0 <= j < old_bl[i].1.len()
                    ==> old_pending.contains(#[trigger] old_bl[i].1[j].0)
            }) ==> self.consistent(),
    {
        lemma_keys_of_unique(old_bl);
        lemma_keys_of_unique(old_counts);
        lemma_has_key_keys_of(old_bl, from);
        lemma_has_key_keys_of(old_counts, to);
        let p = key_pos(old_bl, from);
        assert(old_bl[p].0 == from);
        lemma_blocks_at(old_bl, p, to);
        let inner0 = old_bl[p].1;
        let sk = match lookup(inner0, to) {
            Some(sk) => sk,
            None => Seq::empty(),
        };
        let inner1 = keyed_insert(inner0, to, keyed_insert(sk, socket, true));
        lemma_keyed_insert(inner0, to, keyed_insert(sk, socket, true));
        let nb = self.blocking();
        assert(nb == old_bl.update(p, (from, inner1)));
        assert(keys_of(nb) =~= keys_of(old_bl));
        assert forall|k: Seq<char>| #[trigger] has_key(inner1, k) == (has_key(inner0, k) || k == to) by {
            lemma_keyed_insert_has_key(inner0, to, keyed_insert(sk, socket, true), k);
        }
        assert forall|i: int| 0 <= i < nb.len() implies keys_unique(#[trigger] nb[i].1) by {
            if i != p {
                assert(nb[i] == old_bl[i]);
            }
        }
        let sk1 = keyed_insert(sk, socket, true);
        assert(any_strong(sk1)) by {
            if has_key(sk, socket) {
                let t = key_pos(sk, socket);
                assert(sk[t].0 == socket);
                assert(sk1[t] == (socket, true));
                assert(0 <= t < sk1.len() && sk1[t].1);
            } else {
                assert(sk1[sk.len() as int] == (socket, true));
                assert(sk1[sk.len() as int].1);
            }
        }
        assert forall|i: int, j: int| 0 <= i < nb.len() && 0 <= j < nb[i].1.len() implies any_strong(#[trigger] nb[i].1[j].1) by {
            if i != p {
                assert(nb[i] == old_bl[i]);
                assert(any_strong(old_bl[i].1[j].1));
            } else if has_key(inner0, to) {
                let t = key_pos(inner0, to);
                assert(inner0[t].0 == to);
                assert(inner1 == inner0.update(t, (to, sk1)));
                if j != t {
                    assert(any_strong(old_bl[p].1[j].1));
                }
            } else {
                assert(inner1 == inner0.push((to, sk1)));
                if j < inner0.len() {
                    assert(any_strong(old_bl[p].1[j].1));
                }
            }
        }
        let nc = self.counts();
        let newly = !has_key(inner0, to);
        let q = key_pos(old_counts, to);
        if newly {
            assert(old_pending.contains(to));
            assert(old_counts[q].0 == to);
            lemma_key_pos(old_counts, q);
        }
        assert(keys_of(nc) =~= keys_of(old_counts)) by {
            if newly {
                assert(nc == old_counts.update(q, (to, (old_counts[q].1 + 1) as usize)));
            }
        }
        assert forall|i: int| 0 <= i < nc.len() implies #[trigger] nc[i].1 <= blocker_count(nb, nc[i].0) by {
            let k = nc[i].0;
            assert(k == old_counts[i].0);
            lemma_blocker_count_update(old_bl, p, (from, inner1), k);
            if newly && i == q {
            } else if newly {
                assert(nc[i] == old_counts[i]);
            }
        }
        if ({
            &&& forall|i: int| 0 <= i < old_counts.len() ==> #[trigger] old_counts[i].1 == blocker_count(old_bl, old_counts[i].0)
            &&& forall|i: int, j: int| 0 <= i < old_bl.len() && 0 <= j < old_bl[i].1.len()
                ==> old_pending.contains(#[trigger] old_bl[i].1[j].0)
        }) {
            assert forall|i: int| 0 <= i < nc.len() implies #[trigger] nc[i].1 == blocker_count(nb, nc[i].0) by {
                let k = nc[i].0;
                assert(k == old_counts[i].0);
                lemma_blocker_count_update(old_bl, p, (from, inner1), k);
                if newly && i == q {
                } else if newly {
                    assert(nc[i] == old_counts[i]);
                }
            }
            assert forall|i: int, j: int| 0 <= i < nb.len() && 0 <= j < nb[i].1.len()
                implies self.pending().contains(#[trigger] nb[i].1[j].0) by {
                if i != p {
                    assert(nb[i] == old_bl[i]);
                } else {
                    let k = nb[i].1[j].0;
                    assert(has_key(inner1, k));
                    if k != to {
                        assert(has_key(inner0, k));
                        let a = key_pos(inner0, k);
                        assert(inner0[a].0 == k);
                        assert(old_bl[p].1[a].0 == k);
                    }
                }
            }
        }
    }

    /// A pending node with a nonzero count has a pending strong blocker.
    proof fn lemma_has_blocker(&self, x: Seq<char>)
        requires
            self.wf(),
            self.pending().contains(x),
            blocker_count(self.blocking(), x) > 0,
        ensures
            has_pending_blocker(self.pending(), self.blocking(), x),
    {
        let p = self.pending();
        let bl = self.blocking();
        lemma_keys_of_unique(bl);
        if forall|a: int| 0 <= a < bl.len() ==> !has_key(#[trigger] bl[a].1, x) {
            lemma_blocker_count_zero(bl, x);
        }
        let a = choose|a: int| 0 <= a < bl.len() && has_key(#[trigger] bl[a].1, x);
        let b = bl[a].0;
        assert(keys_of(bl)[a] == b);
        assert(p[a] == b);
        lemma_blocks_at(bl, a, x);
        let t = key_pos(bl[a].1, x);
        assert(bl[a].1[t].0 == x);
        assert(any_strong(bl[a].1[t].1));
        assert(strongly_blocks(bl, b, x));
    }

    /// With no node ready, every pending node has a pending strong blocker.
    proof fn lemma_stuck(&self)
        requires
            self.wf(),
            self.consistent(),
            ready_nodes(self.counts()).len() == 0,
        ensures
            forall|x: Seq<char>| self.pending().contains(x) ==> #[trigger] has_pending_blocker(self.pending(), self.blocking(), x),
    {
        let p = self.pending();
        let bl = self.blocking();
        let c = self.counts();
        lemma_ready_nodes(c);
        lemma_keys_of_unique(bl);
        assert forall|x: Seq<char>| p.contains(x) implies #[trigger] has_pending_blocker(p, bl, x) by {
            let i = choose|i: int| 0 <= i < p.len() && p[i] == x;
            assert(keys_of(c)[i] == c[i].0);
            assert(c[i].1 != 0);
            assert(c[i].1 == blocker_count(bl, c[i].0));
            if forall|a: int| 0 <= a < bl.len() ==> !has_key(#[trigger] bl[a].1, x) {
                lemma_blocker_count_zero(bl, x);
            }
            let a = choose|a: int| 0 <= a < bl.len() && has_key(#[trigger] bl[a].1, x);
            let b = bl[a].0;
            assert(keys_of(bl)[a] == b);
            assert(p[a] == b);
            lemma_blocks_at(bl, a, x);
            let t = key_pos(bl[a].1, x);
            assert(bl[a].1[t].0 == x);
            assert(any_strong(bl[a].1[t].1));
            assert(strongly_blocks(bl, b, x));
        }
    }

    proof fn lemma_counts_prefix_kept(
        &self,
        c0: Seq<(Seq<char>, usize)>,
        p0: Seq<Seq<char>>,
        old_counts: Seq<(Seq<char>, usize)>,
        to: Seq<char>,
    )
        requires
            keys_of(c0) == p0,
            p0.no_duplicates(),
            old_counts.len() <= c0.len(),
            forall|i: int| 0 <= i < old_counts.len() ==> #[trigger] c0[i] == old_counts[i],
            !keys_of(old_counts).contains(to),
            self.counts() == c0 || (exists|v: usize| self.counts() == keyed_insert(c0, to, v)),
        ensures
            forall|i: int| 0 <= i < old_counts.len() ==> #[trigger] self.counts()[i] == old_counts[i],
    {
        if self.counts() != c0 {
            let v = choose|v: usize| self.counts() == keyed_insert(c0, to, v);
            lemma_keys_of_unique(c0);
            assert forall|i: int| 0 <= i < old_counts.len() implies #[trigger] self.counts()[i] == old_counts[i] by {
                if has_key(c0, to) {
                    let q = key_pos(c0, to);
                    assert(c0[q].0 == to);
                    if q == i {
                        assert(keys_of(old_counts)[i] == to);
                    }
                }
            }
        }
    }

    pub fn new(dynprompt: &'a DynamicPrompt, resolver: &'a R) -> (r: TopologicalSort<'a, R>)
        ensures
            r.wf(),
            r.consistent(),
            r.prompt() == *dynprompt,
            r.resolver() == *resolver,
            r.pending().len() == 0,
            r.cached().len() == 0,
    {
        let r = TopologicalSort {
            dynprompt,
            resolver,
            pending_nodes: string_set_new(),
            block_count: count_map_new(),
            blocking: blocking_map_new(),
            cached_nodes: string_set_new(),
        };
        assert(keys_of(r.blocking()) =~= r.pending());
        assert(keys_of(r.counts()) =~= r.pending());
        r
    }

    /// Marks a node as cached, so that links from it never become
    /// dependencies.
    pub fn set_cached(&mut self, node_id: &str)
        ensures
            final(self).cached() == seq_with(old(self).cached(), node_id@),
            final(self).resolver() == old(self).resolver(),
            final(self).pending() == old(self).pending(),
            final(self).counts() == old(self).counts(),
            final(self).blocking() == old(self).blocking(),
            final(self).prompt() == old(self).prompt(),
    {
        string_set_insert(&mut self.cached_nodes, String::from_str(node_id));
    }

    /// Whether the node is marked cached.
    pub fn is_cached(&self, node_id: &str) -> (r: bool)
        ensures
            r == self.cached().contains(node_id@),
    {
        string_set_contains(&self.cached_nodes, node_id)
    }

    /// Whether no node is pending.
    pub fn is_empty(&self) -> (r: bool)
        ensures
            r == (self.pending().len() == 0),
    {
        string_set_len(&self.pending_nodes) == 0
    }

    /// The pending nodes that nothing blocks, in insertion order.
    pub fn get_ready_nodes(&self) -> (r: Vec<String>)
        requires
            self.wf(),
        ensures
            r@.map_values(|s: String| s@) == ready_nodes(self.counts()),
    {
        let n = string_set_len(&self.pending_nodes);
        let ghost counts = self.counts();
        let mut out: Vec<String> = Vec::new();
        let mut i: usize = 0;
        proof {
            lemma_keys_of_unique(counts);
        }
        while i < n
            invariant
                self.wf(),
                counts == self.counts(),
                keys_unique(counts),
                n == self.pending().len(),
                i <= n,
                out@.map_values(|s: String| s@) == ready_nodes(counts.take(i as int)),
            decreases n - i,
        {
            let node_id = string_set_get_index(&self.pending_nodes, i).unwrap();
            assert(keys_of(counts)[i as int] == counts[i as int].0);
            proof {
                lemma_key_pos(counts, i as int);
            }
            let c = count_map_get(&self.block_count, node_id.as_str()).unwrap();
            assert(counts.take(i + 1).drop_last() =~= counts.take(i as int));
            if c == 0 {
                out.push(node_id.clone());
            }
            assert(out@.map_values(|s: String| s@) =~= ready_nodes(counts.take(i + 1)));
            i += 1;
        }
        assert(counts.take(n as int) =~= counts);
        out
    }

    /// Starts tracking a node that is not pending: no count, blocking
    /// nothing.
    fn start_node(&mut self, id: &String)
        requires
            old(self).wf(),
            !old(self).pending().contains(id@),
        ensures
            final(self).wf(),
            old(self).consistent() ==> final(self).consistent(),
            final(self).pending() == old(self).pending().push(id@),
            final(self).counts() == old(self).counts().push((id@, 0usize)),
            final(self).blocking() == old(self).blocking().push((id@, Seq::<(Seq<char>, Sockets)>::empty())),
            final(self).cached() == old(self).cached(),
            final(self).resolver() == old(self).resolver(),
            final(self).dynprompt == old(self).dynprompt,
    {
        let ghost old_bl = self.blocking();
        let ghost old_counts = self.counts();
        let ghost old_pending = self.pending();
        proof {
            lemma_keys_of_unique(old_bl);
            lemma_keys_of_unique(old_counts);
            lemma_has_key_keys_of(old_bl, id@);
            lemma_has_key_keys_of(old_counts, id@);
            lemma_keys_of_insert(old_bl, id@, Seq::<(Seq<char>, Sockets)>::empty());
            lemma_keys_of_insert(old_counts, id@, 0usize);
        }
        string_set_insert(&mut self.pending_nodes, id.clone());
        count_map_insert(&mut self.block_count, id.clone(), 0);
        blocking_map_insert(&mut self.blocking, id.clone(), blocked_map_new());
        proof {
            let e = (id@, Seq::<(Seq<char>, Sockets)>::empty());
            let nb = self.blocking();
            let nc = self.counts();
            assert(nb == old_bl.push(e));
            assert(nc == old_counts.push((id@, 0usize)));
            assert(self.pending() == old_pending.push(id@));
            assert(self.pending().no_duplicates()) by {
                assert forall|a: int, b: int| 0 <= a < self.pending().len() && 0 <= b < self.pending().len() && a != b
                    implies self.pending()[a] != self.pending()[b] by {
                    if a == old_pending.len() {
                        assert(old_pending.contains(self.pending()[b]) ==> false || self.pending()[b] != id@);
                    }
                    if b == old_pending.len() {
                        assert(old_pending[a] == self.pending()[a]);
                    }
                }
            }
            assert forall|i: int| 0 <= i < nb.len() implies keys_unique(#[trigger] nb[i].1) by {
                if i < old_bl.len() {
                    assert(nb[i] == old_bl[i]);
                }
            }
            assert forall|i: int, j: int| 0 <= i < nb.len() && 0 <= j < nb[i].1.len() implies any_strong(#[trigger] nb[i].1[j].1) by {
                assert(nb[i] == old_bl[i]);
                assert(any_strong(old_bl[i].1[j].1));
            }
            assert forall|i: int| 0 <= i < nc.len() implies #[trigger] nc[i].1 <= blocker_count(nb, nc[i].0) by {
                lemma_blocker_count_push(old_bl, e, nc[i].0);
                if i < old_counts.len() {
                    assert(nc[i] == old_counts[i]);
                }
            }
            if old(self).consistent() {
                assert forall|i: int| 0 <= i < nc.len() implies #[trigger] nc[i].1 == blocker_count(nb, nc[i].0) by {
                    lemma_blocker_count_push(old_bl, e, nc[i].0);
                    if i < old_counts.len() {
                        assert(nc[i] == old_counts[i]);
                    } else {
                        assert forall|a: int| 0 <= a < old_bl.len() implies !has_key(#[trigger] old_bl[a].1, id@) by {
                            if has_key(old_bl[a].1, id@) {
                                let j = choose|j: int| 0 <= j < old_bl[a].1.len() && #[trigger] old_bl[a].1[j].0 == id@;
                                assert(old_pending.contains(old_bl[a].1[j].0));
                            }
                        }
                        lemma_blocker_count_zero(old_bl, id@);
                    }
                }
                assert forall|i: int, j: int| 0 <= i < nb.len() && 0 <= j < nb[i].1.len()
                    implies self.pending().contains(#[trigger] nb[i].1[j].0) by {
                    assert(i < old_bl.len());
                    assert(nb[i] == old_bl[i]);
                    let k = nb[i].1[j].0;
                    assert(old_pending.contains(k));
                    let t = choose|t: int| 0 <= t < old_pending.len() && old_pending[t] == k;
                    assert(self.pending()[t] == k);
                }
            }
        }
    }

    /// Records that `from` blocks `to` on `socket`; counts `to` up when
    /// `from` did not block it before.
    fn add_blocking_edge(&mut self, from: &str, socket: u32, to: &str)
        requires
            old(self).wf(),
            old(self).pending().contains(from@),
            old(self).pending().contains(to@) || blocks(old(self).blocking(), from@, to@),
        ensures
            final(self).wf(),
            old(self).consistent() ==> final(self).consistent(),
            final(self).resolver() == old(self).resolver(),
            final(self).pending() == old(self).pending(),
            final(self).cached() == old(self).cached(),
            final(self).dynprompt == old(self).dynprompt,
            final(self).blocking() == keyed_insert(
                old(self).blocking(),
                from@,
                keyed_insert(
                    blocked_of(old(self).blocking(), from@),
                    to@,
                    keyed_insert(
                        match lookup(blocked_of(old(self).blocking(), from@), to@) {
                            Some(sk) => sk,
                            None => Seq::empty(),
                        },
                        socket,
                        true,
                    ),
                ),
            ),
            final(self).counts() == (if blocks(old(self).blocking(), from@, to@) {
                old(self).counts()
            } else {
                keyed_insert(old(self).counts(), to@, (lookup(old(self).counts(), to@)->0 + 1) as usize)
            }),
            forall|a: Seq<char>, b: Seq<char>| #[trigger] blocks(final(self).blocking(), a, b)
                == (blocks(old(self).blocking(), a, b) || (a == from@ && b == to@)),
    {
        let ghost old_bl = self.blocking();
        let ghost old_counts = self.counts();
        let ghost old_pending = self.pending();
        let ghost inner0 = blocked_of(old_bl, from@);
        let plen = string_set_len(&self.pending_nodes);
        proof {
            lemma_keys_of_unique(old_bl);
            lemma_keys_of_unique(old_counts);
            lemma_has_key_keys_of(old_bl, from@);
            lemma_has_key_keys_of(old_counts, to@);
            let p = key_pos(old_bl, from@);
            assert(old_bl[p].0 == from@);
            lemma_blocks_at(old_bl, p, to@);
        }
        let mut inner = blocking_map_insert(&mut self.blocking, String::from_str(from), blocked_map_new()).unwrap();
        assert(blocked_entries(inner) == inner0);
        proof {
            let p = key_pos(old_bl, from@);
            assert(keys_unique(inner0));
        }
        let newly = !blocked_map_contains_key(&inner, to);
        let ghost sk0 = match lookup(inner0, to@) {
            Some(sk) => sk,
            None => Seq::<(u32, bool)>::empty(),
        };
        let mut sockets = if newly {
            socket_map_new()
        } else {
            blocked_map_insert(&mut inner, String::from_str(to), socket_map_new()).unwrap()
        };
        assert(socket_entries(sockets) == sk0);
        socket_map_insert(&mut sockets, socket, true);
        blocked_map_insert(&mut inner, String::from_str(to), sockets);
        proof {
            lemma_keyed_insert_twice(inner0, to@, Seq::<(u32, bool)>::empty(), keyed_insert(sk0, socket, true));
            lemma_keyed_insert_twice(old_bl, from@, Seq::<(Seq<char>, Sockets)>::empty(), blocked_entries(inner));
        }
        blocking_map_insert(&mut self.blocking, String::from_str(from), inner);
        if newly {
            let c = count_map_get(&self.block_count, to).unwrap();
            proof {
                let p = key_pos(old_bl, from@);
                let q = key_pos(old_counts, to@);
                assert(old_counts[q].0 == to@);
                lemma_blocker_count_remove(old_bl, p, to@);
                lemma_blocker_count_le(old_bl.remove(p), to@);
            }
            count_map_insert(&mut self.block_count, String::from_str(to), c + 1);
        }
        proof {
            self.lemma_edge_wf(old_pending, old_counts, old_bl, from@, to@, socket);
            let sk1 = keyed_insert(sk0, socket, true);
            let inner1 = keyed_insert(inner0, to@, sk1);
            lemma_keyed_insert(old_bl, from@, inner1);
            assert forall|a: Seq<char>, b: Seq<char>| #[trigger] blocks(self.blocking(), a, b)
                == (blocks(old_bl, a, b) || (a == from@ && b == to@)) by {
                if a == from@ {
                    assert(blocked_of(self.blocking(), a) == inner1);
                    lemma_keyed_insert_has_key(inner0, to@, sk1, b);
                } else {
                    assert(lookup(self.blocking(), a) == lookup(old_bl, a));
                }
            }
        }
    }

    /// Adds a node and, transitively, the nodes its inputs link from,
    /// each linked node becoming a dependency of the node whose input
    /// links to it. An input is followed when it is a link, its node is in
    /// `subgraph_nodes` (when given), and it is not lazy (unless
    /// `include_lazy`); links from cached nodes are not followed and make
    /// no dependency. A cached or already pending node is not added again.
    /// Fails on the first added node that is missing, has no inputs
    /// object, or has a link input whose socket is not a non-negative
    /// integer; the nodes met until then stay pending, with no dependency
    /// recorded. On success the links are recorded once every node is
    /// added, in the order they were met ([`nodes_links`], [`with_links`]).
    pub fn add_node(
        &mut self,
        node_unique_id: &str,
        include_lazy: bool,
        subgraph_nodes: Option<&IndexSet<String>>,
    ) -> (r: Result<(), GraphError>)
        requires
            old(self).wf(),
        ensures
            final(self).wf(),
            old(self).consistent() ==> final(self).consistent(),
            final(self).cached() == old(self).cached(),
            final(self).prompt() == old(self).prompt(),
            old(self).pending().len() <= final(self).pending().len(),
            final(self).pending().subrange(0, old(self).pending().len() as int) == old(self).pending(),
            !old(self).cached().contains(node_unique_id@) ==> final(self).pending().contains(node_unique_id@),
            old(self).cached().contains(node_unique_id@) || old(self).pending().contains(node_unique_id@)
                ==> r is Ok && *final(self) == *old(self),
            final(self).resolver() == old(self).resolver(),
            forall|a: Seq<char>, b: Seq<char>| #[trigger] blocks(old(self).blocking(), a, b) ==> blocks(final(self).blocking(), a, b),
            r is Ok ==> final(self).pending() == old(self).pending()
                + old(self).added_nodes(node_unique_id@, include_lazy, subgraph_items(subgraph_nodes)),
            (r is Ok) == (forall|x: Seq<char>| #[trigger] old(self).added_nodes(node_unique_id@, include_lazy,
                subgraph_items(subgraph_nodes)).contains(x) ==> node_ok(old(self).prompt().node(x))),
            forall|i: int| 0 <= i < old(self).counts().len() ==> #[trigger] final(self).counts()[i] == old(self).counts()[i],
            r is Ok ==> forall|i: int| old(self).pending().len() <= i < final(self).pending().len()
                ==> has_inputs_object(final(self).prompt().node(#[trigger] final(self).pending()[i])),
            forall|i: int| old(self).pending().len() <= i < final(self).pending().len()
                ==> admitted(node_unique_id@, old(self).cached(), subgraph_items(subgraph_nodes), #[trigger] final(self).pending()[i]),
            forall|a: Seq<char>, b: Seq<char>| #[trigger] blocks(final(self).blocking(), a, b) ==> blocks(old(self).blocking(), a, b)
                || (!old(self).pending().contains(b) && final(self).pending().contains(b)
                    && followed_from(old(self).resolver(), include_lazy, subgraph_items(subgraph_nodes), final(self).prompt().node(b), a) && !old(self).cached().contains(a)),
            (exists|s: Set<Seq<char>>| link_closed(old(self).prompt(), node_unique_id@, old(self).cached(),
                subgraph_items(subgraph_nodes), s) && all_have_inputs(old(self).prompt(), s)) ==> r is Ok,
            r is Ok ==> forall|i: int| old(self).pending().len() <= i < final(self).pending().len()
                ==> deps_blocked(old(self).resolver(), include_lazy, final(self).blocking(), #[trigger] final(self).pending()[i],
                    final(self).prompt().node(final(self).pending()[i]), old(self).cached(), subgraph_items(subgraph_nodes)),
            r matches Err(e) ==> exists|i: int| old(self).pending().len() <= i < final(self).pending().len()
                && node_error(#[trigger] final(self).pending()[i], final(self).prompt().node(final(self).pending()[i]), e),
            r matches Err(e) ==> exists|k: int| #[trigger] stopped_at(old(self).prompt(), old(self).pending(),
                old(self).added_nodes(node_unique_id@, include_lazy, subgraph_items(subgraph_nodes)), final(self).pending(), k)
                && node_error(old(self).added_nodes(node_unique_id@, include_lazy, subgraph_items(subgraph_nodes))[k],
                    old(self).prompt().node(old(self).added_nodes(node_unique_id@, include_lazy, subgraph_items(subgraph_nodes))[k]), e),
            r is Err ==> forall|a: Seq<char>, b: Seq<char>| #[trigger] blocks(final(self).blocking(), a, b) == blocks(old(self).blocking(), a, b),
            r is Ok ==> (final(self).blocking(), final(self).counts()) == with_links(
                old(self).blocking() + fresh_entries(old(self).added_nodes(node_unique_id@, include_lazy, subgraph_items(subgraph_nodes))),
                old(self).counts() + fresh_counts(old(self).added_nodes(node_unique_id@, include_lazy, subgraph_items(subgraph_nodes))),
                old(self).cached(),
                nodes_links(old(self).prompt(), old(self).resolver(), include_lazy, subgraph_items(subgraph_nodes),
                    old(self).added_nodes(node_unique_id@, include_lazy, subgraph_items(subgraph_nodes))),
            ),
            r is Err ==> final(self).blocking() == old(self).blocking() + fresh_entries(final(self).pending().skip(old(self).pending().len() as int))
                && final(self).counts() == old(self).counts() + fresh_counts(final(self).pending().skip(old(self).pending().len() as int)),
    {
        if self.is_cached(node_unique_id) || string_set_contains(&self.pending_nodes, node_unique_id) {
            assert(self.pending().subrange(0, self.pending().len() as int) =~= self.pending());
            proof {
                let sub = subgraph_items(subgraph_nodes);
                let e = Seq::<Seq<char>>::empty();
                if self.cached().contains(node_unique_id@) {
                    assert(visit_order(self.prompt(), self.resolver(), include_lazy, sub, self.cached(), e, self.pending()) == e);
                } else {
                    let st = seq![node_unique_id@];
                    assert(st.last() == node_unique_id@);
                    assert(st.drop_last() =~= e);
                    assert(visit_order(self.prompt(), self.resolver(), include_lazy, sub, self.cached(), e, self.pending()) == e);
                    assert(visit_order(self.prompt(), self.resolver(), include_lazy, sub, self.cached(), st, self.pending()) == e);
                }
                assert(self.added_nodes(node_unique_id@, include_lazy, sub) =~= e);
                assert(self.pending() + e =~= self.pending());
                assert(self.blocking() + fresh_entries(e) =~= self.blocking());
                assert(self.counts() + fresh_counts(e) =~= self.counts());
                assert(nodes_links(self.prompt(), self.resolver(), include_lazy, sub, e) =~= Seq::<(Seq<char>, u32, Seq<char>)>::empty());
            }
            return Ok(());
        }
        let dp: &'a DynamicPrompt = self.dynprompt;
        let ghost res = self.resolver();
        let ghost root = node_unique_id@;
        let ghost old_pending = self.pending();
        let ghost old_counts = self.counts();
        let ghost kset = dp.node_ids();
        proof {
            vstd::seq_lib::seq_to_set_is_finite(keys_of(dp.original()));
            vstd::seq_lib::seq_to_set_is_finite(keys_of(dp.ephemeral()));
        }
        let ghost sub = subgraph_items(subgraph_nodes);
        let ghost good = exists|s: Set<Seq<char>>| link_closed(*dp, root, self.cached(), sub, s) && all_have_inputs(*dp, s);
        let ghost closure = choose|s: Set<Seq<char>>| link_closed(*dp, root, self.cached(), sub, s) && all_have_inputs(*dp, s);
        let ghost added = self.added_nodes(root, include_lazy, sub);
        let ghost tgt = old_pending + added;
        proof {
            assert(added == visit_order(*dp, res, include_lazy, sub, self.cached(), seq![root], old_pending));
        }
        let mut node_ids: Vec<String> = Vec::new();
        node_ids.push(String::from_str(node_unique_id));
        let mut links: Vec<(String, u32, String)> = Vec::new();
        proof {
            assert(self.pending().skip(old_pending.len() as int) =~= Seq::<Seq<char>>::empty());
            assert(old(self).blocking() + fresh_entries(Seq::<Seq<char>>::empty()) =~= old(self).blocking());
            assert(old_counts + fresh_counts(Seq::<Seq<char>>::empty()) =~= old_counts);
            assert(link_views(links@) =~= Seq::<(Seq<char>, u32, Seq<char>)>::empty());
        }
        while node_ids.len() > 0
            invariant
                tgt == old_pending + added,
                added == old(self).added_nodes(root, include_lazy, sub),
                added == visit_order(*dp, res, include_lazy, sub, old(self).cached(), seq![root], old_pending),
                self.pending() + visit_order(*dp, res, include_lazy, sub, old(self).cached(), views(node_ids@), self.pending()) == tgt,
                forall|i: int| old_pending.len() <= i < self.pending().len() ==> node_ok(dp.node(#[trigger] self.pending()[i])),
                sub == subgraph_items(subgraph_nodes),
                *dp == old(self).prompt(),
                self.blocking() == old(self).blocking() + fresh_entries(self.pending().skip(old_pending.len() as int)),
                self.counts() == old_counts + fresh_counts(self.pending().skip(old_pending.len() as int)),
                link_views(links@) == nodes_links(*dp, res, include_lazy, sub, self.pending().skip(old_pending.len() as int)),
                good == exists|s: Set<Seq<char>>| link_closed(*dp, root, old(self).cached(), sub, s) && all_have_inputs(*dp, s),
                good ==> link_closed(*dp, root, self.cached(), sub, closure) && all_have_inputs(*dp, closure),
                good ==> forall|t: int| 0 <= t < node_ids@.len() ==> closure.contains(#[trigger] node_ids@[t]@),
                self.wf(),
                old(self).consistent() ==> self.consistent(),
                self.cached() == old(self).cached(),
                self.dynprompt == old(self).dynprompt,
                dp == self.dynprompt,
                kset == dp.node_ids(),
                kset.finite(),
                root == node_unique_id@,
                old_pending == old(self).pending(),
                !old(self).cached().contains(root),
                !old_pending.contains(root),
                self.resolver() == res,
                res == old(self).resolver(),
                old_counts == old(self).counts(),
                old_counts.len() == old_pending.len(),
                !keys_of(old_counts).contains(root) || old_pending.contains(root),
                keys_of(old_counts) == old_pending,
                old_pending.len() <= self.pending().len(),
                self.pending().subrange(0, old_pending.len() as int) == old_pending,
                forall|i: int| 0 <= i < old_counts.len() ==> #[trigger] self.counts()[i] == old_counts[i],
                self.pending().contains(root) || (node_ids@.len() == 1 && node_ids@[0]@ == root),
                forall|i: int| old_pending.len() <= i < self.pending().len()
                    ==> has_inputs_object(dp.node(#[trigger] self.pending()[i])),
                forall|i: int| old_pending.len() <= i < self.pending().len()
                    ==> admitted(root, self.cached(), subgraph_items(subgraph_nodes), #[trigger] self.pending()[i]),
                forall|t: int| 0 <= t < node_ids@.len()
                    ==> admitted(root, self.cached(), subgraph_items(subgraph_nodes), #[trigger] node_ids@[t]@),
                forall|a: Seq<char>, b: Seq<char>| #[trigger] blocks(self.blocking(), a, b) == blocks(old(self).blocking(), a, b),
                forall|l: int| #![trigger links@[l]] 0 <= l < links@.len() ==> followed_from(res, include_lazy, subgraph_items(subgraph_nodes), dp.node(links@[l].2@), links@[l].0@),
                forall|i: int| old_pending.len() <= i < self.pending().len() ==> links_recorded(res, include_lazy, links@,
                    #[trigger] self.pending()[i], dp.node(self.pending()[i]), inputs_of(dp.node(self.pending()[i])).len() as int,
                    self.cached(), subgraph_items(subgraph_nodes)),
                forall|l: int| 0 <= l < links@.len() ==> {
                    &&& self.pending().contains(#[trigger] links@[l].2@)
                    &&& !old_pending.contains(links@[l].2@)
                    &&& (self.cached().contains(links@[l].0@) || self.pending().contains(links@[l].0@)
                        || in_stack(node_ids@, links@[l].0@))
                },
            decreases kset.difference(self.pending().to_set()).len(), node_ids@.len(),
        {
            let ghost before_ids = node_ids@;
            let unique_id = node_ids.pop().unwrap();
            assert(before_ids == node_ids@.push(unique_id));
            let ghost rest0 = views(node_ids@);
            proof {
                assert(views(before_ids) =~= rest0.push(unique_id@));
                assert(views(before_ids).drop_last() =~= rest0);
            }
            proof {
                if good {
                    assert(closure.contains(before_ids[before_ids.len() - 1]@));
                    assert forall|t: int| 0 <= t < node_ids@.len() implies closure.contains(#[trigger] node_ids@[t]@) by {
                        assert(node_ids@[t] == before_ids[t]);
                    }
                }
                assert(admitted(root, self.cached(), subgraph_items(subgraph_nodes), before_ids[before_ids.len() - 1]@));
                assert forall|t: int| 0 <= t < node_ids@.len() implies
                    admitted(root, self.cached(), subgraph_items(subgraph_nodes), #[trigger] node_ids@[t]@) by {
                    assert(node_ids@[t] == before_ids[t]);
                }
            }
            if string_set_contains(&self.pending_nodes, unique_id.as_str()) {
                proof {
                    assert forall|l: int| 0 <= l < links@.len() implies
                        (self.cached().contains(links@[l].0@) || self.pending().contains(links@[l].0@)
                        || in_stack(node_ids@, links@[l].0@)) by {
                        lemma_in_stack_push(node_ids@, unique_id, links@[l].0@);
                    }
                }
                continue;
            }
            let ghost p0 = self.pending();
            let ghost c0 = self.counts();
            let ghost bl0 = self.blocking();
            let ghost ch = pushed_sources(res, include_lazy, sub, old(self).cached(), dp.node(unique_id@), inputs_of(dp.node(unique_id@)).len() as int);
            proof {
                assert(visit_order(*dp, res, include_lazy, sub, old(self).cached(), views(before_ids), p0) == seq![unique_id@] + visit_order(*dp, res, include_lazy, sub, old(self).cached(), rest0 + ch, p0.push(unique_id@)));
                assert(p0 + (seq![unique_id@] + visit_order(*dp, res, include_lazy, sub, old(self).cached(), rest0 + ch, p0.push(unique_id@)))
                    =~= p0.push(unique_id@) + visit_order(*dp, res, include_lazy, sub, old(self).cached(), rest0 + ch, p0.push(unique_id@)));
                assert(tgt[p0.len() as int] == unique_id@);
                assert(added[p0.len() - old_pending.len()] == unique_id@);
                assert(added.contains(unique_id@));
            }
            self.start_node(&unique_id);
            proof {
                assert forall|i: int| old_pending.len() <= i < p0.len() implies node_ok(dp.node(#[trigger] self.pending()[i])) by {
                    assert(self.pending()[i] == p0[i]);
                }
                assert(self.pending().subrange(0, old_pending.len() as int) =~= p0.subrange(0, old_pending.len() as int));
                assert forall|i: int| 0 <= i < old_counts.len() implies #[trigger] self.counts()[i] == old_counts[i] by {
                    assert(self.counts()[i] == c0[i]);
                }
                assert forall|l: int| 0 <= l < links@.len() implies
                    (self.pending().contains(#[trigger] links@[l].2@)
                    && (self.cached().contains(links@[l].0@) || self.pending().contains(links@[l].0@)
                    || in_stack(node_ids@, links@[l].0@))) by {
                    let x = links@[l].2@;
                    let xi = choose|xi: int| 0 <= xi < p0.len() && p0[xi] == x;
                    assert(self.pending()[xi] == x);
                    let y = links@[l].0@;
                    lemma_in_stack_push(node_ids@, unique_id, y);
                    if p0.contains(y) {
                        let yi = choose|yi: int| 0 <= yi < p0.len() && p0[yi] == y;
                        assert(self.pending()[yi] == y);
                    } else if !self.cached().contains(y) && y == unique_id@ {
                        assert(self.pending()[p0.len() as int] == y);
                    }
                }
                assert(self.pending()[p0.len() as int] == unique_id@);
                if p0.contains(root) {
                    let ri = choose|ri: int| 0 <= ri < p0.len() && p0[ri] == root;
                    assert(self.pending()[ri] == root);
                }
                assert(self.pending().contains(root));
                assert forall|i: int| old_pending.len() <= i < p0.len()
                    implies has_inputs_object(dp.node(#[trigger] self.pending()[i])) by {
                    assert(self.pending()[i] == p0[i]);
                }
                assert forall|i: int| old_pending.len() <= i < self.pending().len()
                    implies admitted(root, self.cached(), subgraph_items(subgraph_nodes), #[trigger] self.pending()[i]) by {
                    if i < p0.len() {
                        assert(self.pending()[i] == p0[i]);
                    } else {
                        assert(self.pending()[i] == unique_id@);
                    }
                }
                lemma_keys_of_unique(bl0);
                lemma_has_key_keys_of(bl0, unique_id@);
                lemma_blocks_push_empty(bl0, unique_id@);
                {
                    assert forall|i: int| old_pending.len() <= i < p0.len() implies links_recorded(res, include_lazy, links@,
                        #[trigger] self.pending()[i], dp.node(self.pending()[i]), inputs_of(dp.node(self.pending()[i])).len() as int,
                        self.cached(), subgraph_items(subgraph_nodes)) by {
                        assert(self.pending()[i] == p0[i]);
                    }
                }
            }
            proof {
                let sk0 = p0.skip(old_pending.len() as int);
                let e = Seq::<(Seq<char>, Sockets)>::empty();
                assert(self.pending().skip(old_pending.len() as int) =~= sk0.push(unique_id@));
                assert(fresh_entries(sk0.push(unique_id@)) =~= fresh_entries(sk0).push((unique_id@, e)));
                assert(fresh_counts(sk0.push(unique_id@)) =~= fresh_counts(sk0).push((unique_id@, 0usize)));
                assert(old(self).blocking() + fresh_entries(sk0).push((unique_id@, e))
                    =~= (old(self).blocking() + fresh_entries(sk0)).push((unique_id@, e)));
                assert(old_counts + fresh_counts(sk0).push((unique_id@, 0usize))
                    =~= (old_counts + fresh_counts(sk0)).push((unique_id@, 0usize)));
            }
            let class_type = match dp.node_class_type(unique_id.as_str()) {
                Ok(c) => c,
                Err(e) => {
                    proof {
                        assert(self.pending().contains(unique_id@)) by {
                            assert(self.pending()[p0.len() as int] == unique_id@);
                        }
                        assert(self.pending().contains(root));
                        assert(self.pending().contains(node_unique_id@));
                        if good {
                            assert(has_inputs_object(dp.node(unique_id@)));
                        }
                        assert(!good);
                        assert(node_error(self.pending()[p0.len() as int], dp.node(self.pending()[p0.len() as int]), e));
                        assert(added.contains(unique_id@) && !node_ok(dp.node(unique_id@)));
                        assert(old(self).added_nodes(root, include_lazy, sub).contains(unique_id@));
                        {
                            let vo = visit_order(*dp, res, include_lazy, sub, old(self).cached(), rest0 + ch, p0.push(unique_id@));
                            lemma_stop_prefix(old_pending, added, p0, unique_id@, vo);
                            let k = p0.len() - old_pending.len();
                            assert forall|jx: int| 0 <= jx < k implies node_ok(dp.node(#[trigger] added[jx])) by {
                                assert(self.pending()[old_pending.len() + jx] == p0[old_pending.len() + jx]);
                            }
                            assert(stopped_at(*dp, old_pending, added, self.pending(), k));
                        }
                    }
                    return Err(e);
                },
            };
            let inputs = match dp.node_inputs(unique_id.as_str()) {
                Ok(o) => o,
                Err(e) => {
                    proof {
                        assert(self.pending()[p0.len() as int] == unique_id@);
                        if good {
                            assert(has_inputs_object(dp.node(unique_id@)));
                        }
                        assert(!good);
                        assert(node_error(self.pending()[p0.len() as int], dp.node(self.pending()[p0.len() as int]), e));
                        assert(added.contains(unique_id@) && !node_ok(dp.node(unique_id@)));
                        assert(old(self).added_nodes(root, include_lazy, sub).contains(unique_id@));
                        {
                            let vo = visit_order(*dp, res, include_lazy, sub, old(self).cached(), rest0 + ch, p0.push(unique_id@));
                            lemma_stop_prefix(old_pending, added, p0, unique_id@, vo);
                            let k = p0.len() - old_pending.len();
                            assert forall|jx: int| 0 <= jx < k implies node_ok(dp.node(#[trigger] added[jx])) by {
                                assert(self.pending()[old_pending.len() + jx] == p0[old_pending.len() + jx]);
                            }
                            assert(stopped_at(*dp, old_pending, added, self.pending(), k));
                        }
                    }
                    return Err(e);
                },
            };
            proof {
                assert(self.pending()[p0.len() as int] == unique_id@);
                assert(has_inputs_object(dp.node(unique_id@)));
                assert forall|i: int| old_pending.len() <= i < self.pending().len()
                    implies has_inputs_object(dp.node(#[trigger] self.pending()[i])) by {
                    if i < p0.len() {
                        assert(self.pending()[i] == p0[i]);
                    }
                }
                // the node exists, so it is one of the ids
                if lookup(dp.ephemeral(), unique_id@) is Some {
                    lemma_has_key_keys_of(dp.ephemeral(), unique_id@);
                } else {
                    lemma_has_key_keys_of(dp.original(), unique_id@);
                }
                assert(kset.contains(unique_id@));
                assert forall|x: Seq<char>| self.pending().to_set().contains(x) == p0.to_set().insert(unique_id@).contains(x) by {
                    if p0.contains(x) {
                        let xi = choose|xi: int| 0 <= xi < p0.len() && p0[xi] == x;
                        assert(self.pending()[xi] == x);
                    }
                    if self.pending().contains(x) {
                        let xi = choose|xi: int| 0 <= xi < self.pending().len() && self.pending()[xi] == x;
                        if xi < p0.len() {
                            assert(p0[xi] == x);
                        }
                    }
                }
                assert(self.pending().to_set() =~= p0.to_set().insert(unique_id@));
                assert(kset.difference(self.pending().to_set()) =~= kset.difference(p0.to_set()).remove(unique_id@));
                assert(kset.difference(p0.to_set()).contains(unique_id@));
                assert(!old_pending.contains(unique_id@)) by {
                    if old_pending.contains(unique_id@) {
                        let oi = choose|oi: int| 0 <= oi < old_pending.len() && old_pending[oi] == unique_id@;
                        assert(p0[oi] == unique_id@);
                    }
                }
            }
            let n_in = inputs.len();
            let mut j: usize = 0;
            proof {
                let nl = nodes_links(*dp, res, include_lazy, sub, p0.skip(old_pending.len() as int));
                assert(node_links(res, include_lazy, sub, dp.node(unique_id@), unique_id@, 0nat) =~= Seq::<(Seq<char>, u32, Seq<char>)>::empty());
                assert(nl + Seq::<(Seq<char>, u32, Seq<char>)>::empty() =~= nl);
            }
            while j < n_in
                invariant
                    self.blocking() == old(self).blocking() + fresh_entries(self.pending().skip(old_pending.len() as int)),
                    self.counts() == old_counts + fresh_counts(self.pending().skip(old_pending.len() as int)),
                    link_views(links@) == nodes_links(*dp, res, include_lazy, sub, p0.skip(old_pending.len() as int))
                        + node_links(res, include_lazy, sub, dp.node(unique_id@), unique_id@, j as nat),
                    self.wf(),
                    old(self).consistent() ==> self.consistent(),
                    self.cached() == old(self).cached(),
                    self.dynprompt == old(self).dynprompt,
                    dp == self.dynprompt,
                    kset == dp.node_ids(),
                    kset.finite(),
                    root == node_unique_id@,
                    old_pending == old(self).pending(),
                    !old(self).cached().contains(root),
                    !old_pending.contains(root),
                    self.resolver() == res,
                    res == old(self).resolver(),
                    old_counts == old(self).counts(),
                    old_counts.len() == old_pending.len(),
                    keys_of(old_counts) == old_pending,
                    old_pending.len() <= self.pending().len(),
                    self.pending().subrange(0, old_pending.len() as int) == old_pending,
                    forall|i: int| 0 <= i < old_counts.len() ==> #[trigger] self.counts()[i] == old_counts[i],
                    self.pending().contains(root),
                    self.pending().contains(unique_id@),
                    !old_pending.contains(unique_id@),
                    forall|i: int| old_pending.len() <= i < self.pending().len()
                        ==> has_inputs_object(dp.node(#[trigger] self.pending()[i])),
                    forall|i: int| old_pending.len() <= i < self.pending().len()
                        ==> admitted(root, self.cached(), subgraph_items(subgraph_nodes), #[trigger] self.pending()[i]),
                    forall|t: int| 0 <= t < node_ids@.len()
                        ==> admitted(root, self.cached(), subgraph_items(subgraph_nodes), #[trigger] node_ids@[t]@),
                    forall|a: Seq<char>, b: Seq<char>| #[trigger] blocks(self.blocking(), a, b) == blocks(old(self).blocking(), a, b),
                    forall|l: int| #![trigger links@[l]] 0 <= l < links@.len() ==> followed_from(res, include_lazy, subgraph_items(subgraph_nodes), dp.node(links@[l].2@), links@[l].0@),
                    self.pending() == p0.push(unique_id@),
                    old_pending.len() <= p0.len(),
                    class_type@ == class_of(dp.node(unique_id@)),
                    inputs@ == inputs_of(dp.node(unique_id@)),
                    forall|i: int| old_pending.len() <= i < p0.len() ==> links_recorded(res, include_lazy, links@,
                        #[trigger] self.pending()[i], dp.node(self.pending()[i]), inputs_of(dp.node(self.pending()[i])).len() as int,
                        self.cached(), subgraph_items(subgraph_nodes)),
                    links_recorded(res, include_lazy, links@, unique_id@, dp.node(unique_id@), j as int,
                        self.cached(), subgraph_items(subgraph_nodes)),
                    sub == subgraph_items(subgraph_nodes),
                    tgt == old_pending + added,
                added == old(self).added_nodes(root, include_lazy, sub),
                    views(node_ids@) == rest0 + pushed_sources(res, include_lazy, sub, old(self).cached(), dp.node(unique_id@), j as int),
                    tgt == p0.push(unique_id@) + visit_order(*dp, res, include_lazy, sub, old(self).cached(), rest0 + ch, p0.push(unique_id@)),
                    ch == pushed_sources(res, include_lazy, sub, old(self).cached(), dp.node(unique_id@), inputs_of(dp.node(unique_id@)).len() as int),
                    added.contains(unique_id@),
                    forall|i: int| old_pending.len() <= i < p0.len() ==> node_ok(dp.node(#[trigger] self.pending()[i])),
                    has_inputs_object(dp.node(unique_id@)),
                    forall|jj: int| 0 <= jj < j ==> !#[trigger] bad_socket(dp.node(unique_id@), jj),
                    *dp == old(self).prompt(),
                    good == exists|s: Set<Seq<char>>| link_closed(*dp, root, old(self).cached(), sub, s) && all_have_inputs(*dp, s),
                    good ==> link_closed(*dp, root, self.cached(), sub, closure) && all_have_inputs(*dp, closure),
                    good ==> forall|t: int| 0 <= t < node_ids@.len() ==> closure.contains(#[trigger] node_ids@[t]@),
                    good ==> closure.contains(unique_id@),
                    n_in == inputs@.len(),
                    j <= n_in,
                    kset.difference(self.pending().to_set()).len() < kset.difference(p0.to_set()).len(),
                    forall|l: int| 0 <= l < links@.len() ==> {
                        &&& self.pending().contains(#[trigger] links@[l].2@)
                        &&& !old_pending.contains(links@[l].2@)
                        &&& (self.cached().contains(links@[l].0@) || self.pending().contains(links@[l].0@)
                            || in_stack(node_ids@, links@[l].0@))
                    },
                decreases n_in - j,
            {
                let (input_name, value) = inputs.get_index(j).unwrap();
                let ghost lv0 = link_views(links@);
                let ghost nl0 = nodes_links(*dp, res, include_lazy, sub, p0.skip(old_pending.len() as int));
                if is_link(value) {
                    let link = match Link::parse(value) {
                        Some(l) => l,
                        None => {
                            proof {
                                let node = dp.node(unique_id@);
                                assert(inputs_of(node)[j as int] == inputs@[j as int]);
                                assert(bad_socket(node, j as int));
                                assert(self.pending()[p0.len() as int] == unique_id@);
                                if good {
                                    assert(node_ok(node));
                                }
                            }
                            let e = GraphError::NodeInput(non_integer_socket_text(unique_id.as_str(), input_name.as_str()));
                            proof {
                                let node = dp.node(unique_id@);
                                assert(inputs_of(node)[j as int].0 == input_name@);
                                assert(node_error(self.pending()[p0.len() as int], dp.node(self.pending()[p0.len() as int]), e));
                                assert(added.contains(unique_id@) && !node_ok(dp.node(unique_id@)));
                                assert(old(self).added_nodes(root, include_lazy, sub).contains(unique_id@));
                                {
                                    let vo = visit_order(*dp, res, include_lazy, sub, old(self).cached(), rest0 + ch, p0.push(unique_id@));
                                    lemma_stop_prefix(old_pending, added, p0, unique_id@, vo);
                                    let k = p0.len() - old_pending.len();
                                    assert forall|jx: int| 0 <= jx < k implies node_ok(dp.node(#[trigger] added[jx])) by {
                                        assert(self.pending()[old_pending.len() + jx] == p0[old_pending.len() + jx]);
                                    }
                                    assert(stopped_at(*dp, old_pending, added, self.pending(), k));
                                }
                            }
                            return Err(e);
                        },
                    };
                    let within = match subgraph_nodes {
                        Some(sub) => string_set_contains(sub, link.node_id.as_str()),
                        None => true,
                    };
                    if within {
                        let is_lazy = self.resolver.is_input_lazy(class_type.as_str(), input_name.as_str());
                        if include_lazy || !is_lazy {
                            let ghost ids0 = node_ids@;
                            let ghost links0 = links@;
                            if !self.is_cached(link.node_id.as_str()) {
                                node_ids.push(link.node_id.clone());
                                proof {
                                    let node = dp.node(unique_id@);
                                    assert(inputs_of(node)[j as int] == inputs@[j as int]);
                                    assert(input_source(node, j as int) == Some(link.node_id@));
                                    assert(followed(res, include_lazy, sub, node, j as int));
                                    assert(views(node_ids@) =~= views(ids0).push(link.node_id@));
                                    assert(views(node_ids@) =~= rest0 + pushed_sources(res, include_lazy, sub, old(self).cached(), node, (j + 1) as int));
                                    if good {
                                        assert(input_source(dp.node(unique_id@), j as int) == Some(link.node_id@));
                                        assert(closure.contains(link.node_id@));
                                        assert forall|t: int| 0 <= t < node_ids@.len() implies closure.contains(#[trigger] node_ids@[t]@) by {
                                            if t < ids0.len() {
                                                assert(node_ids@[t] == ids0[t]);
                                            }
                                        }
                                    }
                                }
                                proof {
                                    assert forall|t: int| 0 <= t < node_ids@.len() implies
                                        admitted(root, self.cached(), subgraph_items(subgraph_nodes), #[trigger] node_ids@[t]@) by {
                                        if t < ids0.len() {
                                            assert(node_ids@[t] == ids0[t]);
                                        }
                                    }
                                }
                            }
                            links.push((link.node_id, link.socket, unique_id.clone()));
                            proof {
                                let node = dp.node(unique_id@);
                                assert(inputs_of(node)[j as int] == inputs@[j as int]);
                                assert(followed(res, include_lazy, sub, node, j as int));
                                let l = link_of(inputs_of(node)[j as int].1)->0;
                                assert(links@.last().0@ == l.0 && links@.last().1 == l.1 && links@.last().2@ == unique_id@);
                                assert(link_views(links@) =~= lv0.push((l.0, l.1, unique_id@)));
                                assert(node_links(res, include_lazy, sub, node, unique_id@, (j + 1) as nat)
                                    == node_links(res, include_lazy, sub, node, unique_id@, j as nat).push((l.0, l.1, unique_id@)));
                                assert(link_views(links@) =~= nl0 + node_links(res, include_lazy, sub, node, unique_id@, (j + 1) as nat));
                            }
                            proof {
                                lemma_has_link_push(links0, links@.last());
                                assert(links@ == links0.push(links@.last()));
                                assert(links@[links0.len() as int] == links@.last());
                                assert(input_source(dp.node(unique_id@), j as int) == Some(links@.last().0@));
                                assert(followed_from(res, include_lazy, subgraph_items(subgraph_nodes), dp.node(unique_id@), links@.last().0@));
                                assert forall|l: int| #![trigger links@[l]] 0 <= l < links@.len() implies
                                    followed_from(res, include_lazy, subgraph_items(subgraph_nodes), dp.node(links@[l].2@), links@[l].0@) by {
                                    if l < links0.len() {
                                        assert(links@[l] == links0[l]);
                                    }
                                }
                                {
                                    assert(has_link(links@, links@.last().0@, unique_id@));
                                    assert forall|i: int| old_pending.len() <= i < p0.len() implies links_recorded(res, include_lazy, links@,
                                        #[trigger] self.pending()[i], dp.node(self.pending()[i]), inputs_of(dp.node(self.pending()[i])).len() as int,
                                        self.cached(), subgraph_items(subgraph_nodes)) by {
                                        assert(links_recorded(res, include_lazy, links0, self.pending()[i], dp.node(self.pending()[i]),
                                            inputs_of(dp.node(self.pending()[i])).len() as int, self.cached(), subgraph_items(subgraph_nodes)));
                                    }
                                    assert(links_recorded(res, include_lazy, links0, unique_id@, dp.node(unique_id@), j as int,
                                        self.cached(), subgraph_items(subgraph_nodes)));
                                }
                            }
                            proof {
                                assert forall|l: int| 0 <= l < links@.len() implies
                                    (self.cached().contains(links@[l].0@) || self.pending().contains(links@[l].0@)
                                    || in_stack(node_ids@, links@[l].0@)) by {
                                    if node_ids@ != ids0 {
                                        lemma_in_stack_push(ids0, node_ids@.last(), links@[l].0@);
                                        assert(node_ids@ == ids0.push(node_ids@.last()));
                                    }
                                    if l < links0.len() {
                                        assert(links@[l] == links0[l]);
                                    }
                                }
                            }
                        } else {
                            proof {
                                let node = dp.node(unique_id@);
                                assert(inputs_of(node)[j as int] == inputs@[j as int]);
                                assert(!followed(res, include_lazy, sub, node, j as int));
                                assert(node_links(res, include_lazy, sub, node, unique_id@, (j + 1) as nat)
                                    == node_links(res, include_lazy, sub, node, unique_id@, j as nat));
                            }
                        }
                    } else {
                        proof {
                            let node = dp.node(unique_id@);
                            assert(inputs_of(node)[j as int] == inputs@[j as int]);
                            assert(!followed(res, include_lazy, sub, node, j as int));
                            assert(node_links(res, include_lazy, sub, node, unique_id@, (j + 1) as nat)
                                == node_links(res, include_lazy, sub, node, unique_id@, j as nat));
                        }
                    }
                } else {
                    proof {
                        let node = dp.node(unique_id@);
                        assert(inputs_of(node)[j as int] == inputs@[j as int]);
                        assert(!followed(res, include_lazy, sub, node, j as int));
                        assert(node_links(res, include_lazy, sub, node, unique_id@, (j + 1) as nat)
                            == node_links(res, include_lazy, sub, node, unique_id@, j as nat));
                    }
                }
                proof {
                    {
                        let node = dp.node(unique_id@);
                        assert forall|jj: int| 0 <= jj < j + 1 && jj < inputs_of(node).len() && (#[trigger] input_source(node, jj)) is Some
                            && in_subgraph(subgraph_items(subgraph_nodes), input_source(node, jj)->0)
                            && (include_lazy || !res.lazy_input(class_of(node), inputs_of(node)[jj].0))
                            && !self.cached().contains(input_source(node, jj)->0)
                            implies has_link(links@, input_source(node, jj)->0, unique_id@) by {
                            if jj < j {
                                assert(links_recorded(res, include_lazy, links@, unique_id@, node, j as int, self.cached(), subgraph_items(subgraph_nodes)));
                            }
                        }
                    }
                }
                proof {
                    let node = dp.node(unique_id@);
                    assert(inputs_of(node)[j as int] == inputs@[j as int]);
                    assert(!bad_socket(node, j as int));
                    assert(views(node_ids@) =~= rest0 + pushed_sources(res, include_lazy, sub, old(self).cached(), dp.node(unique_id@), (j + 1) as int));
                }
                j += 1;
            }
            proof {
                let ids = self.pending().skip(old_pending.len() as int);
                assert(ids =~= p0.skip(old_pending.len() as int).push(unique_id@));
                assert(ids.last() == unique_id@);
                assert(ids.drop_last() =~= p0.skip(old_pending.len() as int));
                assert(inputs_of(dp.node(unique_id@)).len() == j);
                assert(link_views(links@) == nodes_links(*dp, res, include_lazy, sub, ids));
            }
            proof {
                assert(views(node_ids@) == rest0 + ch);
                assert(self.pending() + visit_order(*dp, res, include_lazy, sub, old(self).cached(), views(node_ids@), self.pending()) == tgt);
                assert(node_ok(dp.node(unique_id@)));
                assert forall|i: int| old_pending.len() <= i < self.pending().len() implies node_ok(dp.node(#[trigger] self.pending()[i])) by {
                    if i == p0.len() {
                        assert(self.pending()[i] == unique_id@);
                    }
                }
                if !self.pending().contains(root) {
                    assert(false);
                }
                assert(self.pending()[p0.len() as int] == unique_id@);
                {
                    assert forall|i: int| old_pending.len() <= i < self.pending().len() implies links_recorded(res, include_lazy, links@,
                        #[trigger] self.pending()[i], dp.node(self.pending()[i]), inputs_of(dp.node(self.pending()[i])).len() as int,
                        self.cached(), subgraph_items(subgraph_nodes)) by {
                        if i == p0.len() {
                            assert(self.pending()[i] == unique_id@);
                        }
                    }
                }
            }
        }
        proof {
            assert forall|l: int| 0 <= l < links@.len() implies
                (self.cached().contains(links@[l].0@) || self.pending().contains(links@[l].0@)) by {
                if in_stack(node_ids@, links@[l].0@) {
                    let t = choose|t: int| 0 <= t < node_ids@.len() && #[trigger] node_ids@[t]@ == links@[l].0@;
                    assert(false);
                }
            }
        }
        proof {
            assert(views(node_ids@) =~= Seq::<Seq<char>>::empty());
            assert(self.pending() + Seq::<Seq<char>>::empty() =~= self.pending());
        }
        let n = links.len();
        let mut k: usize = 0;
        let ghost bl_s = self.blocking();
        let ghost c_s = self.counts();
        proof {
            assert(self.pending().skip(old_pending.len() as int) =~= added);
            assert(link_views(links@).take(0) =~= Seq::<(Seq<char>, u32, Seq<char>)>::empty());
        }
        while k < n
            invariant
                (self.blocking(), self.counts()) == with_links(bl_s, c_s, old(self).cached(), link_views(links@).take(k as int)),
                bl_s == old(self).blocking() + fresh_entries(added),
                c_s == old_counts + fresh_counts(added),
                link_views(links@) == nodes_links(*dp, res, include_lazy, sub, added),
                sub == subgraph_items(subgraph_nodes),
                self.wf(),
                old(self).consistent() ==> self.consistent(),
                self.cached() == old(self).cached(),
                self.dynprompt == old(self).dynprompt,
                old_pending == old(self).pending(),
                !old(self).cached().contains(root),
                !old_pending.contains(root),
                self.resolver() == res,
                res == old(self).resolver(),
                old_counts == old(self).counts(),
                old_counts.len() == old_pending.len(),
                !keys_of(old_counts).contains(root) || old_pending.contains(root),
                keys_of(old_counts) == old_pending,
                old_pending.len() <= self.pending().len(),
                self.pending().subrange(0, old_pending.len() as int) == old_pending,
                forall|i: int| 0 <= i < old_counts.len() ==> #[trigger] self.counts()[i] == old_counts[i],
                self.pending().contains(root),
                forall|i: int| old_pending.len() <= i < self.pending().len()
                    ==> has_inputs_object(self.prompt().node(#[trigger] self.pending()[i])),
                forall|i: int| old_pending.len() <= i < self.pending().len()
                    ==> admitted(root, self.cached(), subgraph_items(subgraph_nodes), #[trigger] self.pending()[i]),
                root == node_unique_id@,
                self.pending() == tgt,
                tgt == old_pending + added,
                added == old(self).added_nodes(root, include_lazy, sub),
                forall|i: int| old_pending.len() <= i < self.pending().len() ==> node_ok(dp.node(#[trigger] self.pending()[i])),
                dp == self.dynprompt,
                forall|l: int| #![trigger links@[l]] 0 <= l < links@.len() ==> followed_from(res, include_lazy, subgraph_items(subgraph_nodes), self.prompt().node(links@[l].2@), links@[l].0@),
                forall|i: int| old_pending.len() <= i < self.pending().len() ==> links_recorded(res, include_lazy, links@,
                    #[trigger] self.pending()[i], self.prompt().node(self.pending()[i]),
                    inputs_of(self.prompt().node(self.pending()[i])).len() as int, self.cached(), subgraph_items(subgraph_nodes)),
                forall|l: int| #![trigger links@[l]] 0 <= l < k && !self.cached().contains(links@[l].0@)
                    ==> blocks(self.blocking(), links@[l].0@, links@[l].2@),
                forall|a: Seq<char>, b: Seq<char>| #[trigger] blocks(self.blocking(), a, b) ==> blocks(old(self).blocking(), a, b)
                    || (has_link(links@.take(k as int), a, b) && !self.cached().contains(a)),
                forall|a: Seq<char>, b: Seq<char>| #[trigger] blocks(old(self).blocking(), a, b) ==> blocks(self.blocking(), a, b),
                n == links@.len(),
                k <= n,
                forall|l: int| 0 <= l < links@.len() ==> {
                    &&& self.pending().contains(#[trigger] links@[l].2@)
                    &&& !old_pending.contains(links@[l].2@)
                    &&& (self.cached().contains(links@[l].0@) || self.pending().contains(links@[l].0@))
                },
            decreases n - k,
        {
            let link = &links[k];
            let ghost bl1 = self.blocking();
            proof {
                assert forall|a: Seq<char>, b: Seq<char>| #[trigger] has_link(links@.take(k as int), a, b)
                    implies has_link(links@.take(k + 1), a, b) by {
                    let m = choose|m: int| 0 <= m < links@.take(k as int).len() && (#[trigger] links@.take(k as int)[m]).0@ == a
                        && links@.take(k as int)[m].2@ == b;
                    assert(links@.take(k + 1)[m] == links@.take(k as int)[m]);
                }
                assert(links@.take(k + 1)[k as int] == links@[k as int]);
            }
            let ghost lv = link_views(links@);
            proof {
                assert(lv.take(k + 1).drop_last() =~= lv.take(k as int));
                assert(lv.take(k + 1).last() == (links@[k as int].0@, links@[k as int].1, links@[k as int].2@));
            }
            if !self.is_cached(link.0.as_str()) {
                let ghost c0 = self.counts();
                let ghost p0 = self.pending();
                self.add_blocking_edge(link.0.as_str(), link.1, link.2.as_str());
                proof {
                    self.lemma_counts_prefix_kept(c0, p0, old_counts, link.2@);
                    assert(has_link(links@.take(k + 1), link.0@, link.2@));
                }
            }
            k += 1;
        }
        proof {
            assert(links@.take(n as int) =~= links@);
            assert(link_views(links@).take(n as int) =~= link_views(links@));
            assert forall|a: Seq<char>, b: Seq<char>| #[trigger] blocks(self.blocking(), a, b) implies blocks(old(self).blocking(), a, b)
                || (!old(self).pending().contains(b) && self.pending().contains(b)
                    && followed_from(res, include_lazy, subgraph_items(subgraph_nodes), self.prompt().node(b), a) && !old(self).cached().contains(a)) by {
                if !blocks(old(self).blocking(), a, b) {
                    let l = choose|l: int| 0 <= l < links@.len() && (#[trigger] links@[l]).0@ == a && links@[l].2@ == b;
                    assert(self.pending().contains(links@[l].2@));
                }
            }
            {
                assert forall|i: int| old_pending.len() <= i < self.pending().len() implies deps_blocked(res, include_lazy, self.blocking(),
                    #[trigger] self.pending()[i], self.prompt().node(self.pending()[i]), old(self).cached(),
                    subgraph_items(subgraph_nodes)) by {
                    let x = self.pending()[i];
                    let node = self.prompt().node(x);
                    assert(links_recorded(res, include_lazy, links@, x, node, inputs_of(node).len() as int, self.cached(), subgraph_items(subgraph_nodes)));
                    assert forall|j: int| 0 <= j < inputs_of(node).len() && (#[trigger] input_source(node, j)) is Some
                        && in_subgraph(subgraph_items(subgraph_nodes), input_source(node, j)->0)
                        && (include_lazy || !res.lazy_input(class_of(node), inputs_of(node)[j].0))
                        && !old(self).cached().contains(input_source(node, j)->0)
                        implies blocks(self.blocking(), input_source(node, j)->0, x) by {
                        let y = input_source(node, j)->0;
                        assert(has_link(links@, y, x));
                        let l = choose|l: int| 0 <= l < links@.len() && (#[trigger] links@[l]).0@ == y && links@[l].2@ == x;
                    }
                }
            }
        }
        proof {
            assert forall|x: Seq<char>| #[trigger] added.contains(x) implies node_ok(dp.node(x)) by {
                let t = choose|t: int| 0 <= t < added.len() && added[t] == x;
                assert(self.pending()[old_pending.len() + t] == x);
            }
        }
        Ok(())
    }

    /// A strong link from `from` to `to` can be recorded: `from` is cached
    /// (nothing is recorded), `from` already blocks `to`, or `to` is
    /// pending or becomes pending when `from` is added, or adding `from`
    /// fails first.
    pub open spec fn link_target_ready(&self, from: Seq<char>, to: Seq<char>) -> bool {
        let added = self.added_nodes(from, false, None);
        ||| self.cached().contains(from)
        ||| self.pending().contains(to)
        ||| blocks(self.blocking(), from, to)
        ||| added.contains(to)
        ||| exists|x: Seq<char>| #[trigger] added.contains(x) && !node_ok(self.prompt().node(x))
    }

    /// What a strong link from `from` (socket `socket`) to `to` leaves,
    /// from the tracker `self` to the tracker `post`, with result `r`.
    pub open spec fn strong_link_result(
        self,
        post: Self,
        from: Seq<char>,
        socket: u32,
        to: Seq<char>,
        r: Result<(), GraphError>,
    ) -> bool {
        &&& post.wf()
        &&& self.consistent() ==> post.consistent()
        &&& post.cached() == self.cached()
        &&& post.prompt() == self.prompt()
        &&& self.cached().contains(from) ==> r is Ok && post.pending() == self.pending()
            && post.counts() == self.counts() && post.blocking() == self.blocking()
        &&& self.pending().len() <= post.pending().len()
        &&& post.pending().subrange(0, self.pending().len() as int) == self.pending()
        &&& forall|a: Seq<char>, b: Seq<char>| #[trigger] blocks(post.blocking(), a, b) ==> blocks(self.blocking(), a, b)
            || (a == from && b == to) || !self.pending().contains(b)
        &&& forall|a: Seq<char>, b: Seq<char>| #[trigger] blocks(self.blocking(), a, b) ==> blocks(post.blocking(), a, b)
        &&& post.resolver() == self.resolver()
        &&& (r is Ok) == (self.cached().contains(from) || forall|x: Seq<char>|
            #[trigger] self.added_nodes(from, false, None).contains(x) ==> node_ok(self.prompt().node(x)))
        &&& (r is Ok && !self.cached().contains(from)) ==> {
            &&& post.pending() == self.pending() + self.added_nodes(from, false, None)
            &&& forall|a: Seq<char>, b: Seq<char>| #[trigger] blocks(post.blocking(), a, b) == {
                ||| blocks(self.blocking(), a, b)
                ||| a == from && b == to
                ||| !self.pending().contains(b) && post.pending().contains(b)
                    && followed_from(self.resolver(), false, None, self.prompt().node(b), a) && !self.cached().contains(a)
            }
        }
        &&& (exists|s: Set<Seq<char>>| link_closed(self.prompt(), from, self.cached(), None, s)
            && all_have_inputs(self.prompt(), s)) ==> r is Ok
        &&& (r is Ok && !self.cached().contains(from)) ==> {
            &&& post.pending().contains(from)
            &&& post.pending().contains(to) || blocks(self.blocking(), from, to)
            &&& blocks(post.blocking(), from, to)
            &&& lookup(blocked_of(post.blocking(), from), to) matches Some(sk) && sk.contains((socket, true))
        }
        &&& r matches Err(e) ==> exists|i: int| self.pending().len() <= i < post.pending().len()
            && node_error(#[trigger] post.pending()[i], post.prompt().node(post.pending()[i]), e)
        &&& r matches Err(e) ==> exists|k: int| #[trigger] stopped_at(self.prompt(), self.pending(),
            self.added_nodes(from, false, None), post.pending(), k)
            && node_error(self.added_nodes(from, false, None)[k], self.prompt().node(self.added_nodes(from, false, None)[k]), e)
        &&& r is Err ==> forall|a: Seq<char>, b: Seq<char>| #[trigger] blocks(post.blocking(), a, b) == blocks(self.blocking(), a, b)
        &&& (r is Ok && !self.cached().contains(from)) ==> {
            let added = self.added_nodes(from, false, None);
            let mid = with_links(self.blocking() + fresh_entries(added), self.counts() + fresh_counts(added),
                self.cached(), nodes_links(self.prompt(), self.resolver(), false, None, added));
            &&& post.blocking() == with_edge(mid.0, from, socket, to)
            &&& post.counts() == counted_edge(mid.1, mid.0, from, to)
        }
        &&& r is Err ==> post.blocking() == self.blocking() + fresh_entries(post.pending().skip(self.pending().len() as int))
            && post.counts() == self.counts() + fresh_counts(post.pending().skip(self.pending().len() as int))
        &&& (self.consistent() && r is Ok && !self.cached().contains(from) && self.pending().contains(to)) ==> {
            &&& lookup(post.counts(), to) matches Some(c1)
            &&& lookup(self.counts(), to) matches Some(c0)
            &&& c1 == c0 + flag(!blocks(self.blocking(), from, to))
        }
    }

    /// After a link from `from` to a node `to` that was pending, the count
    /// of `to` grows by one unless `from` already blocked it.
    proof fn lemma_link_count(&self, post: Self, from: Seq<char>, to: Seq<char>)
        requires
            self.wf(),
            post.wf(),
            self.consistent(),
            post.consistent(),
            self.pending().contains(to),
            post.pending().contains(from),
            self.pending().len() <= post.pending().len(),
            post.pending().subrange(0, self.pending().len() as int) == self.pending(),
            forall|a: Seq<char>| #[trigger] blocks(post.blocking(), a, to) == (blocks(self.blocking(), a, to) || a == from),
        ensures
            lookup(post.counts(), to) matches Some(c1) && lookup(self.counts(), to) matches Some(c0)
                && c1 == c0 + flag(!blocks(self.blocking(), from, to)),
    {
        let b1 = self.blocking();
        let b2 = post.blocking();
        let n = self.pending().len() as int;
        lemma_keys_of_unique(b1);
        lemma_keys_of_unique(b2);
        assert forall|i: int| 0 <= i < b1.len() implies #[trigger] b2[i].0 == b1[i].0 by {
            assert(keys_of(b1)[i] == b1[i].0);
            assert(keys_of(b2)[i] == b2[i].0);
            assert(post.pending().subrange(0, n)[i] == post.pending()[i]);
        }
        assert forall|i: int| 0 <= i < b2.len() implies has_key(#[trigger] b2[i].1, to) == (blocks(b1, b2[i].0, to) || b2[i].0 == from) by {
            lemma_blocks_at(b2, i, to);
        }
        lemma_has_key_keys_of(b2, from);
        lemma_blocker_count_add(b1, b2, to, from);
        let c0s = self.counts();
        let c1s = post.counts();
        lemma_keys_of_unique(c0s);
        lemma_keys_of_unique(c1s);
        let i0 = choose|i: int| 0 <= i < n && self.pending()[i] == to;
        assert(post.pending()[i0] == to) by {
            assert(post.pending().subrange(0, n)[i0] == post.pending()[i0]);
        }
        assert(keys_of(c0s)[i0] == c0s[i0].0);
        assert(keys_of(c1s)[i0] == c1s[i0].0);
        lemma_key_pos(c0s, i0);
        lemma_key_pos(c1s, i0);
    }

    /// Makes `to_node_id` wait for socket `from_socket` of `from_node_id`,
    /// adding `from_node_id` (and its dependencies) first. Nothing happens
    /// when `from_node_id` is cached.
    pub fn add_strong_link(&mut self, from_node_id: &str, from_socket: u32, to_node_id: &str) -> (r: Result<(), GraphError>)
        requires
            old(self).wf(),
            old(self).link_target_ready(from_node_id@, to_node_id@),
        ensures
            old(self).strong_link_result(*final(self), from_node_id@, from_socket, to_node_id@, r),
    {
        if self.is_cached(from_node_id) {
            assert(self.pending().subrange(0, self.pending().len() as int) =~= self.pending());
            return Ok(());
        }
        let ghost p0 = self.pending();
        let ghost added = self.added_nodes(from_node_id@, false, None);
        self.add_node(from_node_id, false, None)?;
        proof {
            assert(subgraph_items(None) == None::<Seq<Seq<char>>>);
            if added.contains(to_node_id@) {
                let ti = choose|ti: int| 0 <= ti < added.len() && added[ti] == to_node_id@;
                assert(self.pending()[p0.len() + ti] == to_node_id@);
            }
            if p0.contains(to_node_id@) {
                let ti = choose|ti: int| 0 <= ti < p0.len() && p0[ti] == to_node_id@;
                assert(self.pending()[ti] == to_node_id@);
            }
        }
        let ghost bl0 = self.blocking();
        self.add_blocking_edge(from_node_id, from_socket, to_node_id);
        proof {
            lemma_keys_of_unique(bl0);
            let p = key_pos(bl0, from_node_id@);
            lemma_has_key_keys_of(bl0, from_node_id@);
            assert(bl0[p].0 == from_node_id@);
            let inner0 = blocked_of(bl0, from_node_id@);
            lemma_blocks_at(bl0, p, to_node_id@);
            let sk = match lookup(inner0, to_node_id@) {
                Some(sk) => sk,
                None => Seq::<(u32, bool)>::empty(),
            };
            let sk1 = keyed_insert(sk, from_socket, true);
            if has_key(sk, from_socket) {
                let q = key_pos(sk, from_socket);
                assert(sk1[q] == (from_socket, true));
            } else {
                assert(sk1[sk.len() as int] == (from_socket, true));
            }
            let inner1 = keyed_insert(inner0, to_node_id@, sk1);
            lemma_keyed_insert(inner0, to_node_id@, sk1);
            lemma_keyed_insert(bl0, from_node_id@, inner1);
            assert(lookup(inner1, to_node_id@) == Some(sk1));
            if old(self).consistent() && p0.contains(to_node_id@) {
                assert forall|a: Seq<char>| #[trigger] blocks(self.blocking(), a, to_node_id@)
                    == (blocks(old(self).blocking(), a, to_node_id@) || a == from_node_id@) by {
                    assert(blocks(bl0, a, to_node_id@) == blocks(old(self).blocking(), a, to_node_id@));
                    lemma_keyed_insert_has_key(inner0, to_node_id@, sk1, to_node_id@);
                }
                old(self).lemma_link_count(*self, from_node_id@, to_node_id@);
            }
        }
        Ok(())
    }

    /// Two runs of one strong link from one tracker end alike: with the same
    /// success or the same error, and with the same pending nodes, blocking
    /// entries (sockets included), counts, cached nodes, prompt and
    /// resolver. A link made through [`Self::make_input_strong_link`] and the
    /// same link made through [`Self::add_strong_link`] are two such runs.
    pub proof fn lemma_strong_link_outcome(
        &self,
        p1: Self,
        r1: Result<(), GraphError>,
        p2: Self,
        r2: Result<(), GraphError>,
        from: Seq<char>,
        socket: u32,
        to: Seq<char>,
    )
        requires
            self.wf(),
            self.strong_link_result(p1, from, socket, to, r1),
            self.strong_link_result(p2, from, socket, to, r2),
        ensures
            (r1 is Ok) == (r2 is Ok),
            r1 matches Err(e1) ==> (r2 matches Err(e2) && error_message(e1) == error_message(e2)
                && (e1 is NodeNotFound) == (e2 is NodeNotFound)),
            p1.pending() == p2.pending(),
            p1.blocking() == p2.blocking(),
            p1.counts() == p2.counts(),
            p1.cached() == p2.cached(),
            p1.prompt() == p2.prompt(),
            p1.resolver() == p2.resolver(),
    {
        let added = self.added_nodes(from, false, None);
        if let Err(e1) = r1 {
            let e2 = r2->Err_0;
            let k1 = choose|k: int| #[trigger] stopped_at(self.prompt(), self.pending(), added, p1.pending(), k)
                && node_error(added[k], self.prompt().node(added[k]), e1);
            let k2 = choose|k: int| #[trigger] stopped_at(self.prompt(), self.pending(), added, p2.pending(), k)
                && node_error(added[k], self.prompt().node(added[k]), e2);
            if k1 < k2 {
                assert(node_ok(self.prompt().node(added[k1])));
            }
            if k2 < k1 {
                assert(node_ok(self.prompt().node(added[k2])));
            }
            assert(k1 == k2);
            let x = added[k1];
            let n = self.prompt().node(x);
            match e1 {
                GraphError::NodeInput(m1) => {
                    let m2 = e2->NodeInput_0;
                    if has_inputs_object(n) {
                        let j1 = choose|j: int| 0 <= j < inputs_of(n).len() && #[trigger] bad_socket(n, j)
                            && (forall|jj: int| 0 <= jj < j ==> !bad_socket(n, jj))
                            && m1@ == non_integer_socket_message(x, inputs_of(n)[j].0);
                        let j2 = choose|j: int| 0 <= j < inputs_of(n).len() && #[trigger] bad_socket(n, j)
                            && (forall|jj: int| 0 <= jj < j ==> !bad_socket(n, jj))
                            && m2@ == non_integer_socket_message(x, inputs_of(n)[j].0);
                        if j1 < j2 {
                            assert(!bad_socket(n, j1));
                        }
                        if j2 < j1 {
                            assert(!bad_socket(n, j2));
                        }
                    }
                },
                _ => {},
            }
        }
    }

    /// The link that input `input` of node `to` holds, if it holds one.
    pub open spec fn input_link(&self, to: Seq<char>, input: Seq<char>) -> Option<(Seq<char>, u32)> {
        match self.prompt().node(to) {
            Some(n) => match field(n, "inputs"@) {
                Some(JsonView::Object(o)) => match lookup(o, input) {
                    Some(v) => link_of(v),
                    None => None,
                },
                _ => None,
            },
            None => None,
        }
    }

    /// Makes node `to_node_id` wait for the node its input `to_input`
    /// links to.
    pub fn make_input_strong_link(&mut self, to_node_id: &str, to_input: &str) -> (r: Result<(), GraphError>)
        requires
            old(self).wf(),
            old(self).input_link(to_node_id@, to_input@) matches Some(l) ==> old(self).link_target_ready(l.0, to_node_id@),
        ensures
            match old(self).prompt().node(to_node_id@) {
                None => r matches Err(GraphError::NodeNotFound(id)) && id@ == to_node_id@ && *final(self) == *old(self),
                Some(n) => match field(n, "inputs"@) {
                    Some(JsonView::Object(o)) => match lookup(o, to_input@) {
                        None => r matches Err(GraphError::NodeInput(m))
                            && m@ == missing_input_message(to_node_id@, to_input@) && *final(self) == *old(self),
                        Some(v) => match link_of(v) {
                            None => r matches Err(GraphError::NodeInput(m))
                                && m@ == constant_input_message(to_node_id@, to_input@) && *final(self) == *old(self),
                            Some(l) => old(self).strong_link_result(*final(self), l.0, l.1, to_node_id@, r),
                        },
                    },
                    _ => r matches Err(GraphError::NodeInput(m)) && m@ == no_inputs_message(to_node_id@)
                        && *final(self) == *old(self),
                },
            },
    {
        let inputs = match self.dynprompt.node_inputs(to_node_id) {
            Ok(o) => o,
            Err(e) => return Err(e),
        };
        let value = match inputs.get(to_input) {
            Some(v) => v,
            None => return Err(GraphError::NodeInput(missing_input_text(to_node_id, to_input))),
        };
        let link = match Link::parse(value) {
            Some(l) => l,
            None => return Err(GraphError::NodeInput(constant_input_text(to_node_id, to_input))),
        };
        self.add_strong_link(link.node_id.as_str(), link.socket, to_node_id)
    }

    /// Pops every ready node, round after round, and returns the nodes in
    /// the order popped: by the round in which they dissolve, and within a
    /// round in pending order, so each comes after every node that blocks
    /// it. Fails, with the nodes left pending, exactly when some pending
    /// node is on or behind a cycle.
    pub fn execution_order(&mut self) -> (r: Result<Vec<String>, GraphError>)
        requires
            old(self).wf(),
            old(self).consistent(),
        ensures
            final(self).wf(),
            final(self).consistent(),
            final(self).cached() == old(self).cached(),
            final(self).resolver() == old(self).resolver(),
            final(self).prompt() == old(self).prompt(),
            (r is Ok) == (cycle_nodes(old(self).pending(), old(self).blocking()).len() == 0),
            match r {
                Ok(order) => {
                    &&& final(self).pending().len() == 0
                    &&& views(order@).no_duplicates()
                    &&& forall|x: Seq<char>| #[trigger] views(order@).contains(x) == old(self).pending().contains(x)
                    &&& forall|i: int, j: int| 0 <= i < order@.len() && 0 <= j < order@.len()
                        && blocks(old(self).blocking(), #[trigger] views(order@)[i], #[trigger] views(order@)[j]) ==> i < j
                    &&& forall|i: int| 0 <= i < order@.len() ==> in_round(old(self).pending(), old(self).blocking(),
                        #[trigger] views(order@)[i], round_of(old(self).pending(), old(self).blocking(), views(order@)[i]))
                    &&& forall|i: int, j: int| 0 <= i < j < order@.len() ==> runs_before(old(self).pending(),
                        old(self).blocking(), #[trigger] views(order@)[i], #[trigger] views(order@)[j])
                },
                Err(e) => {
                    &&& e is DependencyCycle
                    &&& views(e->nodes_in_cycle@) == cycle_nodes(final(self).pending(), final(self).blocking())
                    &&& views(e->nodes_in_cycle@) == final(self).pending()
                    &&& final(self).pending().len() > 0
                    &&& ready_nodes(final(self).counts()).len() == 0
                    &&& forall|x: Seq<char>| #[trigger] final(self).pending().contains(x)
                        <==> cycle_nodes(old(self).pending(), old(self).blocking()).contains(x)
                },
            },
    {
        let ghost p_init = self.pending();
        let ghost bl_init = self.blocking();
        let ghost mut r: nat = 0;
        proof {
            lemma_keys_of_unique(bl_init);
            assert forall|i: int, j: int| 0 <= i < j < p_init.len() implies
                p_init.index_of(#[trigger] p_init[i]) < p_init.index_of(#[trigger] p_init[j]) by {
                assert(p_init.contains(p_init[i]));
                assert(p_init.contains(p_init[j]));
            }
        }
        let mut order: Vec<String> = Vec::new();
        while !self.is_empty()
            invariant
                self.resolver() == old(self).resolver(),
                all_strong(bl_init),
                p_init.no_duplicates(),
                ordered_as(self.pending(), p_init),
                forall|x: Seq<char>| #[trigger] views(order@).contains(x) ==> dissolves(p_init, bl_init, x, r),
                forall|x: Seq<char>| #[trigger] self.pending().contains(x) ==> !dissolves(p_init, bl_init, x, r),
                forall|i: int| 0 <= i < order@.len() ==> in_round(p_init, bl_init, #[trigger] views(order@)[i],
                    round_of(p_init, bl_init, views(order@)[i])),
                forall|i: int, j: int| 0 <= i < j < order@.len() ==> runs_before(p_init, bl_init,
                    #[trigger] views(order@)[i], #[trigger] views(order@)[j]),
                self.wf(),
                self.consistent(),
                self.cached() == old(self).cached(),
                self.dynprompt == old(self).dynprompt,
                p_init == old(self).pending(),
                bl_init == old(self).blocking(),
                keys_of(bl_init) == p_init,
                keys_unique(bl_init),
                views(order@).no_duplicates(),
                forall|x: Seq<char>| #[trigger] views(order@).contains(x) ==> !self.pending().contains(x),
                forall|x: Seq<char>| #![trigger views(order@).contains(x)] #![trigger self.pending().contains(x)] #![trigger p_init.contains(x)] p_init.contains(x) == (views(order@).contains(x) || self.pending().contains(x)),
                forall|a: Seq<char>| #[trigger] self.pending().contains(a) ==> blocked_of(self.blocking(), a) == blocked_of(bl_init, a),
                forall|i: int, j: int| 0 <= i < order@.len() && 0 <= j < order@.len()
                    && blocks(bl_init, #[trigger] views(order@)[i], #[trigger] views(order@)[j]) ==> i < j,
                forall|j: int, a: Seq<char>| 0 <= j < order@.len() && blocks(bl_init, a, #[trigger] views(order@)[j])
                    ==> #[trigger] views(order@).contains(a),
            decreases self.pending().len(),
        {
            let ready = self.get_ready_nodes();
            let ghost counts0 = self.counts();
            let ghost pending0 = self.pending();
            proof {
                lemma_ready_nodes(counts0);
            }
            if ready.len() == 0 {
                proof {
                    assert(views(ready@).len() == 0);
                    assert forall|x: Seq<char>| #[trigger] self.pending().contains(x) implies p_init.contains(x) by {
                        assert(p_init.contains(x) == (views(order@).contains(x) || self.pending().contains(x)));
                    }
                }
                proof {
                    self.lemma_stuck();
                    lemma_all_blocked_all_in_cycle(self.pending(), self.blocking());
                    lemma_stuck_in_cycle(p_init, bl_init, self.pending(), self.blocking());
                    lemma_filter_keep(p_init, |n: Seq<char>| in_cycle(p_init, bl_init, n));
                    assert forall|x: Seq<char>| #[trigger] cycle_nodes(p_init, bl_init).contains(x)
                        implies self.pending().contains(x) by {
                        assert(p_init.contains(x) && in_cycle(p_init, bl_init, x));
                        if views(order@).contains(x) {
                            assert(dissolves(p_init, bl_init, x, r));
                        }
                    }
                    assert(self.pending().contains(self.pending()[0]));
                    assert(cycle_nodes(p_init, bl_init).contains(self.pending()[0]));
                }
                let nodes_in_cycle = self.get_nodes_in_cycle();
                return Err(GraphError::DependencyCycle { nodes_in_cycle });
            }
            proof {
                lemma_keys_of_unique(counts0);
                assert forall|t: int| 0 <= t < ready@.len() implies #[trigger] self.pending().contains(views(ready@)[t])
                    && blocker_count(self.blocking(), views(ready@)[t]) == 0 by {
                    let x = views(ready@)[t];
                    assert(ready_nodes(counts0).contains(x));
                    let i = choose|i: int| 0 <= i < counts0.len() && counts0[i] == (x, 0usize);
                    assert(keys_of(counts0)[i] == x);
                    assert(counts0[i].1 == blocker_count(self.blocking(), counts0[i].0));
                }
            }
            let ghost o_start = views(order@);
            let ghost bl_start = self.blocking();
            proof {
                // the ready nodes dissolve in this round
                assert forall|t: int| 0 <= t < ready@.len() implies
                    in_round(p_init, bl_init, #[trigger] views(ready@)[t], r) by {
                    let x = views(ready@)[t];
                    lemma_keys_of_unique(bl_start);
                    assert(self.pending().contains(views(ready@)[t]));
                    assert(blocker_count(bl_start, x) == 0);
                    assert forall|b: Seq<char>| p_init.contains(b) && #[trigger] strongly_blocks(bl_init, b, x)
                        implies dissolves(p_init, bl_init, b, r) by {
                        if self.pending().contains(b) {
                            assert(blocked_of(bl_start, b) == blocked_of(bl_init, b));
                            lemma_has_key_keys_of(bl_start, b);
                            let ib = key_pos(bl_start, b);
                            assert(bl_start[ib].0 == b);
                            lemma_blocks_at(bl_start, ib, x);
                            lemma_blocker_count_remove(bl_start, ib, x);
                        } else {
                            assert(views(order@).contains(b));
                        }
                    }
                    assert(dissolves(p_init, bl_init, x, r + 1));
                }
                // the other pending nodes do not
                lemma_ready_nodes_complete(counts0, p_init);
                assert forall|x: Seq<char>| #[trigger] self.pending().contains(x) && !views(ready@).contains(x)
                    implies !dissolves(p_init, bl_init, x, r + 1) by {
                    lemma_has_key_keys_of(counts0, x);
                    let ix = key_pos(counts0, x);
                    assert(counts0[ix].0 == x);
                    assert(counts0[ix].1 == blocker_count(bl_start, counts0[ix].0));
                    if counts0[ix].1 == 0 {
                        assert(ready_nodes(counts0).contains(counts0[ix].0));
                    }
                    self.lemma_has_blocker(x);
                    let b = choose|b: Seq<char>| self.pending().contains(b) && #[trigger] strongly_blocks(bl_start, b, x);
                    assert(blocked_of(bl_start, b) == blocked_of(bl_init, b));
                    assert(strongly_blocks(bl_init, b, x));
                    assert(p_init.contains(b));
                    assert(!dissolves(p_init, bl_init, b, r));
                }
                assert(keys_of(counts0) == self.pending());
                assert(ordered_as(views(ready@), p_init));
            }
            let n = ready.len();
            let mut k: usize = 0;
            while k < n
                invariant
                    self.resolver() == old(self).resolver(),
                    all_strong(bl_init),
                    p_init.no_duplicates(),
                    ordered_as(self.pending(), p_init),
                    ordered_as(views(ready@), p_init),
                    views(order@) == o_start + views(ready@).take(k as int),
                    forall|x: Seq<char>| #[trigger] o_start.contains(x) ==> dissolves(p_init, bl_init, x, r),
                    forall|t: int| 0 <= t < n ==> in_round(p_init, bl_init, #[trigger] views(ready@)[t], r),
                    forall|x: Seq<char>| #[trigger] self.pending().contains(x) && !views(ready@).contains(x)
                        ==> !dissolves(p_init, bl_init, x, r + 1),
                    forall|x: Seq<char>| #[trigger] self.pending().contains(x) ==> !dissolves(p_init, bl_init, x, r),
                    forall|i: int| 0 <= i < order@.len() ==> in_round(p_init, bl_init, #[trigger] views(order@)[i],
                        round_of(p_init, bl_init, views(order@)[i])),
                    forall|i: int, j: int| 0 <= i < j < order@.len() ==> runs_before(p_init, bl_init,
                        #[trigger] views(order@)[i], #[trigger] views(order@)[j]),
                    self.wf(),
                    self.consistent(),
                    self.cached() == old(self).cached(),
                    self.dynprompt == old(self).dynprompt,
                    p_init == old(self).pending(),
                    bl_init == old(self).blocking(),
                    keys_of(bl_init) == p_init,
                    keys_unique(bl_init),
                    n == ready@.len(),
                    n > 0,
                    k <= n,
                    views(ready@) == ready_nodes(counts0),
                    views(ready@).no_duplicates(),
                    self.pending().len() + k == pending0.len(),
                    forall|t: int| k <= t < n ==> #[trigger] self.pending().contains(views(ready@)[t])
                        && blocker_count(self.blocking(), views(ready@)[t]) == 0,
                    forall|t: int| 0 <= t < k ==> !#[trigger] self.pending().contains(views(ready@)[t]),
                    views(order@).no_duplicates(),
                    forall|x: Seq<char>| #[trigger] views(order@).contains(x) ==> !self.pending().contains(x),
                    forall|x: Seq<char>| #![trigger views(order@).contains(x)] #![trigger self.pending().contains(x)] #![trigger p_init.contains(x)] p_init.contains(x) == (views(order@).contains(x) || self.pending().contains(x)),
                    forall|a: Seq<char>| #[trigger] self.pending().contains(a) ==> blocked_of(self.blocking(), a) == blocked_of(bl_init, a),
                    forall|i: int, j: int| 0 <= i < order@.len() && 0 <= j < order@.len()
                        && blocks(bl_init, #[trigger] views(order@)[i], #[trigger] views(order@)[j]) ==> i < j,
                    forall|j: int, a: Seq<char>| 0 <= j < order@.len() && blocks(bl_init, a, #[trigger] views(order@)[j])
                        ==> #[trigger] views(order@).contains(a),
                decreases n - k,
            {
                let node_id = &ready[k];
                let ghost x = node_id@;
                let ghost o0 = views(order@);
                let ghost bl0 = self.blocking();
                let ghost c0 = self.counts();
                let ghost p0 = self.pending();
                proof {
                    assert(views(ready@)[k as int] == x);
                    lemma_keys_of_unique(bl0);
                    lemma_keys_of_unique(c0);
                    // no pending node blocks x, so every node that blocks x is already ordered
                    assert forall|a: Seq<char>| blocks(bl_init, a, x) implies o0.contains(a) by {
                        lemma_has_key_keys_of(bl_init, a);
                        if p0.contains(a) {
                            lemma_has_key_keys_of(bl0, a);
                            let ia = key_pos(bl0, a);
                            assert(bl0[ia].0 == a);
                            lemma_blocks_at(bl0, ia, x);
                            lemma_blocker_count_remove(bl0, ia, x);
                        }
                    }
                    // x is pending, with count zero
                    lemma_has_key_keys_of(c0, x);
                    let ix = key_pos(c0, x);
                    assert(c0[ix].0 == x);
                    lemma_key_pos(c0, ix);
                    assert(c0[ix].1 == blocker_count(bl0, x));
                    // popping x counts nothing below zero
                    assert forall|i: int| 0 <= i < c0.len() && has_key(blocked_of(bl0, x), #[trigger] c0[i].0)
                        implies c0[i].1 >= 1 by {
                        let xi = key_pos(bl0, x);
                        lemma_has_key_keys_of(bl0, x);
                        assert(bl0[xi].0 == x);
                        lemma_blocks_at(bl0, xi, c0[i].0);
                        lemma_blocker_count_remove(bl0, xi, c0[i].0);
                    }
                }
                order.push(node_id.clone());
                self.pop_node(node_id.as_str());
                proof {
                    let o1 = views(order@);
                    assert(o1 == o0.push(x));
                    lemma_seq_without(p0, x);
                    let bl1 = self.blocking();
                    lemma_keys_of_remove(bl0, x);
                    lemma_has_key_keys_of(bl0, x);
                    let xi = key_pos(bl0, x);
                    assert(bl0[xi].0 == x);
                    assert(bl1 == bl0.remove(xi));
                    assert forall|t: int| k + 1 <= t < n implies #[trigger] self.pending().contains(views(ready@)[t])
                        && blocker_count(self.blocking(), views(ready@)[t]) == 0 by {
                        let y = views(ready@)[t];
                        assert(y != x);
                        assert(p0.contains(y));
                        assert(seq_without(p0, x).contains(y));
                        lemma_blocker_count_remove(bl0, xi, y);
                    }
                    assert forall|t: int| 0 <= t < k + 1 implies !#[trigger] self.pending().contains(views(ready@)[t]) by {
                        if t < k {
                            assert(!p0.contains(views(ready@)[t]));
                        }
                    }
                    assert forall|a: Seq<char>| #[trigger] self.pending().contains(a)
                        implies blocked_of(self.blocking(), a) == blocked_of(bl_init, a) by {
                        assert(a != x);
                        lemma_keys_of_unique(bl0);
                        lemma_keyed_remove(bl0, x);
                    }
                    assert(o1.no_duplicates()) by {
                        assert forall|a: int, b: int| 0 <= a < o1.len() && 0 <= b < o1.len() && a != b implies o1[a] != o1[b] by {
                            if a == o0.len() {
                                assert(o0.contains(o1[b]));
                            } else if b == o0.len() {
                                assert(o0.contains(o1[a]));
                            }
                        }
                    }
                    assert forall|y: Seq<char>| #[trigger] o1.contains(y) == (o0.contains(y) || y == x) by {
                        if o1.contains(y) {
                            let t = choose|t: int| 0 <= t < o1.len() && o1[t] == y;
                            if t < o0.len() {
                                assert(o0[t] == y);
                            }
                        }
                        if o0.contains(y) {
                            let t = choose|t: int| 0 <= t < o0.len() && o0[t] == y;
                            assert(o1[t] == y);
                        }
                        assert(o1[o0.len() as int] == x);
                    }
                    assert forall|i: int, j: int| 0 <= i < o1.len() && 0 <= j < o1.len()
                        && blocks(bl_init, #[trigger] o1[i], #[trigger] o1[j]) implies i < j by {
                        if j == o0.len() && i != j {
                        } else if i == o0.len() && j < o0.len() {
                            assert(o0.contains(x));
                        } else if i == j {
                            if j == o0.len() {
                                assert(o0.contains(x));
                            } else {
                                assert(o0[i] == o1[i]);
                            }
                        } else {
                            assert(o0[i] == o1[i]);
                            assert(o0[j] == o1[j]);
                        }
                    }
                    assert forall|j: int, a: Seq<char>| 0 <= j < o1.len() && blocks(bl_init, a, #[trigger] o1[j])
                        implies #[trigger] o1.contains(a) by {
                        if j < o0.len() {
                            assert(o0[j] == o1[j]);
                        }
                    }
                    assert forall|y: Seq<char>| #![trigger views(order@).contains(y)] p_init.contains(y) == (views(order@).contains(y) || self.pending().contains(y)) by {
                        assert(seq_without(p0, x).contains(y) == (p0.contains(y) && y != x));
                        assert(o1.contains(y) == (o0.contains(y) || y == x));
                    }
                    // the order so far is the earlier rounds, then this round's first ready nodes
                    assert(o1 =~= o_start + views(ready@).take(k + 1));
                    lemma_ordered_as_without(p0, x, p_init);
                    lemma_round_of(p_init, bl_init, x, r);
                    assert forall|i: int| 0 <= i < o1.len() implies in_round(p_init, bl_init, #[trigger] o1[i],
                        round_of(p_init, bl_init, o1[i])) by {
                        if i < o0.len() {
                            assert(o1[i] == o0[i]);
                        }
                    }
                    assert forall|i: int, j: int| 0 <= i < j < o1.len() implies runs_before(p_init, bl_init,
                        #[trigger] o1[i], #[trigger] o1[j]) by {
                        if j == o0.len() {
                            let y = o1[i];
                            assert(o1[i] == o0[i]);
                            if i < o_start.len() {
                                assert(o_start[i] == y);
                                assert(o_start.contains(y));
                                assert(in_round(p_init, bl_init, o0[i], round_of(p_init, bl_init, o0[i])));
                                lemma_round_before(p_init, bl_init, y, r, round_of(p_init, bl_init, y));
                            } else {
                                let t = i - o_start.len();
                                assert(y == views(ready@)[t]);
                                lemma_round_of(p_init, bl_init, y, r);
                                assert(p_init.index_of(views(ready@)[t]) < p_init.index_of(views(ready@)[k as int]));
                            }
                        } else {
                            assert(o1[i] == o0[i]);
                            assert(o1[j] == o0[j]);
                        }
                    }
                    assert forall|y: Seq<char>| #[trigger] self.pending().contains(y) && !views(ready@).contains(y)
                        implies !dissolves(p_init, bl_init, y, r + 1) by {
                        assert(p0.contains(y));
                    }
                    assert forall|y: Seq<char>| #[trigger] self.pending().contains(y) implies !dissolves(p_init, bl_init, y, r) by {
                        assert(p0.contains(y));
                    }
                }
                k += 1;
            }
            proof {
                assert(views(ready@).take(n as int) =~= views(ready@));
                lemma_dissolves_mono(p_init, bl_init, r);
                assert forall|x: Seq<char>| #[trigger] views(order@).contains(x) implies dissolves(p_init, bl_init, x, r + 1) by {
                    let i = choose|i: int| 0 <= i < views(order@).len() && views(order@)[i] == x;
                    if i < o_start.len() {
                        assert(o_start[i] == x);
                        assert(o_start.contains(x));
                    } else {
                        assert(views(ready@)[i - o_start.len()] == x);
                    }
                }
                assert forall|x: Seq<char>| #[trigger] self.pending().contains(x) implies !dissolves(p_init, bl_init, x, r + 1) by {
                    if views(ready@).contains(x) {
                        let t = choose|t: int| 0 <= t < views(ready@).len() && views(ready@)[t] == x;
                        assert(!self.pending().contains(views(ready@)[t]));
                    }
                }
                r = r + 1;
            }
        }
        proof {
            assert forall|x: Seq<char>| #[trigger] views(order@).contains(x) == p_init.contains(x) by {
            }
            lemma_ordered_no_cycle(p_init, bl_init, views(order@));
        }
        Ok(order)
    }

    /// For each pending node, in order, the pending nodes that strongly
    /// block it.
    fn blocked_by(&self) -> (r: IndexMap<String, IndexSet<String>>)
        requires
            self.wf(),
        ensures
            keys_of(blocker_entries(r)) == self.pending(),
            forall|i: int| 0 <= i < blocker_entries(r).len() ==> (#[trigger] blocker_entries(r)[i]).1.no_duplicates(),
            forall|i: int, x: Seq<char>| 0 <= i < blocker_entries(r).len() ==>
                (#[trigger] blocker_entries(r)[i].1.contains(x)) == (self.pending().contains(x)
                    && strongly_blocks(self.blocking(), x, blocker_entries(r)[i].0)),
    {
        let ghost p = self.pending();
        let ghost bl = self.blocking();
        let mut bb = blocker_map_new();
        let np = string_set_len(&self.pending_nodes);
        let mut i: usize = 0;
        while i < np
            invariant
                self.wf(),
                p == self.pending(),
                np == p.len(),
                i <= np,
                keys_of(blocker_entries(bb)) == p.take(i as int),
                forall|t: int| 0 <= t < blocker_entries(bb).len() ==> (#[trigger] blocker_entries(bb)[t]).1 == Seq::<Seq<char>>::empty(),
            decreases np - i,
        {
            let id = string_set_get_index(&self.pending_nodes, i).unwrap();
            let ghost e0 = blocker_entries(bb);
            proof {
                lemma_has_key_keys_of(e0, id@);
                if p.take(i as int).contains(id@) {
                    let t = choose|t: int| 0 <= t < p.take(i as int).len() && p.take(i as int)[t] == id@;
                    assert(p[t] == p[i as int]);
                }
            }
            blocker_map_insert(&mut bb, id.clone(), string_set_new());
            proof {
                assert(blocker_entries(bb) == e0.push((id@, Seq::<Seq<char>>::empty())));
                let e1 = blocker_entries(bb);
                assert(keys_of(e0).len() == e0.len());
                assert(keys_of(e1).len() == i + 1);
                assert forall|t: int| 0 <= t < i + 1 implies #[trigger] keys_of(e1)[t] == p.take(i + 1)[t] by {
                    if t < i {
                        assert(keys_of(e0)[t] == e0[t].0);
                        assert(e1[t] == e0[t]);
                    }
                }
                assert(keys_of(e1) =~= p.take(i + 1));
            }
            i += 1;
        }
        assert(p.take(np as int) =~= p);
        proof {
            lemma_keys_of_unique(bl);
        }
        let nb = blocking_map_len(&self.blocking);
        let mut i: usize = 0;
        while i < nb
            invariant
                self.wf(),
                p == self.pending(),
                bl == self.blocking(),
                keys_unique(bl),
                nb == bl.len(),
                i <= nb,
                keys_of(blocker_entries(bb)) == p,
                forall|t: int| 0 <= t < blocker_entries(bb).len() ==> (#[trigger] blocker_entries(bb)[t]).1.no_duplicates(),
                forall|t: int, x: Seq<char>| 0 <= t < blocker_entries(bb).len() ==>
                    (#[trigger] blocker_entries(bb)[t].1.contains(x)) == prefix_blocks(bl, i as int, x, blocker_entries(bb)[t].0),
            decreases nb - i,
        {
            let (from, blocked) = blocking_map_get_index(&self.blocking, i).unwrap();
            let ghost inner = bl[i as int].1;
            let nbl = blocked_map_len(blocked);
            let mut j: usize = 0;
            while j < nbl
                invariant
                    p == self.pending(),
                    bl == self.blocking(),
                    i < nb,
                    nb == bl.len(),
                    inner == bl[i as int].1,
                    inner == blocked_entries(*blocked),
                    from@ == bl[i as int].0,
                    nbl == inner.len(),
                    j <= nbl,
                    keys_of(blocker_entries(bb)) == p,
                    p.no_duplicates(),
                    forall|t: int| 0 <= t < blocker_entries(bb).len() ==> (#[trigger] blocker_entries(bb)[t]).1.no_duplicates(),
                    forall|t: int, x: Seq<char>| 0 <= t < blocker_entries(bb).len() ==>
                        (#[trigger] blocker_entries(bb)[t].1.contains(x)) == (prefix_blocks(bl, i as int, x, blocker_entries(bb)[t].0)
                            || (x == from@ && entry_strong(inner.take(j as int), blocker_entries(bb)[t].0))),
                decreases nbl - j,
            {
                let (to, sockets) = blocked_map_get_index(blocked, j).unwrap();
                let ghost e0 = blocker_entries(bb);
                proof {
                    lemma_keys_of_unique(e0);
                    assert forall|k: Seq<char>| #[trigger] entry_strong(inner.take(j + 1), k)
                        == (entry_strong(inner.take(j as int), k) || (inner[j as int].0 == k && any_strong(inner[j as int].1))) by {
                        lemma_entry_strong_step(inner, j as int, k);
                    }
                }
                if any_strong_exec(sockets) && blocker_map_contains_key(&bb, to.as_str()) {
                    let mut set = blocker_map_insert(&mut bb, to.clone(), string_set_new()).unwrap();
                    let ghost s0 = string_set_items(set);
                    string_set_insert(&mut set, from.clone());
                    blocker_map_insert(&mut bb, to.clone(), set);
                    proof {
                        let q = key_pos(e0, to@);
                        assert(e0[q].0 == to@);
                        lemma_key_pos(e0, q);
                        assert(s0 == e0[q].1);
                        lemma_keyed_insert_twice(e0, to@, Seq::<Seq<char>>::empty(), seq_with(s0, from@));
                        assert(blocker_entries(bb) == e0.update(q, (to@, seq_with(s0, from@))));
                        assert(keys_of(blocker_entries(bb)) =~= keys_of(e0));
                        assert forall|t: int| 0 <= t < blocker_entries(bb).len() implies (#[trigger] blocker_entries(bb)[t]).1.no_duplicates() by {
                            if t == q {
                                assert(e0[q].1.no_duplicates());
                                if !s0.contains(from@) {
                                    let s1 = s0.push(from@);
                                    assert forall|a: int, b: int| 0 <= a < s1.len() && 0 <= b < s1.len() && a != b implies s1[a] != s1[b] by {
                                        if a == s0.len() {
                                            assert(s0.contains(s1[b]));
                                        } else if b == s0.len() {
                                            assert(s0.contains(s1[a]));
                                        }
                                    }
                                }
                            }
                        }
                        assert forall|t: int, x: Seq<char>| 0 <= t < blocker_entries(bb).len() implies
                            (#[trigger] blocker_entries(bb)[t].1.contains(x)) == (prefix_blocks(bl, i as int, x, blocker_entries(bb)[t].0)
                                || (x == from@ && entry_strong(inner.take(j + 1), blocker_entries(bb)[t].0))) by {
                            assert(e0[t].1.contains(x) == (prefix_blocks(bl, i as int, x, e0[t].0)
                                || (x == from@ && entry_strong(inner.take(j as int), e0[t].0))));
                            if t == q {
                                let s1 = seq_with(s0, from@);
                                if !s0.contains(from@) {
                                    assert(s1 == s0.push(from@));
                                    assert(s1[s0.len() as int] == from@);
                                    if s1.contains(x) && x != from@ {
                                        let w = choose|w: int| 0 <= w < s1.len() && s1[w] == x;
                                        assert(s0[w] == x);
                                    }
                                    if s0.contains(x) {
                                        let w = choose|w: int| 0 <= w < s0.len() && s0[w] == x;
                                        assert(s1[w] == x);
                                    }
                                }
                                assert(inner[j as int].0 == to@);
                                assert(any_strong(inner[j as int].1)) by {
                                    assert(socket_entries(*sockets) == inner[j as int].1);
                                }
                            } else {
                                assert(blocker_entries(bb)[t] == e0[t]);
                            }
                        }
                    }
                } else {
                    proof {
                        assert forall|t: int, x: Seq<char>| 0 <= t < blocker_entries(bb).len() implies
                            (#[trigger] blocker_entries(bb)[t].1.contains(x)) == (prefix_blocks(bl, i as int, x, blocker_entries(bb)[t].0)
                                || (x == from@ && entry_strong(inner.take(j + 1), blocker_entries(bb)[t].0))) by {
                            assert(e0[t].1.contains(x) == (prefix_blocks(bl, i as int, x, e0[t].0)
                                || (x == from@ && entry_strong(inner.take(j as int), e0[t].0))));
                            if inner[j as int].0 == e0[t].0 && any_strong(inner[j as int].1) {
                                assert(socket_entries(*sockets) == inner[j as int].1);
                                assert(has_key(e0, to@)) by {
                                    assert(e0[t].0 == to@);
                                }
                            }
                        }
                    }
                }
                j += 1;
            }
            proof {
                assert(inner.take(nbl as int) =~= inner);
                assert forall|t: int, x: Seq<char>| 0 <= t < blocker_entries(bb).len() implies
                    (#[trigger] blocker_entries(bb)[t].1.contains(x)) == prefix_blocks(bl, i + 1, x, blocker_entries(bb)[t].0) by {
                    let k = blocker_entries(bb)[t].0;
                    if prefix_blocks(bl, i + 1, x, k) {
                        let a = choose|a: int| 0 <= a < i + 1 && #[trigger] bl[a].0 == x && entry_strong(bl[a].1, k);
                        if a < i {
                            assert(prefix_blocks(bl, i as int, x, k));
                        }
                    }
                    if prefix_blocks(bl, i as int, x, k) {
                        let a = choose|a: int| 0 <= a < i && #[trigger] bl[a].0 == x && entry_strong(bl[a].1, k);
                        assert(bl[a].0 == x && entry_strong(bl[a].1, k));
                    }
                    if x == from@ && entry_strong(inner, k) {
                        assert(bl[i as int].0 == x && entry_strong(bl[i as int].1, k));
                    }
                }
            }
            i += 1;
        }
        proof {
            let e = blocker_entries(bb);
            assert forall|t: int, x: Seq<char>| 0 <= t < e.len() implies
                (#[trigger] e[t].1.contains(x)) == (p.contains(x) && strongly_blocks(bl, x, e[t].0)) by {
                let k = e[t].0;
                if prefix_blocks(bl, nb as int, x, k) {
                    let a = choose|a: int| 0 <= a < nb && #[trigger] bl[a].0 == x && entry_strong(bl[a].1, k);
                    assert(keys_of(bl)[a] == x);
                    lemma_blocks_at(bl, a, k);
                    lemma_entry_strong(bl[a].1, k);
                }
                if p.contains(x) && strongly_blocks(bl, x, k) {
                    let a = choose|a: int| 0 <= a < p.len() && p[a] == x;
                    assert(keys_of(bl)[a] == x);
                    assert(bl[a].0 == x);
                    lemma_blocks_at(bl, a, k);
                    lemma_entry_strong(bl[a].1, k);
                    assert(prefix_blocks(bl, nb as int, x, k));
                }
            }
        }
        bb
    }

    /// The pending nodes that can never run: those on a cycle of strong
    /// links and those waiting on one, in pending order. Nodes that no
    /// remaining node strongly blocks are removed round by round until
    /// none is left to remove.
    pub fn get_nodes_in_cycle(&self) -> (r: Vec<String>)
        requires
            self.wf(),
        ensures
            views(r@) == cycle_nodes(self.pending(), self.blocking()),
    {
        let ghost p = self.pending();
        let ghost bl = self.blocking();
        let mut bb = self.blocked_by();
        proof {
            lemma_removal_start(p, bl, blocker_entries(bb));
            lemma_removal_keys_unique(p, bl, blocker_entries(bb), 0, Seq::empty());
        }
        let mut to_remove = empty_blocker_keys(&bb);
        let ghost mut r: nat = 0;
        proof {
            assert forall|k: Seq<char>| #[trigger] views(to_remove@).contains(k) == (p.contains(k)
                && !dissolves(p, bl, k, r) && dissolves(p, bl, k, r + 1)) by {
                lemma_removal_ready(p, bl, blocker_entries(bb), r, k);
            }
        }
        while to_remove.len() > 0
            invariant
                p.no_duplicates(),
                removal_state(p, bl, blocker_entries(bb), r, Seq::empty()),
                views(to_remove@).no_duplicates(),
                forall|k: Seq<char>| #[trigger] views(to_remove@).contains(k) == (p.contains(k)
                    && !dissolves(p, bl, k, r) && dissolves(p, bl, k, r + 1)),
            decreases blocker_entries(bb).len(),
        {
            let ghost len0 = blocker_entries(bb).len();
            let n = to_remove.len();
            let mut j: usize = 0;
            assert(views(to_remove@).take(0) =~= Seq::<Seq<char>>::empty());
            while j < n
                invariant
                    p.no_duplicates(),
                    n == to_remove@.len(),
                    j <= n,
                    views(to_remove@).no_duplicates(),
                    forall|k: Seq<char>| #[trigger] views(to_remove@).contains(k) == (p.contains(k)
                        && !dissolves(p, bl, k, r) && dissolves(p, bl, k, r + 1)),
                    removal_state(p, bl, blocker_entries(bb), r, views(to_remove@).take(j as int)),
                    blocker_entries(bb).len() <= len0,
                    j > 0 ==> blocker_entries(bb).len() < len0,
                    j == 0 ==> blocker_entries(bb).len() == len0,
                decreases n - j,
            {
                let node_id = &to_remove[j];
                let ghost gone = views(to_remove@).take(j as int);
                let ghost e = blocker_entries(bb);
                proof {
                    lemma_removal_keys_unique(p, bl, e, r, gone);
                    assert(views(to_remove@)[j as int] == node_id@);
                    if j == 0 {
                        assert(views(to_remove@).contains(node_id@));
                        let f = |m: Seq<char>| !dissolves(p, bl, m, r) && !gone.contains(m);
                        lemma_filter_keep(p, f);
                        assert(keys_of(e).contains(node_id@));
                        lemma_has_key_keys_of(e, node_id@);
                    }
                }
                remove_from_all(&mut bb, node_id.as_str());
                let ghost e1 = blocker_entries(bb);
                blocker_map_shift_remove(&mut bb, node_id.as_str());
                proof {
                    lemma_removal_step(p, bl, r, gone, node_id@, e, e1);
                    assert(views(to_remove@).take(j + 1) =~= gone.push(node_id@));
                }
                j += 1;
            }
            proof {
                assert(views(to_remove@).take(n as int) =~= views(to_remove@));
                lemma_removal_round(p, bl, blocker_entries(bb), r, views(to_remove@));
                r = r + 1;
                lemma_removal_keys_unique(p, bl, blocker_entries(bb), r, Seq::empty());
            }
            to_remove = empty_blocker_keys(&bb);
            proof {
                assert forall|k: Seq<char>| #[trigger] views(to_remove@).contains(k) == (p.contains(k)
                    && !dissolves(p, bl, k, r) && dissolves(p, bl, k, r + 1)) by {
                    lemma_removal_ready(p, bl, blocker_entries(bb), r, k);
                }
            }
        }
        proof {
            assert forall|k: Seq<char>| !(p.contains(k) && !dissolves(p, bl, k, r) && #[trigger] dissolves(p, bl, k, r + 1)) by {
                if p.contains(k) && !dissolves(p, bl, k, r) && dissolves(p, bl, k, r + 1) {
                    assert(views(to_remove@).contains(k));
                }
            }
            lemma_removal_done(p, bl, blocker_entries(bb), r);
        }
        blocker_keys(&bb)
    }

    /// Removes a completed node and unblocks everything it was blocking.
    pub fn pop_node(&mut self, unique_id: &str)
        requires
            old(self).wf(),
            old(self).pop_ok(unique_id@),
        ensures
            final(self).wf(),
            final(self).pending() == seq_without(old(self).pending(), unique_id@),
            final(self).blocking() == keyed_remove(old(self).blocking(), unique_id@),
            final(self).counts() == keyed_remove(
                counted_down(old(self).counts(), blocked_of(old(self).blocking(), unique_id@)),
                unique_id@,
            ),
            final(self).cached() == old(self).cached(),
            final(self).resolver() == old(self).resolver(),
            final(self).prompt() == old(self).prompt(),
            old(self).consistent() && (lookup(old(self).counts(), unique_id@) == Some(0usize)
                || !old(self).pending().contains(unique_id@)) ==> final(self).consistent(),
    {
        let ghost old_pending = self.pending();
        let ghost old_counts = self.counts();
        let ghost old_bl = self.blocking();
        let ghost id = unique_id@;
        let ghost inner = blocked_of(old_bl, id);
        proof {
            lemma_keys_of_unique(old_bl);
            lemma_keys_of_unique(old_counts);
        }
        string_set_shift_remove(&mut self.pending_nodes, unique_id);
        match blocking_map_shift_remove(&mut self.blocking, unique_id) {
            Some(blocked) => {
                let n = blocked_map_len(&blocked);
                proof {
                    let p = key_pos(old_bl, id);
                    assert(old_bl[p].0 == id);
                    assert(keys_unique(inner));
                }
                let mut i: usize = 0;
                while i < n
                    invariant
                    self.resolver() == old(self).resolver(),
                        n == inner.len(),
                        inner == blocked_entries(blocked),
                        keys_unique(inner),
                        self.pending() == seq_without(old_pending, id),
                        self.blocking() == keyed_remove(old_bl, id),
                        self.cached() == old(self).cached(),
                        self.dynprompt == old(self).dynprompt,
                        keys_unique(old_counts),
                        i <= n,
                        self.counts() == counted_down(old_counts, inner.take(i as int)),
                        forall|j: int| 0 <= j < old_counts.len() && has_key(inner, #[trigger] old_counts[j].0)
                            ==> old_counts[j].1 >= 1,
                    decreases n - i,
                {
                    let (b, _) = blocked_map_get_index(&blocked, i).unwrap();
                    let ghost cur = self.counts();
                    match count_map_get(&self.block_count, b.as_str()) {
                        Some(c) => {
                            proof {
                                let q = key_pos(cur, b@);
                                assert(cur[q].0 == b@);
                                assert(old_counts[q].0 == b@);
                                assert(inner[i as int].0 == b@);
                                assert(has_key(inner, b@));
                                if has_key(inner.take(i as int), b@) {
                                    let t = choose|t: int| 0 <= t < i && #[trigger] inner.take(i as int)[t].0 == b@;
                                    assert(inner[t].0 == b@);
                                }
                            }
                            count_map_insert(&mut self.block_count, b.clone(), c - 1);
                            proof {
                                let q = key_pos(cur, b@);
                                assert forall|k: Seq<char>| #[trigger] has_key(inner.take(i + 1), k) == (has_key(inner.take(i as int), k) || k == b@) by {
                                    if has_key(inner.take(i + 1), k) {
                                        let t = choose|t: int| 0 <= t < i + 1 && #[trigger] inner.take(i + 1)[t].0 == k;
                                        if t < i {
                                            assert(inner.take(i as int)[t].0 == k);
                                        }
                                    }
                                    if has_key(inner.take(i as int), k) {
                                        let t = choose|t: int| 0 <= t < i && #[trigger] inner.take(i as int)[t].0 == k;
                                        assert(inner.take(i + 1)[t].0 == k);
                                    }
                                    if k == b@ {
                                        assert(inner.take(i + 1)[i as int].0 == k);
                                    }
                                }
                                assert(self.counts() =~= counted_down(old_counts, inner.take(i + 1)));
                            }
                        },
                        None => {
                            proof {
                                assert(!has_key(cur, b@));
                                assert forall|k: Seq<char>| #[trigger] has_key(inner.take(i + 1), k) == (has_key(inner.take(i as int), k) || k == b@) by {
                                    if has_key(inner.take(i + 1), k) {
                                        let t = choose|t: int| 0 <= t < i + 1 && #[trigger] inner.take(i + 1)[t].0 == k;
                                        if t < i {
                                            assert(inner.take(i as int)[t].0 == k);
                                        }
                                    }
                                    if has_key(inner.take(i as int), k) {
                                        let t = choose|t: int| 0 <= t < i && #[trigger] inner.take(i as int)[t].0 == k;
                                        assert(inner.take(i + 1)[t].0 == k);
                                    }
                                    if k == b@ {
                                        assert(inner.take(i + 1)[i as int].0 == k);
                                    }
                                }
                                assert forall|j: int| 0 <= j < cur.len() implies #[trigger] cur[j].0 != b@ by {
                                    if cur[j].0 == b@ {
                                        assert(has_key(cur, b@));
                                    }
                                }
                                assert(self.counts() =~= counted_down(old_counts, inner.take(i + 1)));
                            }
                        },
                    }
                    i += 1;
                }
                assert(inner.take(n as int) =~= inner);
            },
            None => {
                assert(inner =~= Seq::<(Seq<char>, Sockets)>::empty());
                assert(self.counts() =~= counted_down(old_counts, inner));
            },
        }
        count_map_shift_remove(&mut self.block_count, unique_id);
        proof {
            self.lemma_pop_wf(old_pending, old_counts, old_bl, id);
        }
    }
}

} // verus!
