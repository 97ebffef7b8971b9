//! Mathematical model of the trie.
//!
//! A trie state is a sequence of nodes (an arena); node `0` is the root.
//! Each node carries an optional value and a map from keys to edges; an edge
//! either points definitely at a child node or is permanently conflicted.
//! All operations of the executable trie are mirrored here as functions on
//! `SpecTrie`, and the public contracts speak in terms of these functions.

use vstd::prelude::*;

verus! {

/// The state of an edge that is present in a node's edge map.
#[verifier::ext_equal]
pub enum SpecEdge {
    /// The key resolves uniquely to the node with this arena index.
    Definite(int),
    /// The key was registered as an alias for two distinct children:
    /// every lookup through it is ambiguous, permanently.
    Conflicted,
}

/// One node of the trie: an optional stored value and the outgoing edges.
#[verifier::ext_equal]
pub struct SpecNode<V> {
    pub value: Option<V>,
    pub edges: Map<Seq<char>, SpecEdge>,
}

/// The whole trie: an arena of nodes, with the root at index `0`.
#[verifier::ext_equal]
pub struct SpecTrie<V> {
    pub nodes: Seq<SpecNode<V>>,
}

/// The three-way answer of looking one key up in one node.
pub enum SpecEdgeState {
    Definite(int),
    Conflicted,
    Absent,
}

/// The outcome of walking a whole path: the index of the node it reaches,
/// or the first conflicted edge, or the first missing edge.
pub enum SpecResolved {
    Reached(int),
    Ambiguous,
    Missing,
}

/// The observable answer of a lookup.
pub enum SpecAnswer<V> {
    Found(V),
    Ambiguous,
    Absent,
}

/// The trie `new` constructs: a single root node, no value, no edges.
pub open spec fn empty_trie<V>() -> SpecTrie<V> {
    SpecTrie { nodes: seq![SpecNode { value: None, edges: Map::empty() }] }
}

/// Well-formedness: there is a root, and every definite edge points at a
/// node that exists and lies strictly deeper in the arena than its source.
/// (Children are allocated after their parent, and aliases only ever point
/// at a child of the node they are registered on, so edge targets grow.)
pub open spec fn wf_trie<V>(t: SpecTrie<V>) -> bool {
    &&& t.nodes.len() >= 1
    &&& forall|n: int, k: Seq<char>|
        0 <= n < t.nodes.len() && t.nodes[n].edges.contains_key(k)
            ==> ((#[trigger] t.nodes[n].edges[k]) matches SpecEdge::Definite(j)
                ==> n < j < t.nodes.len())
}

/// Three-way lookup of `key` among the edges of node `at`.
pub open spec fn edge_state<V>(t: SpecTrie<V>, at: int, key: Seq<char>) -> SpecEdgeState {
    if t.nodes[at].edges.contains_key(key) {
        match t.nodes[at].edges[key] {
            SpecEdge::Definite(j) => SpecEdgeState::Definite(j),
            SpecEdge::Conflicted => SpecEdgeState::Conflicted,
        }
    } else {
        SpecEdgeState::Absent
    }
}

/// Walk `path` starting from node `at`: descend through definite edges,
/// stop at the first conflicted or missing one.
pub open spec fn resolve_from<V>(t: SpecTrie<V>, at: int, path: Seq<Seq<char>>) -> SpecResolved
    decreases path.len(),
{
    if path.len() == 0 {
        SpecResolved::Reached(at)
    } else {
        match edge_state(t, at, path[0]) {
            SpecEdgeState::Definite(j) => resolve_from(t, j, path.skip(1)),
            SpecEdgeState::Conflicted => SpecResolved::Ambiguous,
            SpecEdgeState::Absent => SpecResolved::Missing,
        }
    }
}

/// Walk `path` from the root.
pub open spec fn resolve<V>(t: SpecTrie<V>, path: Seq<Seq<char>>) -> SpecResolved {
    resolve_from(t, 0, path)
}

/// The node index a resolution reached (meaningful only for `Reached`).
pub open spec fn reached_at(r: SpecResolved) -> int {
    match r {
        SpecResolved::Reached(j) => j,
        _ => arbitrary(),
    }
}

/// What a lookup observes: the value at the reached node, or ambiguity,
/// or absence (a reached node without a value is also absent).
pub open spec fn answer_from<V>(t: SpecTrie<V>, at: int, path: Seq<Seq<char>>) -> SpecAnswer<V> {
    match resolve_from(t, at, path) {
        SpecResolved::Reached(j) => match t.nodes[j].value {
            Some(v) => SpecAnswer::Found(v),
            None => SpecAnswer::Absent,
        },
        SpecResolved::Ambiguous => SpecAnswer::Ambiguous,
        SpecResolved::Missing => SpecAnswer::Absent,
    }
}

/// What a lookup from the root observes.
pub open spec fn answer<V>(t: SpecTrie<V>, path: Seq<Seq<char>>) -> SpecAnswer<V> {
    answer_from(t, 0, path)
}

/// The trie with the value of node `at` replaced.
pub open spec fn with_value<V>(t: SpecTrie<V>, at: int, value: Option<V>) -> SpecTrie<V> {
    SpecTrie { nodes: t.nodes.update(at, SpecNode { value, edges: t.nodes[at].edges }) }
}

/// The trie with edge `key` of node `at` set to `e`.
pub open spec fn with_edge<V>(t: SpecTrie<V>, at: int, key: Seq<char>, e: SpecEdge) -> SpecTrie<V> {
    SpecTrie {
        nodes: t.nodes.update(
            at,
            SpecNode { value: t.nodes[at].value, edges: t.nodes[at].edges.insert(key, e) },
        ),
    }
}

/// The trie with a fresh node (no value, no edges) appended to the arena.
pub open spec fn with_new_node<V>(t: SpecTrie<V>) -> SpecTrie<V> {
    SpecTrie { nodes: t.nodes.push(SpecNode { value: None, edges: Map::empty() }) }
}

/// What `insert` does, walking `path` from node `at`: descend through
/// definite edges, create a fresh child where an edge is missing, stop dead
/// at a conflicted edge, and store the value at the node the last key
/// reaches.
pub open spec fn inserted_from<V>(t: SpecTrie<V>, at: int, path: Seq<Seq<char>>, value: V) -> SpecTrie<V>
    decreases path.len(),
{
    if path.len() == 0 {
        t
    } else {
        match edge_state(t, at, path[0]) {
            SpecEdgeState::Conflicted => t,
            SpecEdgeState::Definite(j) => {
                if path.len() == 1 {
                    with_value(t, j, Some(value))
                } else {
                    inserted_from(t, j, path.skip(1), value)
                }
            },
            SpecEdgeState::Absent => {
                let j = t.nodes.len() as int;
                let t1 = with_edge(with_new_node(t), at, path[0], SpecEdge::Definite(j));
                if path.len() == 1 {
                    with_value(t1, j, Some(value))
                } else {
                    inserted_from(t1, j, path.skip(1), value)
                }
            },
        }
    }
}

/// What `insert` does, from the root.
pub open spec fn inserted<V>(t: SpecTrie<V>, path: Seq<Seq<char>>, value: V) -> SpecTrie<V> {
    inserted_from(t, 0, path, value)
}

/// Registering one alias `key` at node `at` for the child `target`:
/// a missing edge becomes definite; a definite edge at a different child
/// becomes conflicted; a definite edge at the same child, or an already
/// conflicted edge, is left alone.
pub open spec fn alias_registered<V>(t: SpecTrie<V>, at: int, key: Seq<char>, target: int) -> SpecTrie<V> {
    match edge_state(t, at, key) {
        SpecEdgeState::Absent => with_edge(t, at, key, SpecEdge::Definite(target)),
        SpecEdgeState::Definite(x) => if x == target {
            t
        } else {
            with_edge(t, at, key, SpecEdge::Conflicted)
        },
        SpecEdgeState::Conflicted => t,
    }
}

/// Registering a list of aliases at node `at`, in order.
pub open spec fn aliases_registered<V>(
    t: SpecTrie<V>,
    at: int,
    list: Seq<Seq<char>>,
    target: int,
) -> SpecTrie<V>
    decreases list.len(),
{
    if list.len() == 0 {
        t
    } else {
        aliases_registered(alias_registered(t, at, list[0], target), at, list.skip(1), target)
    }
}

/// What a successful `update_aliases` does, walking `path` from node `at`:
/// at each node, register that position's aliases for the canonical child,
/// then descend through the canonical edge. (The walk is only entered once
/// the whole path has been validated to resolve definitely, so the canonical
/// edge is present at every step.)
pub open spec fn aliases_applied_from<V>(
    t: SpecTrie<V>,
    at: int,
    path: Seq<Seq<char>>,
    aliases: Seq<Seq<Seq<char>>>,
) -> SpecTrie<V>
    decreases path.len(),
{
    if path.len() == 0 {
        t
    } else {
        match edge_state(t, at, path[0]) {
            SpecEdgeState::Definite(next) => {
                let t1 = aliases_registered(t, at, aliases[0], next);
                aliases_applied_from(t1, next, path.skip(1), aliases.skip(1))
            },
            _ => t,
        }
    }
}

/// What a successful `update_aliases` does, from the root.
pub open spec fn aliases_applied<V>(
    t: SpecTrie<V>,
    path: Seq<Seq<char>>,
    aliases: Seq<Seq<Seq<char>>>,
) -> SpecTrie<V> {
    aliases_applied_from(t, 0, path, aliases)
}

} // verus!
