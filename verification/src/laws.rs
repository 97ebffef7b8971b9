//! Proved laws of the model.
//!
//! The public proof functions here state the guarantees the dictionary is
//! built around: a canonical insertion can be read back, aliasing is
//! transparent, ambiguity is permanent, alias registration is idempotent,
//! and an empty alias list changes nothing. The private lemmas carry the
//! frame reasoning they share.

use vstd::prelude::*;

use crate::model::SpecAnswer;
use crate::model::SpecEdge;
use crate::model::SpecEdgeState;
use crate::model::SpecResolved;
use crate::model::SpecTrie;
use crate::model::alias_registered;
use crate::model::aliases_applied;
use crate::model::aliases_applied_from;
use crate::model::aliases_registered;
use crate::model::answer;
use crate::model::answer_from;
use crate::model::edge_state;
use crate::model::inserted;
use crate::model::inserted_from;
use crate::model::reached_at;
use crate::model::resolve;
use crate::model::resolve_from;
use crate::model::wf_trie;
use crate::model::with_edge;
use crate::model::with_new_node;
use crate::model::with_value;

verus! {

/// Registering aliases at node `at` touches nothing but the edges of
/// node `at`: no node is added or removed, no value changes, and every
/// other node keeps its edges.
pub proof fn lemma_registered_frame<V>(t: SpecTrie<V>, at: int, list: Seq<Seq<char>>, target: int)
    requires
        0 <= at < t.nodes.len(),
    ensures
        aliases_registered(t, at, list, target).nodes.len() == t.nodes.len(),
        forall|n: int|
            0 <= n < t.nodes.len() && n != at
                ==> aliases_registered(t, at, list, target).nodes[n] == t.nodes[n],
        aliases_registered(t, at, list, target).nodes[at].value == t.nodes[at].value,
    decreases list.len(),
{
    if list.len() > 0 {
        let t1 = alias_registered(t, at, list[0], target);
        lemma_registered_frame(t1, at, list.skip(1), target);
        assert(aliases_registered(t, at, list, target)
            == aliases_registered(t1, at, list.skip(1), target));
        assert forall|n: int| 0 <= n < t.nodes.len() && n != at
            implies aliases_registered(t, at, list, target).nodes[n] == t.nodes[n] by {
            assert(t1.nodes[n] == t.nodes[n]);
            assert(aliases_registered(t1, at, list.skip(1), target).nodes[n] == t1.nodes[n]);
        }
    }
}

/// Registering aliases for a child that the arena order allows keeps the
/// trie well formed.
pub proof fn lemma_registered_wf<V>(t: SpecTrie<V>, at: int, list: Seq<Seq<char>>, target: int)
    requires
        wf_trie(t),
        0 <= at < t.nodes.len(),
        at < target < t.nodes.len(),
    ensures
        wf_trie(aliases_registered(t, at, list, target)),
    decreases list.len(),
{
    if list.len() > 0 {
        let t1 = alias_registered(t, at, list[0], target);
        assert(wf_trie(t1)) by {
            assert(forall|n: int, k: Seq<char>|
                0 <= n < t1.nodes.len() && n != at && t1.nodes[n].edges.contains_key(k)
                    ==> t1.nodes[n].edges[k] == t.nodes[n].edges[k]
                        && t.nodes[n].edges.contains_key(k));
        }
        lemma_registered_wf(t1, at, list.skip(1), target);
    }
}

/// Registering aliases for `target` never disturbs an edge that already
/// points definitely at `target` — in particular not the canonical edge
/// the aliases are registered beside.
pub proof fn lemma_registered_keeps_canonical<V>(
    t: SpecTrie<V>,
    at: int,
    list: Seq<Seq<char>>,
    target: int,
    k: Seq<char>,
)
    requires
        0 <= at < t.nodes.len(),
        edge_state(t, at, k) == SpecEdgeState::Definite(target),
    ensures
        edge_state(aliases_registered(t, at, list, target), at, k)
            == SpecEdgeState::Definite(target),
    decreases list.len(),
{
    if list.len() > 0 {
        let t1 = alias_registered(t, at, list[0], target);
        assert(edge_state(t1, at, k) == SpecEdgeState::Definite(target));
        lemma_registered_keeps_canonical(t1, at, list.skip(1), target, k);
    }
}

/// Resolution from node `at` reads only nodes at index `at` and deeper,
/// so two tries that agree on those nodes' edges resolve alike.
pub proof fn lemma_resolve_agree<V>(
    t: SpecTrie<V>,
    u: SpecTrie<V>,
    lo: int,
    at: int,
    path: Seq<Seq<char>>,
)
    requires
        wf_trie(t),
        u.nodes.len() == t.nodes.len(),
        forall|n: int| lo <= n < t.nodes.len() ==> (#[trigger] u.nodes[n]).edges == t.nodes[n].edges,
        0 <= lo <= at < t.nodes.len(),
    ensures
        resolve_from(u, at, path) == resolve_from(t, at, path),
    decreases path.len(),
{
    if path.len() > 0 {
        assert(edge_state(u, at, path[0]) == edge_state(t, at, path[0]));
        match edge_state(t, at, path[0]) {
            SpecEdgeState::Definite(j) => {
                lemma_resolve_agree(t, u, lo, j, path.skip(1));
            },
            _ => {},
        }
    }
}

/// A trie in which no edge is conflicted — the state of a dictionary
/// before any aliasing has been applied (insertions alone never conflict
/// an edge).
pub open spec fn no_conflicts<V>(t: SpecTrie<V>) -> bool {
    forall|n: int, k: Seq<char>|
        0 <= n < t.nodes.len() && t.nodes[n].edges.contains_key(k)
            ==> !((#[trigger] t.nodes[n].edges[k]) is Conflicted)
}

/// The walk `insert` makes from `at` along `path` never meets a conflicted
/// edge: it either follows definite edges or, from the first missing edge
/// on, creates fresh nodes.
spec fn insert_walk_clear<V>(t: SpecTrie<V>, at: int, path: Seq<Seq<char>>) -> bool
    decreases path.len(),
{
    path.len() == 0 || match edge_state(t, at, path[0]) {
        SpecEdgeState::Conflicted => false,
        SpecEdgeState::Definite(j) => insert_walk_clear(t, j, path.skip(1)),
        SpecEdgeState::Absent => true,
    }
}

/// In a trie without conflicted edges, every insert walk is clear.
proof fn lemma_no_conflicts_walk_clear<V>(t: SpecTrie<V>, at: int, path: Seq<Seq<char>>)
    requires
        wf_trie(t),
        no_conflicts(t),
        0 <= at < t.nodes.len(),
    ensures
        insert_walk_clear(t, at, path),
    decreases path.len(),
{
    if path.len() > 0 {
        match edge_state(t, at, path[0]) {
            SpecEdgeState::Definite(j) => {
                lemma_no_conflicts_walk_clear(t, j, path.skip(1));
            },
            _ => {},
        }
    }
}

/// The single node-and-edge creation step of `insert` keeps the trie well
/// formed.
proof fn lemma_insert_step_wf<V>(t: SpecTrie<V>, at: int, key: Seq<char>)
    requires
        wf_trie(t),
        0 <= at < t.nodes.len(),
    ensures
        wf_trie(with_edge(with_new_node(t), at, key, SpecEdge::Definite(t.nodes.len() as int))),
    decreases 0int,
{
    let t1 = with_edge(with_new_node(t), at, key, SpecEdge::Definite(t.nodes.len() as int));
    assert forall|n: int, k: Seq<char>|
        0 <= n < t1.nodes.len() && t1.nodes[n].edges.contains_key(k)
        implies ((#[trigger] t1.nodes[n].edges[k]) matches SpecEdge::Definite(j)
            ==> n < j < t1.nodes.len()) by {
        if n < t.nodes.len() && n != at {
            assert(t1.nodes[n] == t.nodes[n]);
            assert(t.nodes[n].edges[k] == t1.nodes[n].edges[k]);
        } else if n == at && k != key {
            assert(t.nodes[at].edges[k] == t1.nodes[at].edges[k]);
            assert(t.nodes[at].edges.contains_key(k));
        }
    }
}

/// Between an earlier and a later trie state: the arena has not shrunk and
/// every edge of the earlier state is still there, unchanged.
pub open spec fn keeps_edges<V>(t: SpecTrie<V>, u: SpecTrie<V>) -> bool {
    &&& u.nodes.len() >= t.nodes.len()
    &&& forall|n: int, k: Seq<char>|
        #![trigger t.nodes[n].edges.dom().contains(k)]
        0 <= n < t.nodes.len() && t.nodes[n].edges.contains_key(k)
            ==> u.nodes[n].edges.contains_key(k) && u.nodes[n].edges[k] == t.nodes[n].edges[k]
}

proof fn lemma_keeps_edges_trans<V>(t: SpecTrie<V>, u: SpecTrie<V>, w: SpecTrie<V>)
    requires
        keeps_edges(t, u),
        keeps_edges(u, w),
    ensures
        keeps_edges(t, w),
{
    assert forall|n: int, k: Seq<char>|
        0 <= n < t.nodes.len() && t.nodes[n].edges.contains_key(k)
        implies w.nodes[n].edges.contains_key(k)
            && w.nodes[n].edges[k] == (#[trigger] t.nodes[n].edges[k]) by {
        assert(u.nodes[n].edges.contains_key(k) && u.nodes[n].edges[k] == t.nodes[n].edges[k]);
        assert(w.nodes[n].edges.contains_key(k) && w.nodes[n].edges[k] == u.nodes[n].edges[k]);
    }
}

/// Replacing one node's value touches no edge.
proof fn lemma_with_value_keeps_edges<V>(t: SpecTrie<V>, at: int, v: Option<V>)
    requires
        0 <= at < t.nodes.len(),
    ensures
        keeps_edges(t, with_value(t, at, v)),
        wf_trie(t) ==> wf_trie(with_value(t, at, v)),
{
    let t2 = with_value(t, at, v);
    assert(forall|n: int| 0 <= n < t.nodes.len() ==> (#[trigger] t2.nodes[n]).edges == t.nodes[n].edges);
    if wf_trie(t) {
        assert forall|n: int, k: Seq<char>|
            0 <= n < t2.nodes.len() && t2.nodes[n].edges.contains_key(k)
            implies ((#[trigger] t2.nodes[n].edges[k]) matches SpecEdge::Definite(jj)
                ==> n < jj < t2.nodes.len()) by {
            assert(t2.nodes[n].edges == t.nodes[n].edges);
        }
    }
}

/// `insert` only ever adds to the trie: the arena never shrinks, every
/// edge that existed before the walk is still there unchanged, and the
/// trie stays well formed.
pub proof fn lemma_inserted_frame<V>(t: SpecTrie<V>, at: int, path: Seq<Seq<char>>, value: V)
    requires
        wf_trie(t),
        0 <= at < t.nodes.len(),
    ensures
        keeps_edges(t, inserted_from(t, at, path, value)),
        wf_trie(inserted_from(t, at, path, value)),
    decreases path.len(),
{
    let t2 = inserted_from(t, at, path, value);
    if path.len() == 0 {
    } else {
        match edge_state(t, at, path[0]) {
            SpecEdgeState::Conflicted => {},
            SpecEdgeState::Definite(j) => {
                if path.len() == 1 {
                    lemma_with_value_keeps_edges(t, j, Some(value));
                } else {
                    lemma_inserted_frame(t, j, path.skip(1), value);
                    assert(t2 == inserted_from(t, j, path.skip(1), value));
                }
            },
            SpecEdgeState::Absent => {
                let j = t.nodes.len() as int;
                let t1 = with_edge(with_new_node(t), at, path[0], SpecEdge::Definite(j));
                lemma_insert_step_wf(t, at, path[0]);
                assert(keeps_edges(t, t1)) by {
                    assert forall|n: int, k: Seq<char>|
                        0 <= n < t.nodes.len() && t.nodes[n].edges.contains_key(k)
                        implies t1.nodes[n].edges.contains_key(k)
                            && t1.nodes[n].edges[k] == (#[trigger] t.nodes[n].edges[k]) by {
                        if n != at {
                            assert(t1.nodes[n] == t.nodes[n]);
                        }
                    }
                }
                if path.len() == 1 {
                    lemma_with_value_keeps_edges(t1, j, Some(value));
                    assert(t2 == with_value(t1, j, Some(value)));
                    lemma_keeps_edges_trans(t, t1, t2);
                } else {
                    lemma_inserted_frame(t1, j, path.skip(1), value);
                    assert(t2 == inserted_from(t1, j, path.skip(1), value));
                    lemma_keeps_edges_trans(t, t1, t2);
                }
            },
        }
    }
}

/// The walk of a clear insertion reaches a node that afterwards holds the
/// inserted value.
proof fn lemma_insert_round_trip_from<V>(t: SpecTrie<V>, at: int, path: Seq<Seq<char>>, value: V)
    requires
        wf_trie(t),
        0 <= at < t.nodes.len(),
        path.len() > 0,
        insert_walk_clear(t, at, path),
    ensures
        answer_from(inserted_from(t, at, path, value), at, path) == SpecAnswer::Found(value),
    decreases path.len(),
{
    let t2 = inserted_from(t, at, path, value);
    match edge_state(t, at, path[0]) {
        SpecEdgeState::Conflicted => {
            assert(false);
        },
        SpecEdgeState::Definite(j) => {
            if path.len() == 1 {
                assert(t2 == with_value(t, j, Some(value)));
                assert(t2.nodes[at].edges == t.nodes[at].edges);
                assert(edge_state(t2, at, path[0]) == SpecEdgeState::Definite(j));
                assert(resolve_from(t2, j, path.skip(1)) == SpecResolved::Reached(j));
                assert(t2.nodes[j].value == Some(value));
            } else {
                lemma_insert_round_trip_from(t, j, path.skip(1), value);
                lemma_inserted_frame(t, j, path.skip(1), value);
                assert(t2.nodes[at].edges.contains_key(path[0])
                    && t2.nodes[at].edges[path[0]] == t.nodes[at].edges[path[0]]);
                assert(edge_state(t2, at, path[0]) == SpecEdgeState::Definite(j));
                assert(resolve_from(t2, at, path) == resolve_from(t2, j, path.skip(1)));
            }
        },
        SpecEdgeState::Absent => {
            let j = t.nodes.len() as int;
            let t1 = with_edge(with_new_node(t), at, path[0], SpecEdge::Definite(j));
            lemma_insert_step_wf(t, at, path[0]);
            if path.len() == 1 {
                assert(t2 == with_value(t1, j, Some(value)));
                assert(t2.nodes[at].edges == t1.nodes[at].edges);
                assert(edge_state(t2, at, path[0]) == SpecEdgeState::Definite(j));
                assert(resolve_from(t2, j, path.skip(1)) == SpecResolved::Reached(j));
                assert(t2.nodes[j].value == Some(value));
            } else {
                assert(t1.nodes[j].edges =~= Map::<Seq<char>, SpecEdge>::empty());
                assert(edge_state(t1, j, path.skip(1)[0]) is Absent);
                assert(insert_walk_clear(t1, j, path.skip(1)));
                lemma_insert_round_trip_from(t1, j, path.skip(1), value);
                lemma_inserted_frame(t1, j, path.skip(1), value);
                assert(t1.nodes[at].edges.contains_key(path[0])
                    && t1.nodes[at].edges[path[0]] == SpecEdge::Definite(j));
                assert(t2.nodes[at].edges.contains_key(path[0])
                    && t2.nodes[at].edges[path[0]] == t1.nodes[at].edges[path[0]]);
                assert(edge_state(t2, at, path[0]) == SpecEdgeState::Definite(j));
                assert(resolve_from(t2, at, path) == resolve_from(t2, j, path.skip(1)));
            }
        },
    }
}

/// Round trip: in a dictionary not yet touched by aliasing, looking a
/// canonical path up right after inserting it finds exactly the inserted
/// value.
pub proof fn lemma_insert_round_trip<V>(t: SpecTrie<V>, path: Seq<Seq<char>>, value: V)
    requires
        wf_trie(t),
        no_conflicts(t),
        path.len() > 0,
    ensures
        answer(inserted(t, path, value), path) == SpecAnswer::Found(value),
{
    lemma_no_conflicts_walk_clear(t, 0, path);
    lemma_insert_round_trip_from(t, 0, path, value);
}

/// How edges may change over the life of the dictionary: a node's edge
/// only ever progresses from missing to definite to conflicted, a definite
/// edge keeps its target until it conflicts, and a conflicted edge never
/// reverts. Every operation of the dictionary respects this relation, so
/// it also describes any sequence of operations.
pub open spec fn evolves<V>(t: SpecTrie<V>, u: SpecTrie<V>) -> bool {
    &&& u.nodes.len() >= t.nodes.len()
    &&& forall|n: int, k: Seq<char>|
        #![trigger t.nodes[n].edges.dom().contains(k)]
        0 <= n < t.nodes.len() && t.nodes[n].edges.contains_key(k)
            ==> u.nodes[n].edges.contains_key(k)
                && (t.nodes[n].edges[k] is Conflicted ==> u.nodes[n].edges[k] is Conflicted)
                && (t.nodes[n].edges[k] matches SpecEdge::Definite(j)
                    ==> u.nodes[n].edges[k] == SpecEdge::Definite(j)
                        || u.nodes[n].edges[k] is Conflicted)
}

/// A state that keeps every edge unchanged in particular evolves.
proof fn lemma_keeps_edges_evolves<V>(t: SpecTrie<V>, u: SpecTrie<V>)
    requires
        keeps_edges(t, u),
    ensures
        evolves(t, u),
{
    assert forall|n: int, k: Seq<char>|
        0 <= n < t.nodes.len() && #[trigger] t.nodes[n].edges.dom().contains(k)
        implies u.nodes[n].edges.contains_key(k) && u.nodes[n].edges[k] == t.nodes[n].edges[k] by {
        assert(t.nodes[n].edges.contains_key(k));
    }
}

/// Edge evolution composes: what holds from state to state holds across
/// any sequence of operations.
pub proof fn lemma_evolves_trans<V>(t: SpecTrie<V>, u: SpecTrie<V>, w: SpecTrie<V>)
    requires
        evolves(t, u),
        evolves(u, w),
    ensures
        evolves(t, w),
{
    assert forall|n: int, k: Seq<char>|
        0 <= n < t.nodes.len() && #[trigger] t.nodes[n].edges.dom().contains(k)
        implies u.nodes[n].edges.contains_key(k)
            && w.nodes[n].edges.contains_key(k)
            && (t.nodes[n].edges[k] is Conflicted ==> w.nodes[n].edges[k] is Conflicted)
            && (t.nodes[n].edges[k] matches SpecEdge::Definite(j)
                ==> w.nodes[n].edges[k] == SpecEdge::Definite(j)
                    || w.nodes[n].edges[k] is Conflicted) by {
        assert(t.nodes[n].edges.contains_key(k));
        assert(u.nodes[n].edges.contains_key(k));
        assert(u.nodes[n].edges.dom().contains(k));
    }
}

/// `insert` evolves the trie.
pub proof fn lemma_inserted_evolves<V>(t: SpecTrie<V>, path: Seq<Seq<char>>, value: V)
    requires
        wf_trie(t),
    ensures
        evolves(t, inserted(t, path, value)),
{
    lemma_inserted_frame(t, 0, path, value);
    lemma_keeps_edges_evolves(t, inserted(t, path, value));
}

/// Overwriting a stored value evolves the trie (it touches no edge).
pub proof fn lemma_with_value_evolves<V>(t: SpecTrie<V>, at: int, v: Option<V>)
    requires
        0 <= at < t.nodes.len(),
    ensures
        evolves(t, with_value(t, at, v)),
{
    lemma_with_value_keeps_edges(t, at, v);
    lemma_keeps_edges_evolves(t, with_value(t, at, v));
}

/// Registering one alias evolves the trie.
proof fn lemma_register_step_evolves<V>(t: SpecTrie<V>, at: int, key: Seq<char>, target: int)
    requires
        0 <= at < t.nodes.len(),
    ensures
        evolves(t, alias_registered(t, at, key, target)),
{
    let u = alias_registered(t, at, key, target);
    assert forall|n: int, k: Seq<char>|
        0 <= n < t.nodes.len() && #[trigger] t.nodes[n].edges.dom().contains(k)
        implies u.nodes[n].edges.contains_key(k)
            && (t.nodes[n].edges[k] is Conflicted ==> u.nodes[n].edges[k] is Conflicted)
            && (t.nodes[n].edges[k] matches SpecEdge::Definite(j)
                ==> u.nodes[n].edges[k] == SpecEdge::Definite(j)
                    || u.nodes[n].edges[k] is Conflicted) by {
        if n != at {
            assert(u.nodes[n] == t.nodes[n]);
        }
    }
}

/// Registering a list of aliases evolves the trie.
pub proof fn lemma_registered_evolves<V>(t: SpecTrie<V>, at: int, list: Seq<Seq<char>>, target: int)
    requires
        0 <= at < t.nodes.len(),
    ensures
        evolves(t, aliases_registered(t, at, list, target)),
    decreases list.len(),
{
    if list.len() == 0 {
        lemma_keeps_edges_evolves(t, t);
    } else {
        let t1 = alias_registered(t, at, list[0], target);
        lemma_register_step_evolves(t, at, list[0], target);
        lemma_registered_evolves(t1, at, list.skip(1), target);
        lemma_evolves_trans(t, t1, aliases_registered(t1, at, list.skip(1), target));
    }
}

/// A whole `update_aliases` walk evolves the trie.
pub proof fn lemma_applied_evolves<V>(
    t: SpecTrie<V>,
    at: int,
    path: Seq<Seq<char>>,
    aliases: Seq<Seq<Seq<char>>>,
)
    requires
        wf_trie(t),
        0 <= at < t.nodes.len(),
    ensures
        evolves(t, aliases_applied_from(t, at, path, aliases)),
    decreases path.len(),
{
    if path.len() == 0 {
        lemma_keeps_edges_evolves(t, t);
    } else {
        match edge_state(t, at, path[0]) {
            SpecEdgeState::Definite(next) => {
                let t1 = aliases_registered(t, at, aliases[0], next);
                lemma_registered_evolves(t, at, aliases[0], next);
                lemma_registered_wf(t, at, aliases[0], next);
                lemma_applied_evolves(t1, next, path.skip(1), aliases.skip(1));
                lemma_evolves_trans(t, t1, aliases_applied_from(t1, next, path.skip(1), aliases.skip(1)));
            },
            _ => {
                lemma_keeps_edges_evolves(t, t);
            },
        }
    }
}

/// Ambiguity is permanent along a path: once the walk of `path` runs into
/// a conflicted edge, it still does in every evolved state.
proof fn lemma_evolves_ambiguous_from<V>(
    t: SpecTrie<V>,
    u: SpecTrie<V>,
    at: int,
    path: Seq<Seq<char>>,
)
    requires
        wf_trie(t),
        evolves(t, u),
        0 <= at < t.nodes.len(),
        resolve_from(t, at, path) is Ambiguous,
    ensures
        resolve_from(u, at, path) is Ambiguous,
    decreases path.len(),
{
    match edge_state(t, at, path[0]) {
        SpecEdgeState::Conflicted => {
            assert(t.nodes[at].edges.contains_key(path[0]));
            assert(t.nodes[at].edges.dom().contains(path[0]));
            assert(u.nodes[at].edges[path[0]] is Conflicted);
        },
        SpecEdgeState::Definite(j) => {
            assert(t.nodes[at].edges.contains_key(path[0]));
            assert(t.nodes[at].edges.dom().contains(path[0]));
            if u.nodes[at].edges[path[0]] is Conflicted {
            } else {
                assert(edge_state(u, at, path[0]) == SpecEdgeState::Definite(j));
                lemma_evolves_ambiguous_from(t, u, j, path.skip(1));
            }
        },
        SpecEdgeState::Absent => {
            assert(false);
        },
    }
}

/// Conflict monotonicity: once a lookup is ambiguous it stays ambiguous
/// in every later state of the dictionary — that is, in every state
/// reached by insertions, alias registrations and value overwrites, all
/// of which evolve the trie.
pub proof fn lemma_ambiguity_permanent<V>(t: SpecTrie<V>, u: SpecTrie<V>, path: Seq<Seq<char>>)
    requires
        wf_trie(t),
        evolves(t, u),
        resolve(t, path) is Ambiguous,
    ensures
        resolve(u, path) is Ambiguous,
        answer(u, path) is Ambiguous,
{
    lemma_evolves_ambiguous_from(t, u, 0, path);
}

/// A walk that reaches a node reaches one inside the arena.
proof fn lemma_resolve_in_range<V>(t: SpecTrie<V>, at: int, path: Seq<Seq<char>>)
    requires
        wf_trie(t),
        0 <= at < t.nodes.len(),
        resolve_from(t, at, path) is Reached,
    ensures
        0 <= reached_at(resolve_from(t, at, path)) < t.nodes.len(),
    decreases path.len(),
{
    if path.len() > 0 {
        match edge_state(t, at, path[0]) {
            SpecEdgeState::Definite(j) => {
                lemma_resolve_in_range(t, j, path.skip(1));
            },
            _ => {},
        }
    }
}

/// A whole `update_aliases` walk from `at` touches no node above `at`, no
/// stored value anywhere, does not change the arena's size, and keeps the
/// trie well formed.
pub proof fn lemma_applied_frame<V>(
    t: SpecTrie<V>,
    at: int,
    path: Seq<Seq<char>>,
    aliases: Seq<Seq<Seq<char>>>,
)
    requires
        wf_trie(t),
        0 <= at < t.nodes.len(),
    ensures
        aliases_applied_from(t, at, path, aliases).nodes.len() == t.nodes.len(),
        forall|n: int|
            0 <= n < at ==> (#[trigger] aliases_applied_from(t, at, path, aliases).nodes[n])
                == t.nodes[n],
        forall|n: int|
            0 <= n < t.nodes.len()
                ==> (#[trigger] aliases_applied_from(t, at, path, aliases).nodes[n]).value
                    == t.nodes[n].value,
        wf_trie(aliases_applied_from(t, at, path, aliases)),
    decreases path.len(),
{
    let t2 = aliases_applied_from(t, at, path, aliases);
    if path.len() == 0 {
    } else {
        match edge_state(t, at, path[0]) {
            SpecEdgeState::Definite(next) => {
                let t1 = aliases_registered(t, at, aliases[0], next);
                assert(t.nodes[at].edges.contains_key(path[0]));
                lemma_registered_frame(t, at, aliases[0], next);
                lemma_registered_wf(t, at, aliases[0], next);
                lemma_applied_frame(t1, next, path.skip(1), aliases.skip(1));
                assert(t2 == aliases_applied_from(t1, next, path.skip(1), aliases.skip(1)));
                assert forall|n: int| 0 <= n < at implies (#[trigger] t2.nodes[n]) == t.nodes[n] by {
                    assert(t1.nodes[n] == t.nodes[n]);
                    assert(t2.nodes[n] == t1.nodes[n]);
                }
                assert forall|n: int| 0 <= n < t.nodes.len()
                    implies (#[trigger] t2.nodes[n]).value == t.nodes[n].value by {
                    assert(t1.nodes[n].value == t.nodes[n].value);
                    assert(t2.nodes[n].value == t1.nodes[n].value);
                }
            },
            _ => {},
        }
    }
}

/// After a whole `update_aliases` walk, the canonical path still resolves
/// exactly as it did before: aliasing is layered beside the canonical
/// edges, never over them.
pub proof fn lemma_applied_resolves_canonical<V>(
    t: SpecTrie<V>,
    at: int,
    path: Seq<Seq<char>>,
    aliases: Seq<Seq<Seq<char>>>,
)
    requires
        wf_trie(t),
        0 <= at < t.nodes.len(),
        aliases.len() == path.len(),
        resolve_from(t, at, path) is Reached,
    ensures
        resolve_from(aliases_applied_from(t, at, path, aliases), at, path)
            == resolve_from(t, at, path),
    decreases path.len(),
{
    let t2 = aliases_applied_from(t, at, path, aliases);
    if path.len() == 0 {
    } else {
        match edge_state(t, at, path[0]) {
            SpecEdgeState::Definite(next) => {
                let t1 = aliases_registered(t, at, aliases[0], next);
                assert(t.nodes[at].edges.contains_key(path[0]));
                lemma_registered_frame(t, at, aliases[0], next);
                lemma_registered_wf(t, at, aliases[0], next);
                lemma_registered_keeps_canonical(t, at, aliases[0], next, path[0]);
                assert(forall|n: int|
                    at + 1 <= n < t.nodes.len() ==> (#[trigger] t1.nodes[n]).edges == t.nodes[n].edges);
                lemma_resolve_agree(t, t1, at + 1, next, path.skip(1));
                lemma_applied_resolves_canonical(t1, next, path.skip(1), aliases.skip(1));
                lemma_applied_frame(t1, next, path.skip(1), aliases.skip(1));
                assert(t2 == aliases_applied_from(t1, next, path.skip(1), aliases.skip(1)));
                assert(t2.nodes[at] == t1.nodes[at]);
                assert(edge_state(t2, at, path[0]) == SpecEdgeState::Definite(next));
                assert(resolve_from(t2, at, path) == resolve_from(t2, next, path.skip(1)));
            },
            _ => {
                assert(false);
            },
        }
    }
}

/// An alias key is pinned at a node once it either points definitely at
/// `target` or is conflicted.
spec fn pinned<V>(t: SpecTrie<V>, at: int, key: Seq<char>, target: int) -> bool {
    edge_state(t, at, key) == SpecEdgeState::Definite(target) || edge_state(t, at, key) is Conflicted
}

/// Registering more aliases for the same target never un-pins a key.
proof fn lemma_registered_preserves_pinned<V>(
    t: SpecTrie<V>,
    at: int,
    list: Seq<Seq<char>>,
    target: int,
    k: Seq<char>,
)
    requires
        0 <= at < t.nodes.len(),
        pinned(t, at, k, target),
    ensures
        pinned(aliases_registered(t, at, list, target), at, k, target),
    decreases list.len(),
{
    if list.len() > 0 {
        let t1 = alias_registered(t, at, list[0], target);
        assert(pinned(t1, at, k, target));
        lemma_registered_preserves_pinned(t1, at, list.skip(1), target, k);
    }
}

/// After registering a list of aliases for `target`, every key of the
/// list is pinned: definite at `target`, or conflicted.
proof fn lemma_registered_pins<V>(t: SpecTrie<V>, at: int, list: Seq<Seq<char>>, target: int)
    requires
        0 <= at < t.nodes.len(),
    ensures
        forall|m: int|
            0 <= m < list.len()
                ==> pinned(aliases_registered(t, at, list, target), at, #[trigger] list[m], target),
    decreases list.len(),
{
    if list.len() > 0 {
        let t1 = alias_registered(t, at, list[0], target);
        let full = aliases_registered(t, at, list, target);
        assert(pinned(t1, at, list[0], target));
        lemma_registered_preserves_pinned(t1, at, list.skip(1), target, list[0]);
        lemma_registered_pins(t1, at, list.skip(1), target);
        assert forall|m: int| 0 <= m < list.len()
            implies pinned(full, at, #[trigger] list[m], target) by {
            if m > 0 {
                assert(list.skip(1)[m - 1] == list[m]);
                assert(pinned(full, at, list.skip(1)[m - 1], target));
            }
        }
    }
}

/// Registering a list whose every key is already pinned changes nothing.
proof fn lemma_registered_pinned_identity<V>(
    t: SpecTrie<V>,
    at: int,
    list: Seq<Seq<char>>,
    target: int,
)
    requires
        0 <= at < t.nodes.len(),
        forall|m: int| 0 <= m < list.len() ==> pinned(t, at, #[trigger] list[m], target),
    ensures
        aliases_registered(t, at, list, target) == t,
    decreases list.len(),
{
    if list.len() > 0 {
        assert(pinned(t, at, list[0], target));
        assert(alias_registered(t, at, list[0], target) == t);
        assert forall|m: int| 0 <= m < list.skip(1).len()
            implies pinned(t, at, #[trigger] list.skip(1)[m], target) by {
            assert(list.skip(1)[m] == list[m + 1]);
        }
        lemma_registered_pinned_identity(t, at, list.skip(1), target);
    }
}

/// The walk of `update_aliases`, run twice from `at` with the same
/// arguments, is the same as running it once.
proof fn lemma_applied_idempotent_from<V>(
    t: SpecTrie<V>,
    at: int,
    path: Seq<Seq<char>>,
    aliases: Seq<Seq<Seq<char>>>,
)
    requires
        wf_trie(t),
        0 <= at < t.nodes.len(),
        aliases.len() == path.len(),
        resolve_from(t, at, path) is Reached,
    ensures
        aliases_applied_from(aliases_applied_from(t, at, path, aliases), at, path, aliases)
            == aliases_applied_from(t, at, path, aliases),
    decreases path.len(),
{
    if path.len() > 0 {
        match edge_state(t, at, path[0]) {
            SpecEdgeState::Definite(next) => {
                let sp = path.skip(1);
                let sa = aliases.skip(1);
                let t1 = aliases_registered(t, at, aliases[0], next);
                let t2 = aliases_applied_from(t1, next, sp, sa);
                assert(t.nodes[at].edges.contains_key(path[0]));
                lemma_registered_frame(t, at, aliases[0], next);
                lemma_registered_wf(t, at, aliases[0], next);
                lemma_registered_keeps_canonical(t, at, aliases[0], next, path[0]);
                assert(forall|n: int|
                    at + 1 <= n < t.nodes.len() ==> (#[trigger] t1.nodes[n]).edges == t.nodes[n].edges);
                lemma_resolve_agree(t, t1, at + 1, next, sp);
                lemma_applied_frame(t1, next, sp, sa);
                assert(t2 == aliases_applied_from(t, at, path, aliases));
                assert(t2.nodes[at] == t1.nodes[at]);
                assert(edge_state(t2, at, path[0]) == SpecEdgeState::Definite(next));
                // Re-registering the same aliases at this node is a no-op.
                lemma_registered_pins(t, at, aliases[0], next);
                assert forall|m: int| 0 <= m < aliases[0].len()
                    implies pinned(t2, at, #[trigger] aliases[0][m], next) by {
                    assert(pinned(t1, at, aliases[0][m], next));
                }
                lemma_registered_pinned_identity(t2, at, aliases[0], next);
                // Re-walking the deeper part is a no-op by induction.
                lemma_applied_idempotent_from(t1, next, sp, sa);
                assert(aliases_applied_from(t2, at, path, aliases)
                    == aliases_applied_from(t2, next, sp, sa));
                assert(aliases_applied_from(t2, next, sp, sa) == t2);
            },
            _ => {
                assert(false);
            },
        }
    }
}

/// Idempotence: a second `update_aliases` with the same path and the same
/// alias lists still validates, and leaves the dictionary exactly as the
/// first call left it.
pub proof fn lemma_update_aliases_idempotent<V>(
    t: SpecTrie<V>,
    path: Seq<Seq<char>>,
    aliases: Seq<Seq<Seq<char>>>,
)
    requires
        wf_trie(t),
        aliases.len() == path.len(),
        resolve(t, path) is Reached,
    ensures
        resolve(aliases_applied(t, path, aliases), path) == resolve(t, path),
        aliases_applied(aliases_applied(t, path, aliases), path, aliases)
            == aliases_applied(t, path, aliases),
{
    lemma_applied_resolves_canonical(t, 0, path, aliases);
    lemma_applied_idempotent_from(t, 0, path, aliases);
}

/// Substituting one registered, unconflicted alias for its canonical key
/// does not change where the walk ends.
proof fn lemma_transparency_from<V>(
    t: SpecTrie<V>,
    at: int,
    path: Seq<Seq<char>>,
    aliases: Seq<Seq<Seq<char>>>,
    i: int,
    a: Seq<char>,
)
    requires
        wf_trie(t),
        0 <= at < t.nodes.len(),
        aliases.len() == path.len(),
        resolve_from(t, at, path) is Reached,
        0 <= i < path.len(),
        aliases[i].contains(a),
        !(edge_state(
            aliases_applied_from(t, at, path, aliases),
            reached_at(resolve_from(aliases_applied_from(t, at, path, aliases), at, path.take(i))),
            a,
        ) is Conflicted),
    ensures
        resolve_from(aliases_applied_from(t, at, path, aliases), at, path.update(i, a))
            == resolve_from(aliases_applied_from(t, at, path, aliases), at, path),
    decreases path.len(),
{
    match edge_state(t, at, path[0]) {
        SpecEdgeState::Definite(next) => {
            let sp = path.skip(1);
            let sa = aliases.skip(1);
            let t1 = aliases_registered(t, at, aliases[0], next);
            let t2 = aliases_applied_from(t1, next, sp, sa);
            assert(t.nodes[at].edges.contains_key(path[0]));
            lemma_registered_frame(t, at, aliases[0], next);
            lemma_registered_wf(t, at, aliases[0], next);
            lemma_registered_keeps_canonical(t, at, aliases[0], next, path[0]);
            assert(forall|n: int|
                at + 1 <= n < t.nodes.len() ==> (#[trigger] t1.nodes[n]).edges == t.nodes[n].edges);
            lemma_resolve_agree(t, t1, at + 1, next, sp);
            lemma_applied_frame(t1, next, sp, sa);
            assert(t2 == aliases_applied_from(t, at, path, aliases));
            assert(t2.nodes[at] == t1.nodes[at]);
            assert(edge_state(t2, at, path[0]) == SpecEdgeState::Definite(next));
            assert(resolve_from(t2, at, path) == resolve_from(t2, next, sp));
            if i == 0 {
                assert(path.take(0) =~= Seq::<Seq<char>>::empty());
                assert(resolve_from(t2, at, path.take(0)) == SpecResolved::Reached(at));
                let m = choose|m: int| 0 <= m < aliases[0].len() && aliases[0][m] == a;
                lemma_registered_pins(t, at, aliases[0], next);
                assert(pinned(t1, at, a, next));
                assert(pinned(t2, at, a, next));
                assert(edge_state(t2, at, a) == SpecEdgeState::Definite(next));
                assert(path.update(0, a)[0] == a);
                assert(path.update(0, a).skip(1) =~= sp);
                assert(resolve_from(t2, at, path.update(0, a)) == resolve_from(t2, next, sp));
            } else {
                assert(path.take(i)[0] == path[0]);
                assert(path.take(i).skip(1) =~= sp.take(i - 1));
                assert(resolve_from(t2, at, path.take(i)) == resolve_from(t2, next, sp.take(i - 1)));
                assert(sa[i - 1] == aliases[i]);
                lemma_transparency_from(t1, next, sp, sa, i - 1, a);
                assert(resolve_from(t2, next, sp.update(i - 1, a)) == resolve_from(t2, next, sp));
                assert(path.update(i, a)[0] == path[0]);
                assert(path.update(i, a).skip(1) =~= sp.update(i - 1, a));
                assert(resolve_from(t2, at, path.update(i, a))
                    == resolve_from(t2, next, sp.update(i - 1, a)));
            }
        },
        _ => {
            assert(false);
        },
    }
}

/// Alias transparency: after a successful `update_aliases(path, aliases)`,
/// substituting any one position's canonical key with one of that
/// position's registered aliases resolves to the same node — and hence the
/// same answer — as the canonical path itself, provided no other
/// registration has conflicted that alias edge. The canonical path's own
/// answer is exactly what it was before the aliasing.
pub proof fn lemma_alias_transparency<V>(
    t: SpecTrie<V>,
    path: Seq<Seq<char>>,
    aliases: Seq<Seq<Seq<char>>>,
    i: int,
    a: Seq<char>,
)
    requires
        wf_trie(t),
        aliases.len() == path.len(),
        resolve(t, path) is Reached,
        0 <= i < path.len(),
        aliases[i].contains(a),
        !(edge_state(
            aliases_applied(t, path, aliases),
            reached_at(resolve(aliases_applied(t, path, aliases), path.take(i))),
            a,
        ) is Conflicted),
    ensures
        answer(aliases_applied(t, path, aliases), path.update(i, a))
            == answer(aliases_applied(t, path, aliases), path),
        answer(aliases_applied(t, path, aliases), path) == answer(t, path),
{
    let t2 = aliases_applied(t, path, aliases);
    lemma_transparency_from(t, 0, path, aliases, i, a);
    lemma_applied_resolves_canonical(t, 0, path, aliases);
    lemma_applied_frame(t, 0, path, aliases);
    lemma_resolve_in_range(t, 0, path);
    let x = reached_at(resolve(t, path));
    assert(t2.nodes[x].value == t.nodes[x].value);
}

/// An `update_aliases` call whose alias list is empty at every position
/// changes nothing: only the canonical keys apply.
pub proof fn lemma_empty_aliases_identity<V>(
    t: SpecTrie<V>,
    at: int,
    path: Seq<Seq<char>>,
    aliases: Seq<Seq<Seq<char>>>,
)
    requires
        forall|i: int| 0 <= i < aliases.len() ==> (#[trigger] aliases[i]).len() == 0,
        path.len() <= aliases.len(),
    ensures
        aliases_applied_from(t, at, path, aliases) == t,
    decreases path.len(),
{
    if path.len() > 0 {
        match edge_state(t, at, path[0]) {
            SpecEdgeState::Definite(next) => {
                assert(aliases_registered(t, at, aliases[0], next) == t);
                lemma_empty_aliases_identity(t, next, path.skip(1), aliases.skip(1));
            },
            _ => {},
        }
    }
}

} // verus!
