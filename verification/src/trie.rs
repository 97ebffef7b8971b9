//! The executable trie.
//!
//! Nodes live in an arena (`Vec<Node<V>>`) and refer to each other by index;
//! the root is at index `0`. Each node stores its outgoing edges as an
//! association list with pairwise distinct keys; its view collapses the list
//! into the `Map` of the model, so insertion order is irrelevant to every
//! contract.

use vstd::prelude::*;

use crate::laws::lemma_registered_frame;
use crate::laws::lemma_registered_keeps_canonical;
use crate::laws::lemma_resolve_agree;
use crate::model::SpecAnswer;
use crate::model::SpecEdge;
use crate::model::SpecEdgeState;
use crate::model::SpecNode;
use crate::model::SpecResolved;
use crate::model::SpecTrie;
use crate::model::alias_registered;
use crate::model::aliases_applied;
use crate::model::aliases_applied_from;
use crate::model::aliases_registered;
use crate::model::answer;
use crate::model::edge_state;
use crate::model::empty_trie;
use crate::model::inserted;
use crate::model::inserted_from;
use crate::model::reached_at;
use crate::model::resolve;
use crate::model::resolve_from;
use crate::model::wf_trie;
use crate::model::with_edge;
use crate::model::with_new_node;
use crate::model::with_value;

verus! {

broadcast use vstd::string::group_string_axioms;

/// A lookup answer that keeps ambiguity apart from absence: the value was
/// found, or the path runs through a conflicted alias, or there is no value
/// on that path.
#[derive(Debug, PartialEq, Eq, PartialOrd, Ord, Hash)]
pub enum UniqueOption<V> {
    Unique(V),
    NonUnique,
    Absent,
}

impl<V> UniqueOption<V> {
    /// The found value; the caller must know the lookup succeeded.
    pub fn unwrap(self) -> (v: V)
        requires
            self is Unique,
        ensures
            self == UniqueOption::Unique(v),
    {
        match self {
            UniqueOption::Unique(v) => v,
            _ => vstd::pervasive::unreached(),
        }
    }
}

/// A stored edge: definitely this child, or permanently conflicted.
#[derive(Debug, Clone, Copy)]
enum ChildRef {
    Definite(usize),
    Conflicted,
}

impl ChildRef {
    spec fn view(self) -> SpecEdge {
        match self {
            ChildRef::Definite(j) => SpecEdge::Definite(j as int),
            ChildRef::Conflicted => SpecEdge::Conflicted,
        }
    }
}

/// One entry of a node's association list of edges.
#[derive(Debug)]
struct Edge {
    key: String,
    child: ChildRef,
}

/// One node of the arena.
#[derive(Debug)]
struct Node<V> {
    value: Option<V>,
    edges: Vec<Edge>,
}

/// The association list as the model's edge map. Keys are pairwise distinct
/// wherever this is used, so which occurrence wins does not matter.
spec fn edges_map(s: Seq<Edge>) -> Map<Seq<char>, SpecEdge>
    decreases s.len(),
{
    if s.len() == 0 {
        Map::empty()
    } else {
        edges_map(s.drop_last()).insert(s.last().key@, s.last().child.view())
    }
}

/// No two entries share a key.
spec fn edges_unique(s: Seq<Edge>) -> bool {
    forall|i: int, j: int|
        0 <= i < j < s.len() ==> (#[trigger] s[i].key@) != (#[trigger] s[j].key@)
}

/// Every definite edge of a node at arena index `n` points into the arena,
/// and strictly deeper than `n`.
spec fn edge_targets_ok(s: Seq<Edge>, n: int, len: int) -> bool {
    forall|m: int|
        0 <= m < s.len()
            ==> ((#[trigger] s[m].child) matches ChildRef::Definite(j) ==> n < j < len)
}

impl<V> Node<V> {
    spec fn view(&self) -> SpecNode<V> {
        SpecNode { value: self.value, edges: edges_map(self.edges@) }
    }
}

/// The key-path dictionary: a trie whose stored values are reachable both
/// through the canonical key of each edge and through aliases registered
/// after insertion, with colliding aliases reported as ambiguous.
#[derive(Debug)]
pub struct Trie<V> {
    nodes: Vec<Node<V>>,
}

impl<V> View for Trie<V> {
    type V = SpecTrie<V>;

    closed spec fn view(&self) -> SpecTrie<V> {
        SpecTrie { nodes: Seq::new(self.nodes@.len(), |i: int| self.nodes@[i].view()) }
    }
}

proof fn lemma_edges_map_contains(s: Seq<Edge>, k: Seq<char>)
    ensures
        edges_map(s).contains_key(k) <==> exists|i: int| 0 <= i < s.len() && (#[trigger] s[i].key@) == k,
    decreases s.len(),
{
    if s.len() > 0 {
        lemma_edges_map_contains(s.drop_last(), k);
        if edges_map(s).contains_key(k) {
            if s.last().key@ == k {
                assert(s[s.len() - 1].key@ == k);
            }
        }
        if exists|i: int| 0 <= i < s.len() && (#[trigger] s[i].key@) == k {
            let i = choose|i: int| 0 <= i < s.len() && (#[trigger] s[i].key@) == k;
            if i < s.len() - 1 {
                assert(s.drop_last()[i].key@ == k);
            }
        }
    }
}

proof fn lemma_edges_map_at(s: Seq<Edge>, i: int)
    requires
        edges_unique(s),
        0 <= i < s.len(),
    ensures
        edges_map(s).contains_key(s[i].key@),
        edges_map(s)[s[i].key@] == s[i].child.view(),
    decreases s.len(),
{
    if i == s.len() - 1 {
        assert(s.last() == s[i]);
    } else {
        assert(edges_unique(s.drop_last())) by {
            assert(forall|a: int, b: int|
                0 <= a < b < s.len() - 1 ==> (#[trigger] s.drop_last()[a].key@) != (#[trigger] s.drop_last()[b].key@));
        }
        lemma_edges_map_at(s.drop_last(), i);
        assert(s.drop_last()[i] == s[i]);
        assert(s[i].key@ != s.last().key@);
    }
}

proof fn lemma_edges_map_push(s: Seq<Edge>, e: Edge)
    requires
        forall|i: int| 0 <= i < s.len() ==> (#[trigger] s[i].key@) != e.key@,
    ensures
        edges_map(s.push(e)) == edges_map(s).insert(e.key@, e.child.view()),
{
    assert(s.push(e).drop_last() =~= s);
    assert(s.push(e).last() == e);
}

proof fn lemma_edges_map_update(s: Seq<Edge>, i: int, e: Edge)
    requires
        edges_unique(s),
        0 <= i < s.len(),
        s[i].key@ == e.key@,
    ensures
        edges_map(s.update(i, e)) == edges_map(s).insert(e.key@, e.child.view()),
        edges_unique(s.update(i, e)),
    decreases s.len(),
{
    let su = s.update(i, e);
    assert(edges_unique(su)) by {
        assert(forall|a: int| 0 <= a < s.len() ==> (#[trigger] su[a].key@) == s[a].key@);
    }
    if i == s.len() - 1 {
        assert(su.drop_last() =~= s.drop_last());
        assert(su.last() == e);
        assert(edges_map(su) == edges_map(s.drop_last()).insert(e.key@, e.child.view()));
        assert(edges_map(s) == edges_map(s.drop_last()).insert(s.last().key@, s.last().child.view()));
        assert(edges_map(s.drop_last()).insert(e.key@, e.child.view())
            =~= edges_map(s.drop_last()).insert(s.last().key@, s.last().child.view()).insert(e.key@, e.child.view()));
    } else {
        assert(edges_unique(s.drop_last())) by {
            assert(forall|a: int, b: int|
                0 <= a < b < s.len() - 1 ==> (#[trigger] s.drop_last()[a].key@) != (#[trigger] s.drop_last()[b].key@));
        }
        assert(s.drop_last()[i] == s[i]);
        lemma_edges_map_update(s.drop_last(), i, e);
        assert(su.drop_last() =~= s.drop_last().update(i, e));
        assert(su.last() == s.last());
        // The two pending inserts commute because the keys differ.
        assert(s[i].key@ != s.last().key@);
        assert(edges_map(s.drop_last()).insert(e.key@, e.child.view()).insert(s.last().key@, s.last().child.view())
            =~= edges_map(s.drop_last()).insert(s.last().key@, s.last().child.view()).insert(e.key@, e.child.view()));
    }
}

impl<V> Trie<V> {
    /// The representation invariant: there is a root, each node's
    /// association list has pairwise distinct keys, and every definite edge
    /// points at a strictly deeper node of the arena.
    pub closed spec fn wf(&self) -> bool {
        &&& self.nodes@.len() >= 1
        &&& forall|n: int|
            0 <= n < self.nodes@.len()
                ==> edges_unique(#[trigger] self.nodes@[n].edges@)
                    && edge_targets_ok(self.nodes@[n].edges@, n, self.nodes@.len() as int)
    }

    /// A well-formed trie has a well-formed view.
    pub proof fn lemma_wf_view(&self)
        requires
            self.wf(),
        ensures
            wf_trie(self@),
    {
        assert forall|n: int, k: Seq<char>|
            0 <= n < self@.nodes.len() && self@.nodes[n].edges.contains_key(k)
            implies ((#[trigger] self@.nodes[n].edges[k]) matches SpecEdge::Definite(j)
                ==> n < j < self@.nodes.len()) by {
            let s = self.nodes@[n].edges@;
            lemma_edges_map_contains(s, k);
            let i = choose|i: int| 0 <= i < s.len() && (#[trigger] s[i].key@) == k;
            lemma_edges_map_at(s, i);
        }
    }

    /// An empty dictionary: just a root node, holding no value.
    pub fn new() -> (t: Trie<V>)
        ensures
            t.wf(),
            t@ == empty_trie::<V>(),
    {
        let mut nodes: Vec<Node<V>> = Vec::new();
        nodes.push(Node { value: None, edges: Vec::new() });
        let t = Trie { nodes };
        proof {
            assert(t@.nodes[0].edges =~= Map::<Seq<char>, SpecEdge>::empty());
            assert(t@ =~~= empty_trie::<V>());
        }
        t
    }

    /// The position of `key` in the association list of node `at`, if any.
    fn find_edge(&self, at: usize, key: &String) -> (r: Option<usize>)
        requires
            at < self.nodes@.len(),
        ensures
            match r {
                Some(m) => m < self.nodes@[at as int].edges@.len()
                    && self.nodes@[at as int].edges@[m as int].key@ == key@,
                None => forall|i: int|
                    0 <= i < self.nodes@[at as int].edges@.len()
                        ==> (#[trigger] self.nodes@[at as int].edges@[i].key@) != key@,
            },
    {
        let edges = &self.nodes[at].edges;
        let mut m: usize = 0;
        while m < edges.len()
            invariant
                m <= edges@.len(),
                edges == &self.nodes@[at as int].edges,
                forall|i: int| 0 <= i < m ==> (#[trigger] edges@[i].key@) != key@,
            decreases edges@.len() - m,
        {
            if edges[m].key == *key {
                return Some(m);
            }
            m += 1;
        }
        None
    }

    /// Three-way lookup of `key` among the edges of node `at`, as the model's
    /// `edge_state` answers it.
    fn child_for(&self, at: usize, key: &String) -> (r: ChildState)
        requires
            self.wf(),
            at < self.nodes@.len(),
        ensures
            match r {
                ChildState::Definite(j) => edge_state(self@, at as int, key@)
                    == SpecEdgeState::Definite(j as int) && at < j < self.nodes@.len(),
                ChildState::Conflicted => edge_state(self@, at as int, key@)
                    == SpecEdgeState::Conflicted,
                ChildState::Absent => edge_state(self@, at as int, key@) == SpecEdgeState::Absent,
            },
    {
        let r = match self.find_edge(at, key) {
            Some(m) => {
                proof {
                    lemma_edges_map_at(self.nodes@[at as int].edges@, m as int);
                }
                match self.nodes[at].edges[m].child {
                    ChildRef::Definite(j) => ChildState::Definite(j),
                    ChildRef::Conflicted => ChildState::Conflicted,
                }
            },
            None => {
                proof {
                    lemma_edges_map_contains(self.nodes@[at as int].edges@, key@);
                }
                ChildState::Absent
            },
        };
        r
    }

    /// The child node the canonical key `key` of node `at` leads to,
    /// creating a fresh one if the edge is missing. `insert` never calls
    /// this on a conflicted edge.
    fn set_canonical_child(&mut self, at: usize, key: String) -> (j: usize)
        requires
            old(self).wf(),
            at < old(self)@.nodes.len(),
            edge_state(old(self)@, at as int, key@) !is Conflicted,
        ensures
            final(self).wf(),
            at < j < final(self)@.nodes.len(),
            match edge_state(old(self)@, at as int, key@) {
                SpecEdgeState::Definite(x) => j as int == x && final(self)@ == old(self)@,
                SpecEdgeState::Absent => j as int == old(self)@.nodes.len() && final(self)@
                    == with_edge(with_new_node(old(self)@), at as int, key@, SpecEdge::Definite(j as int)),
                SpecEdgeState::Conflicted => false,
            },
    {
        match self.find_edge(at, &key) {
            Some(m) => {
                proof {
                    lemma_edges_map_at(self.nodes@[at as int].edges@, m as int);
                }
                match self.nodes[at].edges[m].child {
                    ChildRef::Definite(j) => j,
                    ChildRef::Conflicted => vstd::pervasive::unreached(),
                }
            },
            None => {
                proof {
                    lemma_edges_map_contains(self.nodes@[at as int].edges@, key@);
                }
                let j = self.nodes.len();
                self.nodes.push(Node { value: None, edges: Vec::new() });
                let node = &mut self.nodes[at];
                node.edges.push(Edge { key, child: ChildRef::Definite(j) });
                proof {
                    let pre = old(self)@;
                    let post = self@;
                    let k = old(self).nodes@[at as int].edges@.len() as int;
                    lemma_edges_map_push(
                        old(self).nodes@[at as int].edges@,
                        self.nodes@[at as int].edges@[k],
                    );
                    assert(edges_map(Seq::<Edge>::empty()) =~= Map::<Seq<char>, SpecEdge>::empty());
                    assert(self.nodes@[j as int].edges@ =~= Seq::<Edge>::empty());
                    let tgt = with_edge(with_new_node(pre), at as int, self.nodes@[at as int].edges@[k].key@, SpecEdge::Definite(j as int));
                    assert(post.nodes[at as int].edges
                        =~= pre.nodes[at as int].edges.insert(self.nodes@[at as int].edges@[k].key@, SpecEdge::Definite(j as int)));
                    assert(post =~~= tgt);
                    assert forall|n: int| 0 <= n < self.nodes@.len()
                        implies edges_unique(#[trigger] self.nodes@[n].edges@)
                            && edge_targets_ok(self.nodes@[n].edges@, n, self.nodes@.len() as int) by {
                        if n < old(self).nodes@.len() && n != at {
                            assert(self.nodes@[n] == old(self).nodes@[n]);
                        }
                        if n == j {
                            assert(self.nodes@[n].edges@ =~= Seq::<Edge>::empty());
                        }
                    }
                }
                j
            },
        }
    }

    /// Register `key` at node `at` as an alias for the child `target`:
    /// a missing edge becomes definite, a definite edge at a different
    /// child becomes conflicted, anything else is left alone.
    fn register_alias(&mut self, at: usize, key: String, target: usize)
        requires
            old(self).wf(),
            at < old(self)@.nodes.len(),
            at < target < old(self)@.nodes.len(),
        ensures
            final(self).wf(),
            final(self)@ == alias_registered(old(self)@, at as int, key@, target as int),
    {
        match self.find_edge(at, &key) {
            Some(m) => {
                proof {
                    lemma_edges_map_at(self.nodes@[at as int].edges@, m as int);
                }
                match self.nodes[at].edges[m].child {
                    ChildRef::Definite(x) => {
                        if x != target {
                            let node = &mut self.nodes[at];
                            let e = &mut node.edges[m];
                            e.child = ChildRef::Conflicted;
                            proof {
                                let pre = old(self)@;
                                let post = self@;
                                lemma_edges_map_update(
                                    old(self).nodes@[at as int].edges@,
                                    m as int,
                                    self.nodes@[at as int].edges@[m as int],
                                );
                                let tgt = with_edge(pre, at as int, key@, SpecEdge::Conflicted);
                                assert(post.nodes[at as int].edges
                                    =~= pre.nodes[at as int].edges.insert(key@, SpecEdge::Conflicted));
                                assert(post =~~= tgt);
                                assert forall|n: int| 0 <= n < self.nodes@.len()
                                    implies edges_unique(#[trigger] self.nodes@[n].edges@)
                                        && edge_targets_ok(self.nodes@[n].edges@, n, self.nodes@.len() as int) by {
                                    if n != at {
                                        assert(self.nodes@[n] == old(self).nodes@[n]);
                                    }
                                }
                            }
                        }
                    },
                    ChildRef::Conflicted => {},
                }
            },
            None => {
                proof {
                    lemma_edges_map_contains(self.nodes@[at as int].edges@, key@);
                }
                let node = &mut self.nodes[at];
                node.edges.push(Edge { key, child: ChildRef::Definite(target) });
                proof {
                    let pre = old(self)@;
                    let post = self@;
                    let k = old(self).nodes@[at as int].edges@.len() as int;
                    lemma_edges_map_push(
                        old(self).nodes@[at as int].edges@,
                        self.nodes@[at as int].edges@[k],
                    );
                    let tgt = with_edge(pre, at as int, self.nodes@[at as int].edges@[k].key@, SpecEdge::Definite(target as int));
                    assert(post.nodes[at as int].edges
                        =~= pre.nodes[at as int].edges.insert(self.nodes@[at as int].edges@[k].key@, SpecEdge::Definite(target as int)));
                    assert(post =~~= tgt);
                    assert forall|n: int| 0 <= n < self.nodes@.len()
                        implies edges_unique(#[trigger] self.nodes@[n].edges@)
                            && edge_targets_ok(self.nodes@[n].edges@, n, self.nodes@.len() as int) by {
                        if n != at {
                            assert(self.nodes@[n] == old(self).nodes@[n]);
                        }
                    }
                }
            },
        }
    }

    /// Walk `path[i..]` from node `at` without mutating anything, and say
    /// which node it reaches, or whether it runs into a conflicted or a
    /// missing edge first.
    fn resolve_path(&self, at: usize, path: &[&str], i: usize) -> (r: UniqueOption<usize>)
        requires
            self.wf(),
            at < self@.nodes.len(),
            i <= path@.len(),
        ensures
            match r {
                UniqueOption::Unique(j) => resolve_from(self@, at as int, path.deep_view().skip(i as int))
                    == SpecResolved::Reached(j as int) && (j as int) < self@.nodes.len(),
                UniqueOption::NonUnique => resolve_from(self@, at as int, path.deep_view().skip(i as int))
                    is Ambiguous,
                UniqueOption::Absent => resolve_from(self@, at as int, path.deep_view().skip(i as int))
                    is Missing,
            },
        decreases path@.len() - i,
    {
        if i == path.len() {
            UniqueOption::Unique(at)
        } else {
            let key: String = path[i].to_string();
            proof {
                assert(path.deep_view().skip(i as int)[0] == key@);
                assert(path.deep_view().skip(i as int).skip(1) =~= path.deep_view().skip(i as int + 1));
            }
            match self.child_for(at, &key) {
                ChildState::Definite(j) => self.resolve_path(j, path, i + 1),
                ChildState::Conflicted => UniqueOption::NonUnique,
                ChildState::Absent => UniqueOption::Absent,
            }
        }
    }

    /// Look the value stored under `path` up. The path may mix canonical
    /// keys and aliases; a path through a conflicted alias is reported as
    /// `NonUnique`, one through a missing edge, or ending at a node that
    /// holds no value, as `Absent`.
    pub fn get(&self, path: &[&str]) -> (r: UniqueOption<&V>)
        requires
            self.wf(),
        ensures
            match r {
                UniqueOption::Unique(v) => answer(self@, path.deep_view()) == SpecAnswer::Found(*v),
                UniqueOption::NonUnique => answer(self@, path.deep_view()) is Ambiguous,
                UniqueOption::Absent => answer(self@, path.deep_view()) is Absent,
            },
    {
        proof {
            assert(path.deep_view().skip(0) =~= path.deep_view());
        }
        match self.resolve_path(0, path, 0) {
            UniqueOption::Unique(j) => match &self.nodes[j].value {
                Some(v) => UniqueOption::Unique(v),
                None => UniqueOption::Absent,
            },
            UniqueOption::NonUnique => UniqueOption::NonUnique,
            UniqueOption::Absent => UniqueOption::Absent,
        }
    }

    /// Like `get`, but the found value is handed back as a mutable
    /// reference, so the caller can overwrite it in place. Ambiguity and
    /// absence are answered under exactly the rules of `get`, and in those
    /// cases nothing can be mutated.
    pub fn get_mut(&mut self, path: &[&str]) -> (r: UniqueOption<&mut V>)
        requires
            old(self).wf(),
        ensures
            final(self).wf(),
            r is Unique ==> resolve(old(self)@, path.deep_view()) is Reached
                && old(self)@.nodes[reached_at(resolve(old(self)@, path.deep_view()))].value
                    == Some(*r->Unique_0)
                && final(self)@ =~~= with_value(
                    old(self)@,
                    reached_at(resolve(old(self)@, path.deep_view())),
                    Some(*final(r->Unique_0)),
                ),
            r is NonUnique ==> answer(old(self)@, path.deep_view()) is Ambiguous
                && final(self)@ == old(self)@,
            r is Absent ==> answer(old(self)@, path.deep_view()) is Absent
                && final(self)@ == old(self)@,
    {
        proof {
            assert(path.deep_view().skip(0) =~= path.deep_view());
        }
        match self.resolve_path(0, path, 0) {
            UniqueOption::Unique(j) => {
                if self.nodes[j].value.is_some() {
                    let node = &mut self.nodes[j];
                    match node.value.as_mut() {
                        Some(m) => UniqueOption::Unique(m),
                        None => vstd::pervasive::unreached(),
                    }
                } else {
                    UniqueOption::Absent
                }
            },
            UniqueOption::NonUnique => UniqueOption::NonUnique,
            UniqueOption::Absent => UniqueOption::Absent,
        }
    }

    /// Store `value` at the node the canonical `path` leads to, creating
    /// missing nodes on the way; an existing value at that node is
    /// overwritten. A path that runs into an edge already conflicted by
    /// aliasing leaves the dictionary as the walk left it and stores
    /// nothing (`insert` only ever meets such an edge when a caller reuses
    /// a conflicted alias as a canonical key).
    pub fn insert(&mut self, path: &[&str], value: V)
        requires
            old(self).wf(),
            path@.len() > 0,
        ensures
            final(self).wf(),
            final(self)@ == inserted(old(self)@, path.deep_view(), value),
    {
        proof {
            assert(path.deep_view().skip(0) =~= path.deep_view());
        }
        self.insert_from(0, path, 0, value);
    }

    /// The walk of `insert` over `path[i..]`, starting at node `at`.
    fn insert_from(&mut self, at: usize, path: &[&str], i: usize, value: V)
        requires
            old(self).wf(),
            at < old(self)@.nodes.len(),
            i < path@.len(),
        ensures
            final(self).wf(),
            final(self)@ == inserted_from(old(self)@, at as int, path.deep_view().skip(i as int), value),
        decreases path@.len() - i,
    {
        let key: String = path[i].to_string();
        proof {
            assert(path.deep_view().skip(i as int)[0] == key@);
            assert(path.deep_view().skip(i as int).skip(1) =~= path.deep_view().skip(i as int + 1));
        }
        match self.child_for(at, &key) {
            ChildState::Conflicted => {},
            _ => {
                let j = self.set_canonical_child(at, key);
                if i + 1 == path.len() {
                    let ghost mid = *self;
                    let node = &mut self.nodes[j];
                    node.value = Some(value);
                    proof {
                        assert(self@ =~~= with_value(mid@, j as int, Some(value))) by {
                            assert(forall|n: int|
                                0 <= n < self@.nodes.len() && n != j ==> self@.nodes[n] == mid@.nodes[n]);
                            assert(self@.nodes[j as int].value == Some(value));
                            assert(self@.nodes[j as int].edges == mid@.nodes[j as int].edges);
                        }
                        assert forall|n: int| 0 <= n < self.nodes@.len()
                            implies edges_unique(#[trigger] self.nodes@[n].edges@)
                                && edge_targets_ok(self.nodes@[n].edges@, n, self.nodes@.len() as int) by {
                            if n != j {
                                assert(self.nodes@[n] == mid.nodes@[n]);
                            } else {
                                assert(self.nodes@[n].edges@ == mid.nodes@[n].edges@);
                            }
                        }
                    }
                } else {
                    self.insert_from(j, path, i + 1, value);
                }
            },
        }
    }

    /// Register every alias of `list[m..]` at node `at` for the child
    /// `target`, in order.
    fn register_aliases_from(&mut self, at: usize, list: &[&str], m: usize, target: usize)
        requires
            old(self).wf(),
            at < old(self)@.nodes.len(),
            at < target && (target as int) < old(self)@.nodes.len(),
            m <= list@.len(),
        ensures
            final(self).wf(),
            final(self)@ == aliases_registered(
                old(self)@,
                at as int,
                list.deep_view().skip(m as int),
                target as int,
            ),
        decreases list@.len() - m,
    {
        if m == list.len() {
            return;
        }
        let key: String = list[m].to_string();
        proof {
            assert(list.deep_view().skip(m as int)[0] == key@);
            assert(list.deep_view().skip(m as int).skip(1) =~= list.deep_view().skip(m as int + 1));
        }
        self.register_alias(at, key, target);
        self.register_aliases_from(at, list, m + 1, target);
    }

    /// The walk of a validated `update_aliases` over `path[i..]` from node
    /// `at`: register this position's aliases beside the canonical edge,
    /// then descend through it.
    fn apply_aliases_from(&mut self, at: usize, path: &[&str], aliases: &[&[&str]], i: usize)
        requires
            old(self).wf(),
            at < old(self)@.nodes.len(),
            i <= path@.len(),
            aliases@.len() == path@.len(),
            resolve_from(old(self)@, at as int, path.deep_view().skip(i as int)) is Reached,
        ensures
            final(self).wf(),
            final(self)@ == aliases_applied_from(
                old(self)@,
                at as int,
                path.deep_view().skip(i as int),
                aliases.deep_view().skip(i as int),
            ),
        decreases path@.len() - i,
    {
        if i == path.len() {
            return;
        }
        let key: String = path[i].to_string();
        proof {
            assert(path.deep_view().skip(i as int)[0] == key@);
            assert(path.deep_view().skip(i as int).skip(1) =~= path.deep_view().skip(i as int + 1));
            assert(aliases.deep_view().skip(i as int)[0] == aliases@[i as int].deep_view());
            assert(aliases.deep_view().skip(i as int).skip(1) =~= aliases.deep_view().skip(i as int + 1));
        }
        match self.child_for(at, &key) {
            ChildState::Definite(next) => {
                let ghost pre = *self;
                let position_aliases: &[&str] = aliases[i];
                proof {
                    assert(position_aliases.deep_view().skip(0) =~= position_aliases.deep_view());
                }
                self.register_aliases_from(at, position_aliases, 0, next);
                proof {
                    let pv = path.deep_view().skip(i as int + 1);
                    pre.lemma_wf_view();
                    lemma_registered_frame(pre@, at as int, position_aliases.deep_view(), next as int);
                    lemma_registered_keeps_canonical(
                        pre@,
                        at as int,
                        position_aliases.deep_view(),
                        next as int,
                        key@,
                    );
                    lemma_resolve_agree(pre@, self@, at as int + 1, next as int, pv);
                }
                self.apply_aliases_from(next, path, aliases, i + 1);
            },
            _ => {
                proof {
                    assert(false);
                }
            },
        }
    }

    /// Register aliases along the already-inserted canonical `path`:
    /// `aliases` holds one list of alternate keys for every path position.
    /// The path is first validated against the current dictionary; if any
    /// prefix runs into a conflicted or missing edge, nothing is changed
    /// and the call reports failure. Otherwise every alias of `aliases[i]`
    /// is registered beside the canonical key `path[i]`, and a collision
    /// with an edge that already leads elsewhere marks that alias
    /// permanently conflicted.
    pub fn update_aliases(&mut self, path: &[&str], aliases: &[&[&str]]) -> (r: bool)
        requires
            old(self).wf(),
            aliases@.len() == path@.len(),
        ensures
            final(self).wf(),
            r == (resolve(old(self)@, path.deep_view()) is Reached),
            r ==> final(self)@ == aliases_applied(
                old(self)@,
                path.deep_view(),
                aliases.deep_view(),
            ),
            !r ==> final(self)@ == old(self)@,
    {
        proof {
            assert(path.deep_view().skip(0) =~= path.deep_view());
            assert(aliases.deep_view().skip(0) =~= aliases.deep_view());
        }
        match self.resolve_path(0, path, 0) {
            UniqueOption::Unique(_) => {
                self.apply_aliases_from(0, path, aliases, 0);
                true
            },
            _ => false,
        }
    }
}

/// The three-way state of one key at one node.
enum ChildState {
    Definite(usize),
    Conflicted,
    Absent,
}

} // verus!
