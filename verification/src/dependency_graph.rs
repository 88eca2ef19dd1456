//! A dependency graph between scoped work items.
//!
//! Nodes are kept in identifier order and edges in (dependent, prerequisite)
//! order, so every query answers in a deterministic order.

use vstd::prelude::*;

use crate::order::{
    first_match, keep_where, lemma_first_match, lemma_first_match_at, lemma_keep_where,
    lemma_lex_irreflexive, lemma_lex_total, lemma_lex_transitive,
    lemma_strictly_sorted_insert, lemma_strictly_sorted_keep_where, lemma_strictly_sorted_remove,
    lemma_strictly_sorted_unique, lex_lt, strict_total, strictly_sorted, text_less,
};

verus! {

/// A stable identity for a dependency node.
///
/// The scope is part of the identity so that, for example, task `42` in two
/// repositories cannot accidentally become the same graph node.
#[derive(Debug, PartialEq, Eq)]
pub struct DependencyNodeId {
    pub scope: String,
    pub value: String,
}

pub type IdView = (Seq<char>, Seq<char>);

impl DependencyNodeId {
    pub open spec fn view(self) -> IdView {
        (self.scope@, self.value@)
    }

    pub fn new(scope: &str, value: &str) -> (id: Self)
        ensures
            id.view() == (scope@, value@),
    {
        DependencyNodeId { scope: scope.to_owned(), value: value.to_owned() }
    }

    pub fn same_as(&self, other: &Self) -> (same: bool)
        ensures
            same == (self.view() == other.view()),
    {
        self.scope == other.scope && self.value == other.value
    }

    pub fn less_than(&self, other: &Self) -> (less: bool)
        ensures
            less == id_lt(self.view(), other.view()),
    {
        text_less(self.scope.as_str(), other.scope.as_str()) || (self.scope == other.scope
            && text_less(self.value.as_str(), other.value.as_str()))
    }
}

impl Clone for DependencyNodeId {
    fn clone(&self) -> (copy: Self)
        ensures
            copy == *self,
    {
        DependencyNodeId { scope: self.scope.clone(), value: self.value.clone() }
    }
}

/// Identifier order: by scope, then by value.
pub open spec fn id_lt(a: IdView, b: IdView) -> bool {
    lex_lt(a.0, b.0) || (a.0 == b.0 && lex_lt(a.1, b.1))
}

pub open spec fn id_order() -> spec_fn(IdView, IdView) -> bool {
    |a: IdView, b: IdView| id_lt(a, b)
}

/// Edge order: by dependent, then by prerequisite.
pub open spec fn edge_lt(e: (IdView, IdView), f: (IdView, IdView)) -> bool {
    id_lt(e.1, f.1) || (e.1 == f.1 && id_lt(e.0, f.0))
}

pub open spec fn edge_order() -> spec_fn((IdView, IdView), (IdView, IdView)) -> bool {
    |e: (IdView, IdView), f: (IdView, IdView)| edge_lt(e, f)
}

pub proof fn lemma_id_order()
    ensures
        strict_total(id_order()),
{
    assert forall|a: IdView| !#[trigger] id_order()(a, a) by {
        lemma_lex_irreflexive(a.0);
        lemma_lex_irreflexive(a.1);
    }
    assert forall|a: IdView, b: IdView, c: IdView|
        #[trigger] id_order()(a, b) && #[trigger] id_order()(b, c) implies id_order()(a, c) by {
        if lex_lt(a.0, b.0) && lex_lt(b.0, c.0) {
            lemma_lex_transitive(a.0, b.0, c.0);
        }
        if lex_lt(a.1, b.1) && lex_lt(b.1, c.1) {
            lemma_lex_transitive(a.1, b.1, c.1);
        }
    }
    assert forall|a: IdView, b: IdView| a != b implies #[trigger] id_order()(a, b)
        || #[trigger] id_order()(b, a) by {
        if a.0 != b.0 {
            lemma_lex_total(a.0, b.0);
        } else {
            assert(a.1 != b.1);
            lemma_lex_total(a.1, b.1);
        }
    }
}

pub proof fn lemma_edge_order()
    ensures
        strict_total(edge_order()),
{
    lemma_id_order();
    assert forall|a: (IdView, IdView)| !#[trigger] edge_order()(a, a) by {
        assert(!id_order()(a.0, a.0));
        assert(!id_order()(a.1, a.1));
    }
    assert forall|a: (IdView, IdView), b: (IdView, IdView), c: (IdView, IdView)|
        #[trigger] edge_order()(a, b) && #[trigger] edge_order()(b, c) implies edge_order()(
        a,
        c,
    ) by {
        if id_lt(a.1, b.1) && id_lt(b.1, c.1) {
            assert(id_order()(a.1, b.1) && id_order()(b.1, c.1));
        }
        if id_lt(a.0, b.0) && id_lt(b.0, c.0) {
            assert(id_order()(a.0, b.0) && id_order()(b.0, c.0));
        }
    }
    assert forall|a: (IdView, IdView), b: (IdView, IdView)| a != b implies #[trigger] edge_order()(
        a,
        b,
    ) || #[trigger] edge_order()(b, a) by {
        if a.1 != b.1 {
            assert(id_order()(a.1, b.1) || id_order()(b.1, a.1));
        } else {
            assert(a.0 != b.0);
            assert(id_order()(a.0, b.0) || id_order()(b.0, a.0));
        }
    }
}

#[derive(Debug, PartialEq, Eq)]
pub struct DependencyNode {
    pub id: DependencyNodeId,
    pub label: String,
    pub resolved: bool,
}

pub type NodeView = (IdView, (Seq<char>, bool));

impl DependencyNode {
    pub open spec fn view(self) -> NodeView {
        (self.id.view(), (self.label@, self.resolved))
    }
}

impl Clone for DependencyNode {
    fn clone(&self) -> (copy: Self)
        ensures
            copy == *self,
    {
        DependencyNode { id: self.id.clone(), label: self.label.clone(), resolved: self.resolved }
    }
}

#[derive(Debug, PartialEq, Eq)]
pub enum DependencyGraphError {
    DuplicateNode(DependencyNodeId),
    UnknownNode(DependencyNodeId),
    DuplicateEdge { prerequisite: DependencyNodeId, dependent: DependencyNodeId },
    SelfDependency(DependencyNodeId),
}

/// The outcome of validating a graph.
#[derive(Debug, PartialEq, Eq)]
pub struct DependencyGraphValidation {
    /// Strongly connected components containing cycles, in deterministic order.
    pub cycles: Vec<Vec<DependencyNodeId>>,
}

/// The identifiers of a list of nodes.
pub open spec fn id_views(ids: Vec<DependencyNodeId>) -> Seq<IdView> {
    ids@.map_values(|i: DependencyNodeId| i.view())
}

/// Edges that do not touch `id`.
pub open spec fn untouched(id: IdView) -> spec_fn((IdView, IdView)) -> bool {
    |e: (IdView, IdView)| e.0 != id && e.1 != id
}

/// Edges into `id`: those whose dependent is `id`.
pub open spec fn depends_on_it(id: IdView) -> spec_fn((IdView, IdView)) -> bool {
    |e: (IdView, IdView)| e.1 == id
}

/// Edges out of `id`: those whose prerequisite is `id`.
pub open spec fn required_by_it(id: IdView) -> spec_fn((IdView, IdView)) -> bool {
    |e: (IdView, IdView)| e.0 == id
}

/// `path` is a non-empty walk along edges (prerequisite to dependent).
pub open spec fn is_walk(edges: Seq<(IdView, IdView)>, path: Seq<IdView>) -> bool {
    &&& path.len() > 0
    &&& forall|i: int|
        0 <= i < path.len() - 1 ==> #[trigger] edges.contains((path[i], path[i + 1]))
}

/// `b` can be reached from `a` by following zero or more edges.
pub open spec fn reaches(edges: Seq<(IdView, IdView)>, a: IdView, b: IdView) -> bool {
    exists|path: Seq<IdView>| #[trigger] is_walk(edges, path) && path[0] == a && path.last() == b
}

pub proof fn lemma_reaches_self(edges: Seq<(IdView, IdView)>, a: IdView)
    ensures
        reaches(edges, a, a),
{
    let path = seq![a];
    assert(is_walk(edges, path));
}

pub proof fn lemma_reaches_step(edges: Seq<(IdView, IdView)>, a: IdView, b: IdView, c: IdView)
    requires
        reaches(edges, a, b),
        edges.contains((b, c)),
    ensures
        reaches(edges, a, c),
{
    let path = choose|path: Seq<IdView>| #[trigger] is_walk(edges, path) && path[0] == a && path.last() == b;
    let longer = path.push(c);
    assert forall|i: int| 0 <= i < longer.len() - 1 implies #[trigger] edges.contains((longer[i], longer[i + 1])) by {
        if i < path.len() - 1 {
            assert(longer[i] == path[i] && longer[i + 1] == path[i + 1]);
        } else {
            assert(longer[i] == b && longer[i + 1] == c);
        }
    }
    assert(is_walk(edges, longer));
}

/// Indices into `ids` that name the two ends of each edge.
pub open spec fn indexes_edges(
    ids: Seq<IdView>,
    edges: Seq<(IdView, IdView)>,
    index: Seq<(usize, usize)>,
) -> bool {
    &&& index.len() == edges.len()
    &&& forall|k: int|
        #![trigger index[k]]
        0 <= k < index.len() ==> index[k].0 < ids.len() && index[k].1 < ids.len() && ids[index[k].0 as int]
            == edges[k].0 && ids[index[k].1 as int] == edges[k].1
}

pub open spec fn distinct(ids: Seq<IdView>) -> bool {
    forall|i: int, j: int| 0 <= i < ids.len() && 0 <= j < ids.len() && #[trigger] ids[i] == #[trigger] ids[j] ==> i == j
}

/// A set of visited nodes closed under edges contains everything reachable
/// from a visited start.
pub proof fn lemma_closed_reaches(
    ids: Seq<IdView>,
    edges: Seq<(IdView, IdView)>,
    index: Seq<(usize, usize)>,
    visited: Seq<bool>,
    start: int,
    path: Seq<IdView>,
)
    requires
        indexes_edges(ids, edges, index),
        distinct(ids),
        visited.len() == ids.len(),
        forall|k: int| 0 <= k < index.len() && #[trigger] visited[index[k].0 as int] ==> visited[index[k].1 as int],
        0 <= start < ids.len(),
        visited[start],
        is_walk(edges, path),
        path[0] == ids[start],
    ensures
        exists|j: int| 0 <= j < ids.len() && ids[j] == path.last() && #[trigger] visited[j],
    decreases path.len(),
{
    if path.len() == 1 {
        assert(visited[start]);
    } else {
        let prefix = path.drop_last();
        assert forall|i: int| 0 <= i < prefix.len() - 1 implies #[trigger] edges.contains((prefix[i], prefix[i + 1])) by {
            assert(prefix[i] == path[i] && prefix[i + 1] == path[i + 1]);
            assert(edges.contains((path[i], path[i + 1])));
        }
        lemma_closed_reaches(ids, edges, index, visited, start, prefix);
        let j = choose|j: int| 0 <= j < ids.len() && ids[j] == prefix.last() && #[trigger] visited[j];
        let last = path.len() - 2;
        assert(edges.contains((path[last], path[last + 1])));
        let k = choose|k: int| 0 <= k < edges.len() && edges[k] == (path[last], path[last + 1]);
        assert(index[k].0 < ids.len());
        assert(ids[index[k].0 as int] == path[last]);
        assert(ids[j] == path[last]);
        assert(index[k].0 as int == j);
        assert(visited[index[k].1 as int]);
        assert(ids[index[k].1 as int] == path.last());
    }
}

pub open spec fn count_true(s: Seq<bool>) -> nat
    decreases s.len(),
{
    if s.len() == 0 {
        0
    } else {
        count_true(s.drop_last()) + if s.last() {
            1nat
        } else {
            0nat
        }
    }
}

pub proof fn lemma_count_true(s: Seq<bool>, i: int)
    requires
        0 <= i < s.len(),
    ensures
        count_true(s) <= s.len(),
        !s[i] ==> count_true(s.update(i, true)) == count_true(s) + 1,
        s[i] ==> count_true(s.update(i, true)) == count_true(s),
    decreases s.len(),
{
    if i == s.len() - 1 {
        assert(s.update(i, true).drop_last() =~= s.drop_last());
        lemma_count_bound(s.drop_last());
    } else {
        lemma_count_true(s.drop_last(), i);
        assert(s.update(i, true).drop_last() =~= s.drop_last().update(i, true));
    }
}

pub proof fn lemma_count_bound(s: Seq<bool>)
    ensures
        count_true(s) <= s.len(),
    decreases s.len(),
{
    if s.len() > 0 {
        lemma_count_bound(s.drop_last());
    }
}

/// A dependency graph: nodes in identifier order, and edges from a
/// prerequisite to the node that depends on it, in (dependent, prerequisite)
/// order.
#[derive(Debug, PartialEq, Eq)]
pub struct DependencyGraph {
    nodes: Vec<DependencyNode>,
    edges: Vec<(DependencyNodeId, DependencyNodeId)>,
}

pub open spec fn edge_view(e: (DependencyNodeId, DependencyNodeId)) -> (IdView, IdView) {
    (e.0.view(), e.1.view())
}

impl Default for DependencyGraph {
    fn default() -> (graph: Self)
        ensures
            graph.node_views() == Seq::<NodeView>::empty(),
            graph.edge_views() == Seq::<(IdView, IdView)>::empty(),
            graph.wf(),
    {
        DependencyGraph { nodes: Vec::new(), edges: Vec::new() }
    }
}

impl DependencyGraph {
    /// The nodes, in identifier order.
    pub closed spec fn node_views(self) -> Seq<NodeView> {
        self.nodes@.map_values(|n: DependencyNode| n.view())
    }

    /// The edges `(prerequisite, dependent)`, in (dependent, prerequisite) order.
    pub closed spec fn edge_views(self) -> Seq<(IdView, IdView)> {
        self.edges@.map_values(|e: (DependencyNodeId, DependencyNodeId)| edge_view(e))
    }

    pub open spec fn node_ids(self) -> Seq<IdView> {
        self.node_views().map_values(|n: NodeView| n.0)
    }

    pub open spec fn has_node(self, id: IdView) -> bool {
        self.node_ids().contains(id)
    }

    pub open spec fn has_edge(self, prerequisite: IdView, dependent: IdView) -> bool {
        self.edge_views().contains((prerequisite, dependent))
    }

    /// Whether the node `id` is recorded as resolved.
    pub open spec fn is_resolved(self, id: IdView) -> bool {
        exists|i: int|
            0 <= i < self.node_views().len() && #[trigger] self.node_views()[i].0 == id
                && self.node_views()[i].1.1
    }

    /// Nodes in strict identifier order, edges in strict edge order, and every
    /// edge joins two distinct existing nodes.
    pub open spec fn wf(self) -> bool {
        &&& strictly_sorted(self.node_ids(), id_order())
        &&& strictly_sorted(self.edge_views(), edge_order())
        &&& forall|k: int|
            #![trigger self.edge_views()[k]]
            0 <= k < self.edge_views().len() ==> self.has_node(self.edge_views()[k].0)
                && self.has_node(self.edge_views()[k].1) && self.edge_views()[k].0
                != self.edge_views()[k].1
    }

    /// Where `id` belongs among the nodes.
    pub open spec fn node_position(self, id: IdView) -> nat {
        match first_match(self.node_ids(), |x: IdView| !id_lt(x, id)) {
            Some(k) => k,
            None => self.node_ids().len(),
        }
    }

    /// Where an edge belongs among the edges.
    pub open spec fn edge_position(self, edge: (IdView, IdView)) -> nat {
        match first_match(self.edge_views(), |e: (IdView, IdView)| !edge_lt(e, edge)) {
            Some(k) => k,
            None => self.edge_views().len(),
        }
    }

    /// The index of the node `id`, when it exists.
    fn find_node(&self, id: &DependencyNodeId) -> (found: Result<usize, usize>)
        requires
            self.wf(),
        ensures
            match found {
                Ok(k) => k < self.node_ids().len() && self.node_ids()[k as int] == id.view()
                    && self.has_node(id.view()) && k == self.node_position(id.view()),
                Err(k) => !self.has_node(id.view()) && k == self.node_position(id.view()),
            },
    {
        proof {
            lemma_id_order();
        }
        let ghost ids = self.node_ids();
        let ghost pred = |x: IdView| !id_lt(x, id.view());
        let mut index: usize = 0;
        while index < self.nodes.len() && self.nodes[index].id.less_than(id)
            invariant
                index <= self.nodes@.len(),
                ids == self.node_ids(),
                ids.len() == self.nodes@.len(),
                pred == (|x: IdView| !id_lt(x, id.view())),
                forall|j: int| 0 <= j < index ==> !pred(#[trigger] ids[j]),
            decreases self.nodes.len() - index,
        {
            proof {
                assert(ids[index as int] == self.nodes@[index as int].id.view());
            }
            index = index + 1;
        }
        proof {
            if index < self.nodes@.len() {
                assert(ids[index as int] == self.nodes@[index as int].id.view());
            }
            lemma_first_match_at(ids, pred, index as int);
        }
        if index < self.nodes.len() && self.nodes[index].id.same_as(id) {
            proof {
                assert(ids[index as int] == self.nodes@[index as int].id.view());
            }
            Ok(index)
        } else {
            proof {
                if ids.contains(id.view()) {
                    let j = choose|j: int| 0 <= j < ids.len() && ids[j] == id.view();
                    if j < index {
                        assert(!pred(ids[j]));
                        assert(id_order()(id.view(), id.view()));
                    } else if j > index {
                        assert(ids[index as int] == self.nodes@[index as int].id.view());
                        assert(id_order()(ids[index as int], ids[j]));
                        assert(id.view() != ids[index as int]);
                        assert(id_order()(id.view(), ids[index as int]) || id_order()(
                            ids[index as int],
                            id.view(),
                        ));
                        assert(id_order()(id.view(), id.view()));
                    } else {
                        assert(ids[index as int] == self.nodes@[index as int].id.view());
                    }
                }
            }
            Err(index)
        }
    }

    /// Adds a node; an identifier that is already present is refused and the
    /// graph stays unchanged.
    pub fn add_node(&mut self, id: DependencyNodeId, label: String, resolved: bool) -> (result:
        Result<(), DependencyGraphError>)
        requires
            old(self).wf(),
        ensures
            final(self).wf(),
            final(self).edge_views() == old(self).edge_views(),
            old(self).has_node(id.view()) ==> result == Err::<(), DependencyGraphError>(
                DependencyGraphError::DuplicateNode(id),
            ) && final(self).node_views() == old(self).node_views(),
            !old(self).has_node(id.view()) ==> result is Ok && final(self).node_views() == old(
                self,
            ).node_views().insert(
                old(self).node_position(id.view()) as int,
                (id.view(), (label@, resolved)),
            ),
    {
        proof {
            lemma_id_order();
        }
        match self.find_node(&id) {
            Ok(_) => Err(DependencyGraphError::DuplicateNode(id)),
            Err(k) => {
                let ghost old_views = self.node_views();
                let ghost old_ids = self.node_ids();
                let ghost old_edges = self.edge_views();
                let ghost new_id = id.view();
                proof {
                    lemma_first_match(old_ids, |x: IdView| !id_lt(x, new_id));
                    if (k as int) < old_ids.len() {
                        assert(old_ids[k as int] != new_id);
                        assert(id_order()(new_id, old_ids[k as int]) || id_order()(
                            old_ids[k as int],
                            new_id,
                        ));
                    }
                    assert forall|j: int| 0 <= j < k implies id_order()(#[trigger] old_ids[j], new_id) by {}
                    lemma_strictly_sorted_insert(old_ids, k as int, new_id, id_order());
                }
                self.nodes.insert(k, DependencyNode { id, label, resolved });
                proof {
                    assert(self.node_views() =~= old_views.insert(k as int, (new_id, (label@, resolved))));
                    assert(self.node_ids() =~= old_ids.insert(k as int, new_id));
                    assert(self.edge_views() == old_edges);
                    assert forall|x: IdView| old_ids.contains(x) implies self.node_ids().contains(x) by {
                        let j = choose|j: int| 0 <= j < old_ids.len() && old_ids[j] == x;
                        if j < k {
                            assert(self.node_ids()[j] == x);
                        } else {
                            assert(self.node_ids()[j + 1] == x);
                        }
                    }
                    assert(strictly_sorted(self.node_ids(), id_order()));
                    assert forall|e: int| 0 <= e < self.edge_views().len() implies self.has_node(
                        #[trigger] self.edge_views()[e].0,
                    ) && self.has_node(self.edge_views()[e].1) && self.edge_views()[e].0
                        != self.edge_views()[e].1 by {
                        assert(old_edges[e] == self.edge_views()[e]);
                    }
                }
                Ok(())
            },
        }
    }

    /// Sets whether a node is resolved; an unknown identifier is refused.
    pub fn set_resolved(&mut self, id: &DependencyNodeId, resolved: bool) -> (result: Result<
        (),
        DependencyGraphError,
    >)
        requires
            old(self).wf(),
        ensures
            final(self).wf(),
            final(self).edge_views() == old(self).edge_views(),
            !old(self).has_node(id.view()) ==> result == Err::<(), DependencyGraphError>(
                DependencyGraphError::UnknownNode(*id),
            ) && final(self).node_views() == old(self).node_views(),
            old(self).has_node(id.view()) ==> result is Ok && final(self).node_views() == old(
                self,
            ).node_views().update(
                old(self).node_position(id.view()) as int,
                (id.view(), (old(self).node_views()[old(self).node_position(id.view()) as int].1.0, resolved)),
            ),
    {
        match self.find_node(id) {
            Err(_) => Err(DependencyGraphError::UnknownNode(id.clone())),
            Ok(k) => {
                let ghost old_views = self.node_views();
                let ghost old_ids = self.node_ids();
                let mut node = self.nodes.remove(k);
                node.resolved = resolved;
                self.nodes.insert(k, node);
                proof {
                    assert(self.node_views() =~= old_views.update(
                        k as int,
                        (id.view(), (old_views[k as int].1.0, resolved)),
                    ));
                    assert(self.node_ids() =~= old_ids);
                    assert(self.edge_views() == old(self).edge_views());
                    assert forall|e: int| 0 <= e < self.edge_views().len() implies self.has_node(
                        #[trigger] self.edge_views()[e].0,
                    ) && self.has_node(self.edge_views()[e].1) && self.edge_views()[e].0
                        != self.edge_views()[e].1 by {
                        assert(old(self).edge_views()[e] == self.edge_views()[e]);
                    }
                }
                Ok(())
            },
        }
    }

    /// The index of the edge `(prerequisite, dependent)`, when it exists.
    fn find_edge(&self, prerequisite: &DependencyNodeId, dependent: &DependencyNodeId) -> (found:
        Result<usize, usize>)
        requires
            self.wf(),
        ensures
            match found {
                Ok(k) => k < self.edge_views().len() && self.edge_views()[k as int] == (
                    prerequisite.view(),
                    dependent.view(),
                ) && self.has_edge(prerequisite.view(), dependent.view()),
                Err(k) => !self.has_edge(prerequisite.view(), dependent.view()) && k
                    == self.edge_position((prerequisite.view(), dependent.view())),
            },
    {
        proof {
            lemma_edge_order();
        }
        let ghost edges = self.edge_views();
        let ghost target = (prerequisite.view(), dependent.view());
        let ghost pred = |e: (IdView, IdView)| !edge_lt(e, target);
        let mut index: usize = 0;
        while index < self.edges.len() && (self.edges[index].1.less_than(dependent) || (
        self.edges[index].1.same_as(dependent) && self.edges[index].0.less_than(prerequisite)))
            invariant
                index <= self.edges@.len(),
                edges == self.edge_views(),
                edges.len() == self.edges@.len(),
                target == (prerequisite.view(), dependent.view()),
                pred == (|e: (IdView, IdView)| !edge_lt(e, target)),
                forall|j: int| 0 <= j < index ==> !pred(#[trigger] edges[j]),
            decreases self.edges.len() - index,
        {
            proof {
                assert(edges[index as int] == edge_view(self.edges@[index as int]));
            }
            index = index + 1;
        }
        proof {
            if index < self.edges@.len() {
                assert(edges[index as int] == edge_view(self.edges@[index as int]));
            }
            lemma_first_match_at(edges, pred, index as int);
        }
        if index < self.edges.len() && self.edges[index].0.same_as(prerequisite)
            && self.edges[index].1.same_as(dependent) {
            proof {
                assert(edges[index as int] == edge_view(self.edges@[index as int]));
            }
            Ok(index)
        } else {
            proof {
                if edges.contains(target) {
                    let j = choose|j: int| 0 <= j < edges.len() && edges[j] == target;
                    if j < index {
                        assert(!pred(edges[j]));
                        assert(edge_order()(target, target));
                    } else if j > index {
                        assert(edges[index as int] == edge_view(self.edges@[index as int]));
                        assert(edge_order()(edges[index as int], edges[j]));
                        assert(target != edges[index as int]);
                        assert(edge_order()(target, edges[index as int]) || edge_order()(
                            edges[index as int],
                            target,
                        ));
                        assert(edge_order()(target, target));
                    } else {
                        assert(edges[index as int] == edge_view(self.edges@[index as int]));
                    }
                }
            }
            Err(index)
        }
    }

    /// Adds an edge from a prerequisite to the node that depends on it.
    ///
    /// A self edge, an unknown endpoint (the prerequisite is checked first) and
    /// an edge that already exists are refused, and the graph stays unchanged.
    pub fn add_dependency(&mut self, prerequisite: &DependencyNodeId, dependent: &DependencyNodeId)
        -> (result: Result<(), DependencyGraphError>)
        requires
            old(self).wf(),
        ensures
            final(self).wf(),
            final(self).node_views() == old(self).node_views(),
            prerequisite.view() == dependent.view() ==> result == Err::<(), DependencyGraphError>(
                DependencyGraphError::SelfDependency(*prerequisite),
            ),
            prerequisite.view() != dependent.view() && !old(self).has_node(prerequisite.view())
                ==> result == Err::<(), DependencyGraphError>(
                DependencyGraphError::UnknownNode(*prerequisite),
            ),
            prerequisite.view() != dependent.view() && old(self).has_node(prerequisite.view())
                && !old(self).has_node(dependent.view()) ==> result == Err::<
                (),
                DependencyGraphError,
            >(DependencyGraphError::UnknownNode(*dependent)),
            prerequisite.view() != dependent.view() && old(self).has_node(prerequisite.view())
                && old(self).has_node(dependent.view()) && old(self).has_edge(
                prerequisite.view(),
                dependent.view(),
            ) ==> result == Err::<(), DependencyGraphError>(
                DependencyGraphError::DuplicateEdge {
                    prerequisite: *prerequisite,
                    dependent: *dependent,
                },
            ),
            result is Err ==> final(self).edge_views() == old(self).edge_views(),
            result is Ok <==> (prerequisite.view() != dependent.view() && old(self).has_node(
                prerequisite.view(),
            ) && old(self).has_node(dependent.view()) && !old(self).has_edge(
                prerequisite.view(),
                dependent.view(),
            )),
            result is Ok ==> final(self).edge_views() == old(self).edge_views().insert(
                old(self).edge_position((prerequisite.view(), dependent.view())) as int,
                (prerequisite.view(), dependent.view()),
            ),
    {
        if prerequisite.same_as(dependent) {
            return Err(DependencyGraphError::SelfDependency(prerequisite.clone()));
        }
        match self.find_node(prerequisite) {
            Err(_) => {
                return Err(DependencyGraphError::UnknownNode(prerequisite.clone()));
            },
            Ok(_) => {},
        }
        match self.find_node(dependent) {
            Err(_) => {
                return Err(DependencyGraphError::UnknownNode(dependent.clone()));
            },
            Ok(_) => {},
        }
        match self.find_edge(prerequisite, dependent) {
            Ok(_) => Err(
                DependencyGraphError::DuplicateEdge {
                    prerequisite: prerequisite.clone(),
                    dependent: dependent.clone(),
                },
            ),
            Err(k) => {
                let ghost old_edges = self.edge_views();
                let ghost target = (prerequisite.view(), dependent.view());
                proof {
                    lemma_edge_order();
                    lemma_first_match(old_edges, |e: (IdView, IdView)| !edge_lt(e, target));
                    if (k as int) < old_edges.len() {
                        assert(old_edges[k as int] != target);
                        assert(edge_order()(target, old_edges[k as int]) || edge_order()(
                            old_edges[k as int],
                            target,
                        ));
                    }
                    assert forall|j: int| 0 <= j < k implies edge_order()(#[trigger] old_edges[j], target) by {}
                    lemma_strictly_sorted_insert(old_edges, k as int, target, edge_order());
                }
                self.edges.insert(k, (prerequisite.clone(), dependent.clone()));
                proof {
                    assert(self.edge_views() =~= old_edges.insert(k as int, target));
                    assert(self.node_views() == old(self).node_views());
                    assert forall|e: int| 0 <= e < self.edge_views().len() implies self.has_node(
                        #[trigger] self.edge_views()[e].0,
                    ) && self.has_node(self.edge_views()[e].1) && self.edge_views()[e].0
                        != self.edge_views()[e].1 by {
                        if e < k {
                            assert(old_edges[e] == self.edge_views()[e]);
                        } else if e > k {
                            assert(old_edges[e - 1] == self.edge_views()[e]);
                        }
                    }
                }
                Ok(())
            },
        }
    }

    /// Removes a node together with every edge that touches it.
    pub fn remove_node(&mut self, id: &DependencyNodeId) -> (removed: Option<DependencyNode>)
        requires
            old(self).wf(),
        ensures
            final(self).wf(),
            !old(self).has_node(id.view()) ==> removed is None && final(self).node_views() == old(
                self,
            ).node_views() && final(self).edge_views() == old(self).edge_views(),
            old(self).has_node(id.view()) ==> {
                let k = old(self).node_position(id.view()) as int;
                &&& (removed matches Some(node) && node.view() == old(self).node_views()[k])
                &&& final(self).node_views() == old(self).node_views().remove(k)
                &&& final(self).edge_views() == keep_where(old(self).edge_views(), untouched(id.view()))
            },
    {
        match self.find_node(id) {
            Err(_) => None,
            Ok(k) => {
                let ghost old_views = self.node_views();
                let ghost old_ids = self.node_ids();
                let ghost old_edges = self.edge_views();
                let ghost keep = untouched(id.view());
                let node = self.nodes.remove(k);
                let mut rest: Vec<(DependencyNodeId, DependencyNodeId)> = Vec::new();
                std::mem::swap(&mut rest, &mut self.edges);
                let ghost all = rest@;
                let mut kept: Vec<(DependencyNodeId, DependencyNodeId)> = Vec::new();
                let ghost mut consumed: int = 0;
                assert(all.skip(0) =~= all);
                assert(all.take(0) =~= Seq::<(DependencyNodeId, DependencyNodeId)>::empty());
                while rest.len() > 0
                    invariant
                        0 <= consumed <= all.len(),
                        rest@ == all.skip(consumed),
                        keep == untouched(id.view()),
                        kept@.map_values(|e: (DependencyNodeId, DependencyNodeId)| edge_view(e))
                            == keep_where(
                            all.take(consumed).map_values(
                                |e: (DependencyNodeId, DependencyNodeId)| edge_view(e),
                            ),
                            keep,
                        ),
                    decreases rest.len(),
                {
                    let edge = rest.remove(0);
                    let ghost before_push = kept@;
                    proof {
                        assert(edge == all[consumed]);
                        assert(rest@ =~= all.skip(consumed + 1));
                        assert(all.take(consumed + 1).map_values(
                            |e: (DependencyNodeId, DependencyNodeId)| edge_view(e),
                        ).drop_last() =~= all.take(consumed).map_values(
                            |e: (DependencyNodeId, DependencyNodeId)| edge_view(e),
                        ));
                    }
                    if !edge.0.same_as(id) && !edge.1.same_as(id) {
                        kept.push(edge);
                        proof {
                            assert(kept@.map_values(
                                |e: (DependencyNodeId, DependencyNodeId)| edge_view(e),
                            ) =~= before_push.map_values(
                                |e: (DependencyNodeId, DependencyNodeId)| edge_view(e),
                            ).push(edge_view(edge)));
                        }
                    }
                    proof {
                        consumed = consumed + 1;
                    }
                }
                self.edges = kept;
                proof {
                    lemma_id_order();
                    lemma_edge_order();
                    assert(all.take(consumed) =~= all);
                    assert(self.edge_views() == keep_where(old_edges, keep));
                    assert(self.node_views() =~= old_views.remove(k as int));
                    assert(self.node_ids() =~= old_ids.remove(k as int));
                    lemma_strictly_sorted_remove(old_ids, k as int, id_order());
                    lemma_strictly_sorted_keep_where(old_edges, keep, edge_order());
                    lemma_keep_where(old_edges, keep, edge_order());
                    assert forall|e: int| 0 <= e < self.edge_views().len() implies self.has_node(
                        #[trigger] self.edge_views()[e].0,
                    ) && self.has_node(self.edge_views()[e].1) && self.edge_views()[e].0
                        != self.edge_views()[e].1 by {
                        let edge = self.edge_views()[e];
                        assert(keep(edge));
                        assert(old_edges.contains(edge));
                        let m = choose|m: int| 0 <= m < old_edges.len() && old_edges[m] == edge;
                        assert(old_edges[m] == edge);
                        assert(old_ids.contains(edge.0));
                        assert(old_ids.contains(edge.1));
                        let a = choose|a: int| 0 <= a < old_ids.len() && old_ids[a] == edge.0;
                        let b = choose|b: int| 0 <= b < old_ids.len() && old_ids[b] == edge.1;
                        assert(a != k && b != k);
                        if a < k {
                            assert(self.node_ids()[a] == edge.0);
                        } else {
                            assert(self.node_ids()[a - 1] == edge.0);
                        }
                        if b < k {
                            assert(self.node_ids()[b] == edge.1);
                        } else {
                            assert(self.node_ids()[b - 1] == edge.1);
                        }
                    }
                }
                Some(node)
            },
        }
    }

    /// The prerequisites of a node, in identifier order.
    pub fn direct_prerequisites(&self, id: &DependencyNodeId) -> (result: Result<
        Vec<DependencyNodeId>,
        DependencyGraphError,
    >)
        requires
            self.wf(),
        ensures
            !self.has_node(id.view()) ==> result == Err::<Vec<DependencyNodeId>, DependencyGraphError>(
                DependencyGraphError::UnknownNode(*id),
            ),
            self.has_node(id.view()) ==> (result matches Ok(ids) && ids@.map_values(
                |n: DependencyNodeId| n.view(),
            ) == keep_where(self.edge_views(), depends_on_it(id.view())).map_values(
                |e: (IdView, IdView)| e.0,
            )),
    {
        match self.find_node(id) {
            Err(_) => Err(DependencyGraphError::UnknownNode(id.clone())),
            Ok(_) => Ok(self.edge_ends(id, true)),
        }
    }

    /// The nodes that depend on a node, in identifier order.
    pub fn direct_dependents(&self, id: &DependencyNodeId) -> (result: Result<
        Vec<DependencyNodeId>,
        DependencyGraphError,
    >)
        requires
            self.wf(),
        ensures
            !self.has_node(id.view()) ==> result == Err::<Vec<DependencyNodeId>, DependencyGraphError>(
                DependencyGraphError::UnknownNode(*id),
            ),
            self.has_node(id.view()) ==> (result matches Ok(ids) && ids@.map_values(
                |n: DependencyNodeId| n.view(),
            ) == keep_where(self.edge_views(), required_by_it(id.view())).map_values(
                |e: (IdView, IdView)| e.1,
            )),
    {
        match self.find_node(id) {
            Err(_) => Err(DependencyGraphError::UnknownNode(id.clone())),
            Ok(_) => Ok(self.edge_ends(id, false)),
        }
    }

    /// With `incoming`, the prerequisites of `id`; otherwise its dependents.
    fn edge_ends(&self, id: &DependencyNodeId, incoming: bool) -> (ends: Vec<DependencyNodeId>)
        ensures
            incoming ==> ends@.map_values(|n: DependencyNodeId| n.view()) == keep_where(
                self.edge_views(),
                depends_on_it(id.view()),
            ).map_values(|e: (IdView, IdView)| e.0),
            !incoming ==> ends@.map_values(|n: DependencyNodeId| n.view()) == keep_where(
                self.edge_views(),
                required_by_it(id.view()),
            ).map_values(|e: (IdView, IdView)| e.1),
    {
        let ghost keep = if incoming {
            depends_on_it(id.view())
        } else {
            required_by_it(id.view())
        };
        let ghost pick = |e: (IdView, IdView)| if incoming {
            e.0
        } else {
            e.1
        };
        let mut ends: Vec<DependencyNodeId> = Vec::new();
        let mut index: usize = 0;
        while index < self.edges.len()
            invariant
                index <= self.edges@.len(),
                keep == (if incoming {
                    depends_on_it(id.view())
                } else {
                    required_by_it(id.view())
                }),
                pick == (|e: (IdView, IdView)| if incoming {
                    e.0
                } else {
                    e.1
                }),
                ends@.map_values(|n: DependencyNodeId| n.view()) == keep_where(
                    self.edge_views().take(index as int),
                    keep,
                ).map_values(pick),
            decreases self.edges.len() - index,
        {
            let ghost before_push = ends@;
            let edge = &self.edges[index];
            proof {
                assert(self.edge_views().take(index + 1).drop_last() =~= self.edge_views().take(
                    index as int,
                ));
                assert(self.edge_views().take(index + 1).last() == edge_view(*edge));
            }
            let selected = if incoming {
                edge.1.same_as(id)
            } else {
                edge.0.same_as(id)
            };
            if selected {
                let end = if incoming {
                    edge.0.clone()
                } else {
                    edge.1.clone()
                };
                ends.push(end);
                proof {
                    assert(ends@.map_values(|n: DependencyNodeId| n.view()) =~= before_push.map_values(
                        |n: DependencyNodeId| n.view(),
                    ).push(end.view()));
                    assert(keep_where(self.edge_views().take(index + 1), keep).map_values(pick)
                        =~= keep_where(self.edge_views().take(index as int), keep).map_values(
                        pick,
                    ).push(pick(edge_view(*edge))));
                }
            }
            index = index + 1;
        }
        proof {
            assert(self.edge_views().take(self.edges@.len() as int) =~= self.edge_views());
        }
        ends
    }

    /// Whether some prerequisite of the node is not resolved.
    pub fn is_blocked(&self, id: &DependencyNodeId) -> (result: Result<bool, DependencyGraphError>)
        requires
            self.wf(),
        ensures
            !self.has_node(id.view()) ==> result == Err::<bool, DependencyGraphError>(
                DependencyGraphError::UnknownNode(*id),
            ),
            self.has_node(id.view()) ==> result == Ok::<bool, DependencyGraphError>(
                exists|k: int|
                    0 <= k < self.edge_views().len() && #[trigger] self.edge_views()[k].1 == id.view()
                        && !self.is_resolved(self.edge_views()[k].0),
            ),
    {
        match self.find_node(id) {
            Err(_) => {
                return Err(DependencyGraphError::UnknownNode(id.clone()));
            },
            Ok(_) => {},
        }
        let mut index: usize = 0;
        while index < self.edges.len()
            invariant
                self.wf(),
                index <= self.edges@.len(),
                forall|k: int|
                    0 <= k < index ==> !(#[trigger] self.edge_views()[k].1 == id.view()
                        && !self.is_resolved(self.edge_views()[k].0)),
            decreases self.edges.len() - index,
        {
            let edge = &self.edges[index];
            proof {
                assert(self.edge_views()[index as int] == edge_view(*edge));
            }
            if edge.1.same_as(id) {
                match self.find_node(&edge.0) {
                    Ok(k) => {
                        proof {
                            assert(self.node_views()[k as int].0 == edge.0.view());
                            assert(self.node_views()[k as int] == self.nodes@[k as int].view());
                            if self.is_resolved(edge.0.view()) {
                                let i = choose|i: int|
                                    0 <= i < self.node_views().len() && #[trigger] self.node_views()[i].0
                                        == edge.0.view() && self.node_views()[i].1.1;
                                lemma_id_order();
                                assert(self.node_ids()[i] == self.node_ids()[k as int]);
                                lemma_strictly_sorted_unique(self.node_ids(), i, k as int, id_order());
                            }
                        }
                        if !self.nodes[k].resolved {
                            return Ok(true);
                        }
                    },
                    Err(_) => {
                        proof {
                            assert(self.has_node(self.edge_views()[index as int].0));
                        }
                    },
                }
            }
            index = index + 1;
        }
        Ok(false)
    }

    /// The two node indices of every edge.
    fn edge_indices(&self) -> (index: Vec<(usize, usize)>)
        requires
            self.wf(),
        ensures
            indexes_edges(self.node_ids(), self.edge_views(), index@),
    {
        let mut index: Vec<(usize, usize)> = Vec::new();
        let mut k: usize = 0;
        while k < self.edges.len()
            invariant
                self.wf(),
                k <= self.edges@.len(),
                index@.len() == k,
                forall|j: int|
                    #![trigger index@[j]]
                    0 <= j < k ==> index@[j].0 < self.node_ids().len() && index@[j].1
                        < self.node_ids().len() && self.node_ids()[index@[j].0 as int]
                        == self.edge_views()[j].0 && self.node_ids()[index@[j].1 as int]
                        == self.edge_views()[j].1,
            decreases self.edges.len() - k,
        {
            proof {
                assert(self.edge_views()[k as int] == edge_view(self.edges@[k as int]));
                assert(self.has_node(self.edge_views()[k as int].0));
            }
            let from = self.find_node(&self.edges[k].0);
            let to = self.find_node(&self.edges[k].1);
            match (from, to) {
                (Ok(a), Ok(b)) => {
                    index.push((a, b));
                },
                _ => {
                    proof {
                        assert(false);
                    }
                    return index;
                },
            }
            k = k + 1;
        }
        index
    }

    /// Which nodes can be reached from the node at `start`.
    fn reachable_from(&self, index: &Vec<(usize, usize)>, start: usize) -> (reached: Vec<bool>)
        requires
            self.wf(),
            indexes_edges(self.node_ids(), self.edge_views(), index@),
            start < self.node_ids().len(),
        ensures
            reached@.len() == self.node_ids().len(),
            forall|i: int|
                0 <= i < self.node_ids().len() ==> #[trigger] reached@[i] == reaches(
                    self.edge_views(),
                    self.node_ids()[start as int],
                    self.node_ids()[i],
                ),
    {
        let ghost ids = self.node_ids();
        let ghost edges = self.edge_views();
        let n = self.nodes.len();
        let mut visited: Vec<bool> = Vec::new();
        let mut i: usize = 0;
        while i < n
            invariant
                i <= n == ids.len(),
                visited@.len() == i,
                forall|j: int| 0 <= j < i ==> !#[trigger] visited@[j],
            decreases n - i,
        {
            visited.push(false);
            i = i + 1;
        }
        visited.set(start, true);
        proof {
            lemma_reaches_self(edges, ids[start as int]);
            lemma_count_bound(visited@);
        }
        let mut changed = true;
        while changed
            invariant
                n == ids.len(),
                ids == self.node_ids(),
                edges == self.edge_views(),
                indexes_edges(ids, edges, index@),
                start < n,
                visited@.len() == n,
                visited@[start as int],
                forall|j: int| 0 <= j < n && #[trigger] visited@[j] ==> reaches(edges, ids[start as int], ids[j]),
                !changed ==> forall|k: int|
                    0 <= k < index@.len() && #[trigger] visited@[index@[k].0 as int]
                        ==> visited@[index@[k].1 as int],
                count_true(visited@) <= n,
            decreases n - count_true(visited@) + if changed {
                1int
            } else {
                0int
            },
        {
            let ghost start_count = count_true(visited@);
            let ghost start_visited = visited@;
            changed = false;
            let mut k: usize = 0;
            while k < index.len()
                invariant
                    n == ids.len(),
                    indexes_edges(ids, edges, index@),
                    k <= index@.len(),
                    start < n,
                    visited@.len() == n,
                    visited@[start as int],
                    forall|j: int| 0 <= j < n && #[trigger] visited@[j] ==> reaches(edges, ids[start as int], ids[j]),
                    !changed ==> visited@ == start_visited,
                    !changed ==> forall|m: int|
                        0 <= m < k && #[trigger] visited@[index@[m].0 as int]
                            ==> visited@[index@[m].1 as int],
                    changed ==> count_true(visited@) > start_count,
                    count_true(visited@) >= start_count,
                    count_true(visited@) <= n,
                decreases index.len() - k,
            {
                let (from, to) = index[k];
                if visited[from] && !visited[to] {
                    proof {
                        assert(edges.contains((ids[from as int], ids[to as int]))) by {
                            assert(edges[k as int] == (ids[from as int], ids[to as int]));
                        }
                        lemma_reaches_step(edges, ids[start as int], ids[from as int], ids[to as int]);
                        lemma_count_true(visited@, to as int);
                        lemma_count_bound(visited@.update(to as int, true));
                    }
                    visited.set(to, true);
                    changed = true;
                }
                k = k + 1;
            }
        }
        proof {
            assert(distinct(ids)) by {
                lemma_id_order();
                assert forall|a: int, b: int| 0 <= a < ids.len() && 0 <= b < ids.len() && #[trigger] ids[a] == #[trigger] ids[b] implies a == b by {
                    lemma_strictly_sorted_unique(ids, a, b, id_order());
                }
            }
            assert forall|i: int| 0 <= i < n implies #[trigger] visited@[i] == reaches(edges, ids[start as int], ids[i]) by {
                if reaches(edges, ids[start as int], ids[i]) {
                    let path = choose|path: Seq<IdView>| #[trigger] is_walk(edges, path) && path[0] == ids[start as int] && path.last() == ids[i];
                    lemma_closed_reaches(ids, edges, index@, visited@, start as int, path);
                    let j = choose|j: int| 0 <= j < ids.len() && ids[j] == path.last() && #[trigger] visited@[j];
                    assert(ids[j] == ids[i]);
                }
            }
        }
        visited
    }

    /// Two nodes that reach each other.
    pub open spec fn mutually_reachable(self, a: IdView, b: IdView) -> bool {
        reaches(self.edge_views(), a, b) && reaches(self.edge_views(), b, a)
    }

    /// The strongly connected component of `v`, in identifier order.
    pub open spec fn component(self, v: IdView) -> Seq<IdView> {
        keep_where(self.node_ids(), |u: IdView| self.mutually_reachable(v, u))
    }

    /// `v` is the first node of a component with more than one node.
    pub open spec fn leads_cycle(self, v: IdView) -> bool {
        self.component(v).len() > 1 && self.component(v)[0] == v
    }

    /// Every component that contains a cycle, each in identifier order, the
    /// components ordered by their first node.
    pub open spec fn cycle_components(self) -> Seq<Seq<IdView>> {
        keep_where(self.node_ids(), |v: IdView| self.leads_cycle(v)).map_values(
            |v: IdView| self.component(v),
        )
    }

    /// Strongly connected components containing cycles, in deterministic
    /// order; the graph is reported as it is, not repaired.
    pub fn cycles(&self) -> (cycles: Vec<Vec<DependencyNodeId>>)
        requires
            self.wf(),
        ensures
            cycles@.map_values(|c: Vec<DependencyNodeId>| id_views(c)) == self.cycle_components(),
    {
        let ghost ids = self.node_ids();
        let ghost edges = self.edge_views();
        let index = self.edge_indices();
        let n = self.nodes.len();
        let mut reach: Vec<Vec<bool>> = Vec::new();
        let mut v: usize = 0;
        while v < n
            invariant
                self.wf(),
                ids == self.node_ids(),
                edges == self.edge_views(),
                n == ids.len(),
                indexes_edges(ids, edges, index@),
                v <= n,
                reach@.len() == v,
                forall|a: int| 0 <= a < v ==> (#[trigger] reach@[a])@.len() == n,
                forall|a: int, b: int|
                    0 <= a < v && 0 <= b < n ==> #[trigger] reach@[a]@[b] == reaches(edges, ids[a], ids[b]),
            decreases n - v,
        {
            let row = self.reachable_from(&index, v);
            reach.push(row);
            v = v + 1;
        }
        let mut cycles: Vec<Vec<DependencyNodeId>> = Vec::new();
        let ghost leads = |x: IdView| self.leads_cycle(x);
        let ghost comp_of = |x: IdView| self.component(x);
        let mut v: usize = 0;
        while v < n
            invariant
                ids == self.node_ids(),
                edges == self.edge_views(),
                n == ids.len(),
                n == self.nodes@.len(),
                v <= n,
                reach@.len() == n,
                forall|a: int| 0 <= a < n ==> (#[trigger] reach@[a])@.len() == n,
                forall|a: int, b: int|
                    0 <= a < n && 0 <= b < n ==> #[trigger] reach@[a]@[b] == reaches(edges, ids[a], ids[b]),
                leads == (|x: IdView| self.leads_cycle(x)),
                comp_of == (|x: IdView| self.component(x)),
                cycles@.map_values(|c: Vec<DependencyNodeId>| id_views(c)) == keep_where(
                    ids.take(v as int),
                    leads,
                ).map_values(comp_of),
            decreases n - v,
        {
            let ghost here = ids[v as int];
            let ghost mutual = |x: IdView| self.mutually_reachable(here, x);
            let mut component: Vec<DependencyNodeId> = Vec::new();
            let mut u: usize = 0;
            while u < n
                invariant
                    ids == self.node_ids(),
                    edges == self.edge_views(),
                    n == ids.len(),
                    n == self.nodes@.len(),
                    v < n,
                    u <= n,
                    here == ids[v as int],
                    reach@.len() == n,
                    forall|a: int| 0 <= a < n ==> (#[trigger] reach@[a])@.len() == n,
                    forall|a: int, b: int|
                        0 <= a < n && 0 <= b < n ==> #[trigger] reach@[a]@[b] == reaches(edges, ids[a], ids[b]),
                    mutual == (|x: IdView| self.mutually_reachable(here, x)),
                    id_views(component) == keep_where(ids.take(u as int), mutual),
                decreases n - u,
            {
                proof {
                    assert(ids.take(u + 1).drop_last() =~= ids.take(u as int));
                    assert(ids.take(u + 1).last() == ids[u as int]);
                    assert(ids[u as int] == self.nodes@[u as int].id.view());
                }
                if reach[v][u] && reach[u][v] {
                    let ghost before_push = component@;
                    let id = self.nodes[u].id.clone();
                    component.push(id);
                    proof {
                        assert(component@ =~= before_push.push(id));
                        assert(id_views(component) =~= keep_where(ids.take(u as int), mutual).push(
                            ids[u as int],
                        ));
                    }
                }
                u = u + 1;
            }
            proof {
                assert(ids.take(n as int) =~= ids);
                assert(id_views(component) == self.component(here));
                assert(ids.take(v + 1).drop_last() =~= ids.take(v as int));
                assert(ids.take(v + 1).last() == here);
                assert(here == self.nodes@[v as int].id.view());
                if component@.len() > 0 {
                    assert(id_views(component)[0] == component@[0].view());
                }
            }
            if component.len() > 1 && component[0].same_as(&self.nodes[v].id) {
                let ghost before_push = cycles@;
                let ghost pushed = id_views(component);
                cycles.push(component);
                proof {
                    assert(cycles@.map_values(|c: Vec<DependencyNodeId>| id_views(c)) =~= before_push.map_values(
                        |c: Vec<DependencyNodeId>| id_views(c),
                    ).push(pushed));
                    assert(keep_where(ids.take(v + 1), leads).map_values(comp_of) =~= keep_where(
                        ids.take(v as int),
                        leads,
                    ).map_values(comp_of).push(comp_of(here)));
                }
            } else {
                proof {
                    assert(!leads(here));
                }
            }
            v = v + 1;
        }
        proof {
            assert(ids.take(n as int) =~= ids);
        }
        cycles
    }

    /// The validation report: the cycles of the graph.
    pub fn validation(&self) -> (report: DependencyGraphValidation)
        requires
            self.wf(),
        ensures
            report.cycles@.map_values(|c: Vec<DependencyNodeId>| id_views(c))
                == self.cycle_components(),
    {
        DependencyGraphValidation { cycles: self.cycles() }
    }

    /// Whether the graph has no cycle.
    pub fn is_acyclic(&self) -> (acyclic: bool)
        requires
            self.wf(),
        ensures
            acyclic == (self.cycle_components().len() == 0),
    {
        let cycles = self.cycles();
        proof {
            assert(cycles@.map_values(|c: Vec<DependencyNodeId>| id_views(c)).len() == cycles@.len());
        }
        cycles.len() == 0
    }

    /// The nodes, in identifier order.
    pub fn nodes(&self) -> (nodes: Vec<&DependencyNode>)
        ensures
            nodes@.map_values(|n: &DependencyNode| n.view()) == self.node_views(),
    {
        let mut nodes: Vec<&DependencyNode> = Vec::new();
        let mut index: usize = 0;
        while index < self.nodes.len()
            invariant
                index <= self.nodes@.len(),
                nodes@.map_values(|n: &DependencyNode| n.view()) == self.node_views().take(
                    index as int,
                ),
            decreases self.nodes.len() - index,
        {
            let ghost before_push = nodes@;
            let node = &self.nodes[index];
            nodes.push(node);
            proof {
                assert(nodes@ =~= before_push.push(node));
                assert(nodes@.map_values(|n: &DependencyNode| n.view()) =~= before_push.map_values(
                    |n: &DependencyNode| n.view(),
                ).push(node.view()));
                assert(node.view() == self.node_views()[index as int]);
                assert(nodes@.map_values(|n: &DependencyNode| n.view()) =~= self.node_views().take(
                    index + 1,
                ));
            }
            index = index + 1;
        }
        proof {
            assert(self.node_views().take(self.nodes@.len() as int) =~= self.node_views());
        }
        nodes
    }

    /// The edges `(prerequisite, dependent)`, in (dependent, prerequisite) order.
    pub fn edges(&self) -> (edges: Vec<(DependencyNodeId, DependencyNodeId)>)
        ensures
            edges@.map_values(|e: (DependencyNodeId, DependencyNodeId)| edge_view(e))
                == self.edge_views(),
    {
        let mut edges: Vec<(DependencyNodeId, DependencyNodeId)> = Vec::new();
        let mut index: usize = 0;
        while index < self.edges.len()
            invariant
                index <= self.edges@.len(),
                edges@.map_values(|e: (DependencyNodeId, DependencyNodeId)| edge_view(e))
                    == self.edge_views().take(index as int),
            decreases self.edges.len() - index,
        {
            let edge = (self.edges[index].0.clone(), self.edges[index].1.clone());
            let ghost before_push = edges@;
            edges.push(edge);
            proof {
                assert(edge_view(edge) == self.edge_views()[index as int]);
                assert(edges@.map_values(|e: (DependencyNodeId, DependencyNodeId)| edge_view(e))
                    =~= before_push.map_values(
                    |e: (DependencyNodeId, DependencyNodeId)| edge_view(e),
                ).push(edge_view(edge)));
                assert(edges@.map_values(|e: (DependencyNodeId, DependencyNodeId)| edge_view(e))
                    =~= self.edge_views().take(index + 1));
            }
            index = index + 1;
        }
        proof {
            assert(self.edge_views().take(self.edges@.len() as int) =~= self.edge_views());
        }
        edges
    }
}

} // verus!
