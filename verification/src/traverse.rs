use vstd::prelude::*;
use petgraph::stable_graph::StableGraph;
use petgraph::visit::{Control, DfsEvent, EdgeFiltered, EdgeRef, NodeIndexable};
use petgraph::graph::NodeIndex;
use petgraph::{Directed, Direction};

verus! {

/// A node of a dependence graph, by index.
pub type Node = u32;

/// Whether an edge carries data or control.
#[derive(Clone, Copy, Debug, PartialEq, Eq, Structural, Hash)]
pub enum EdgeKind {
    Data,
    Control,
}

/// Whether an edge is sure to hold on every run.
#[derive(Clone, Copy, Debug, PartialEq, Eq, Structural, Hash)]
pub enum Tentativeness {
    Certain,
    ControlFlowInduced,
    FunctionNotAnalyzed,
}

/// What an edge of a dependence graph records.
#[derive(Clone, Copy, Debug, PartialEq, Eq, Hash)]
pub struct EdgeInfo {
    pub kind: EdgeKind,
    pub tentativeness: Tentativeness,
}

impl EdgeInfo {
    /// Whether the edge carries data.
    pub fn is_data(&self) -> (r: bool)
        ensures
            r == (self.kind is Data),
    {
        match self.kind {
            EdgeKind::Data => true,
            EdgeKind::Control => false,
        }
    }

    /// Whether the edge carries control.
    pub fn is_control(&self) -> (r: bool)
        ensures
            r == (self.kind is Control),
    {
        match self.kind {
            EdgeKind::Data => false,
            EdgeKind::Control => true,
        }
    }

    /// Whether the edge may not hold on every run.
    pub fn is_tentative(&self) -> (r: bool)
        ensures
            r == !(self.tentativeness is Certain),
    {
        match self.tentativeness {
            Tentativeness::Certain => false,
            _ => true,
        }
    }
}

#[verifier::external_type_specification]
#[verifier::external_body]
#[verifier::reject_recursive_types(N)]
#[verifier::reject_recursive_types(E)]
#[verifier::reject_recursive_types(Ty)]
#[verifier::reject_recursive_types(Ix)]
pub struct ExStableGraph<N, E, Ty, Ix>(StableGraph<N, E, Ty, Ix>);

#[verifier::external_type_specification]
#[verifier::external_body]
pub struct ExDirected(Directed);

/// The graph of a dependence graph: nodes described by a string, edges by
/// their `EdgeInfo`.
pub type SPDGImpl = StableGraph<String, EdgeInfo, Directed, u32>;

/// A dependence graph of one function.
pub struct SPDG {
    pub graph: SPDGImpl,
}

/// The edges of a graph: source, target and what the edge records.
pub uninterp spec fn spdg_edges(g: StableGraph<String, EdgeInfo, Directed, u32>) -> Set<(Node, Node, EdgeInfo)>;

/// One more than the largest index of a node of the graph, or 0 if it has none.
pub uninterp spec fn spdg_node_bound(g: StableGraph<String, EdgeInfo, Directed, u32>) -> nat;

/// `StableGraph::edges_directed` with `Incoming`: every edge into `node`,
/// as source, target and weight. The contract claims that the edges of the
/// graph form a finite set, that each edge returned is an edge of the graph
/// into `node`, and that every such edge is returned (how often a parallel
/// edge with the same weight appears, and in which order the edges come, is
/// not stated).
#[verifier::external_body]
fn incoming_edges(g: &SPDGImpl, node: Node) -> (r: Vec<(Node, Node, EdgeInfo)>)
    ensures
        spdg_edges(*g).finite() && forall|i: int| 0 <= i < r.len() ==> spdg_edges(*g).contains(#[trigger] r@[i]) && r@[i].1 == node,
        forall|e: (Node, Node, EdgeInfo)| #[trigger] spdg_edges(*g).contains(e) && e.1 == node ==> r@.contains(e),
{
    g.edges_directed(NodeIndex::new(node as usize), Direction::Incoming)
        .map(|e| (e.source().index() as Node, e.target().index() as Node, *e.weight()))
        .collect()
}

/// `NodeIndexable::node_bound` on the graph: the contract claims that the
/// result is `spdg_node_bound` of the graph.
#[verifier::external_body]
fn node_bound(g: &SPDGImpl) -> (r: usize)
    ensures
        r == spdg_node_bound(*g),
{
    NodeIndexable::node_bound(g)
}

/// Which type of edges should be considered for a given traversal.
#[derive(Clone, Copy, Debug, PartialEq, Eq, Structural)]
pub enum EdgeSelection {
    /// Consider only data edges.
    Data,
    /// Consider only control edges.
    Control,
    /// Consider both data and control edges in any combination.
    Both,
}

/// Whether the selection admits edges of this kind.
pub open spec fn spec_conforms(sel: EdgeSelection, kind: EdgeKind) -> bool {
    sel is Both || (sel is Data && kind is Data) || (sel is Control && kind is Control)
}

impl EdgeSelection {
    /// Does this selection admit control edges?
    pub fn use_control(self) -> (r: bool)
        ensures
            r == (self is Control || self is Both),
    {
        match self {
            EdgeSelection::Control | EdgeSelection::Both => true,
            EdgeSelection::Data => false,
        }
    }

    /// Does this selection admit data edges?
    pub fn use_data(self) -> (r: bool)
        ensures
            r == (self is Data || self is Both),
    {
        match self {
            EdgeSelection::Data | EdgeSelection::Both => true,
            EdgeSelection::Control => false,
        }
    }

    /// Is this edge kind admissible?
    pub fn conforms(self, kind: EdgeKind) -> (r: bool)
        ensures
            r == spec_conforms(self, kind),
    {
        match (self, kind) {
            (EdgeSelection::Both, _) => true,
            (EdgeSelection::Data, EdgeKind::Data) => true,
            (EdgeSelection::Control, EdgeKind::Control) => true,
            _ => false,
        }
    }

    /// Whether this is `Data`.
    pub fn is_data(&self) -> (r: bool)
        ensures
            r == (*self is Data),
    {
        match self {
            EdgeSelection::Data => true,
            _ => false,
        }
    }

    /// Whether this is `Control`.
    pub fn is_control(&self) -> (r: bool)
        ensures
            r == (*self is Control),
    {
        match self {
            EdgeSelection::Control => true,
            _ => false,
        }
    }

    /// Whether this is `Both`.
    pub fn is_both(&self) -> (r: bool)
        ensures
            r == (*self is Both),
    {
        match self {
            EdgeSelection::Both => true,
            _ => false,
        }
    }
}

/// An edge from `a` to `b` that the selection admits.
pub open spec fn selected_edge(es: Set<(Node, Node, EdgeInfo)>, sel: EdgeSelection, a: Node, b: Node) -> bool {
    exists|w: EdgeInfo| #[trigger] es.contains((a, b, w)) && spec_conforms(sel, w.kind)
}

/// Step `i` of `p` follows an admitted edge.
pub open spec fn forward_step(es: Set<(Node, Node, EdgeInfo)>, sel: EdgeSelection, p: Seq<Node>, i: int) -> bool {
    selected_edge(es, sel, p[i], p[i + 1])
}

/// `b` can be reached from `a` by following admitted edges (in zero or more steps).
pub open spec fn flows(es: Set<(Node, Node, EdgeInfo)>, sel: EdgeSelection, a: Node, b: Node) -> bool {
    exists|p: Seq<Node>| {
        &&& p.len() >= 1
        &&& p[0] == a
        &&& p.last() == b
        &&& forall|i: int| 0 <= i < p.len() - 1 ==> #[trigger] forward_step(es, sel, p, i)
    }
}

/// Some node of `targets` can be reached from some node of `from`.
pub open spec fn flows_any(es: Set<(Node, Node, EdgeInfo)>, sel: EdgeSelection, from: Seq<Node>, targets: Seq<Node>) -> bool {
    exists|i: int, j: int| 0 <= i < from.len() && 0 <= j < targets.len() && #[trigger] flows(es, sel, from[i], targets[j])
}

fn is_target(targets: &Vec<Node>, d: usize) -> (r: bool)
    ensures
        r == (d <= u32::MAX && targets@.contains(d as Node)),
{
    if d > u32::MAX as usize {
        return false;
    }
    let mut i: usize = 0;
    while i < targets.len()
        invariant
            d <= u32::MAX,
            i <= targets.len(),
            forall|j: int| 0 <= j < i ==> targets@[j] != d as Node,
        decreases targets.len() - i,
    {
        if targets[i] == d as Node {
            assert(targets@[i as int] == d as Node);
            return true;
        }
        i = i + 1;
    }
    false
}

/// `petgraph::visit::depth_first_search` over the edges admitted by `sel`,
/// from the nodes `from`, stopping when a node of `targets` is discovered.
/// The contract claims that the search stops exactly when some target can be
/// reached from some start; it requires every start to be below the node
/// bound, as the search panics on a start it has no room to mark.
#[verifier::external_body]
fn dfs_reaches(g: &SPDGImpl, from: &Vec<Node>, sel: EdgeSelection, targets: &Vec<Node>) -> (r: bool)
    requires
        forall|i: int| 0 <= i < from.len() ==> (#[trigger] from@[i]) < spdg_node_bound(*g),
    ensures
        r == flows_any(spdg_edges(*g), sel, from@, targets@),
{
    let graph = EdgeFiltered::from_fn(g, |e: petgraph::stable_graph::EdgeReference<'_, EdgeInfo, u32>| sel.conforms(e.weight().kind));
    let starts = from.iter().map(|n| NodeIndex::new(*n as usize));
    let result = petgraph::visit::depth_first_search(&graph, starts, |event| match event {
        DfsEvent::Discover(d, _) => if is_target(targets, d.index()) { Control::Break(()) } else { Control::Continue },
        _ => Control::Continue,
    });
    matches!(result, Control::Break(()))
}

/// Whether any node of `other` can be reached from any node of `from` along
/// the edges that `edge_selection` admits. Every node of `from` must be below
/// the graph's node bound when both lists are non-empty.
pub fn generic_flows_to(from: &Vec<Node>, edge_selection: EdgeSelection, spdg: &SPDG, other: &Vec<Node>) -> (r: bool)
    requires
        from.len() > 0 && other.len() > 0 ==>
            forall|i: int| 0 <= i < from.len() ==> (#[trigger] from@[i]) < spdg_node_bound(spdg.graph),
    ensures
        r == flows_any(spdg_edges(spdg.graph), edge_selection, from@, other@),
{
    if from.len() == 0 || other.len() == 0 {
        return false;
    }
    dfs_reaches(&spdg.graph, from, edge_selection, other)
}

/// `generic_flows_to` where every start is a node below the graph's bound;
/// `None` when a start is not, and both lists are non-empty.
pub fn checked_flows_to(from: &Vec<Node>, edge_selection: EdgeSelection, spdg: &SPDG, other: &Vec<Node>) -> (r: Option<bool>)
    ensures
        r matches Some(b) ==> b == flows_any(spdg_edges(spdg.graph), edge_selection, from@, other@),
        r is None <==> (from.len() > 0 && other.len() > 0
            && exists|i: int| 0 <= i < from.len() && (#[trigger] from@[i]) >= spdg_node_bound(spdg.graph)),
{
    if from.len() == 0 || other.len() == 0 {
        return Some(false);
    }
    let bound = node_bound(&spdg.graph);
    let mut i: usize = 0;
    while i < from.len()
        invariant
            bound == spdg_node_bound(spdg.graph),
            from.len() > 0 && other.len() > 0,
            i <= from.len(),
            forall|j: int| 0 <= j < i ==> (#[trigger] from@[j]) < bound,
        decreases from.len() - i,
    {
        if from[i] as usize >= bound {
            assert(from@[i as int] >= spdg_node_bound(spdg.graph));
            assert(exists|k: int| 0 <= k < from.len() && (#[trigger] from@[k]) >= spdg_node_bound(spdg.graph));
            return None;
        }
        i = i + 1;
    }
    Some(generic_flows_to(from, edge_selection, spdg, other))
}

/// A data edge from `a` to `b`.
pub open spec fn data_edge(es: Set<(Node, Node, EdgeInfo)>, a: Node, b: Node) -> bool {
    exists|w: EdgeInfo| #[trigger] es.contains((a, b, w)) && w.kind is Data
}

/// Step `i` of `p` goes back along a data edge: `p[i + 1]` flows into `p[i]`.
pub open spec fn back_step(es: Set<(Node, Node, EdgeInfo)>, p: Seq<Node>, i: int) -> bool {
    data_edge(es, p[i + 1], p[i])
}

/// `p` leads from `from` back to `to` against data edges.
pub open spec fn back_path(es: Set<(Node, Node, EdgeInfo)>, p: Seq<Node>, from: Node, to: Node) -> bool {
    &&& p.len() >= 1
    &&& p[0] == from
    &&& p.last() == to
    &&& forall|i: int| 0 <= i < p.len() - 1 ==> #[trigger] back_step(es, p, i)
}

/// No node of `p` after the first is in `d`.
pub open spec fn avoids(p: Seq<Node>, d: Set<Node>) -> bool {
    forall|i: int| 1 <= i < p.len() ==> !d.contains(#[trigger] p[i])
}

/// `to` can be reached from `from` going back against data edges without
/// passing through a node of `d` (the first node excepted).
pub open spec fn reach_avoiding(es: Set<(Node, Node, EdgeInfo)>, from: Node, to: Node, d: Set<Node>) -> bool {
    exists|p: Seq<Node>| #[trigger] back_path(es, p, from, to) && avoids(p, d)
}

/// Data flows from `target` to `start`: going back from `start` against data
/// edges reaches `target` (in zero or more steps).
pub open spec fn depends_on(es: Set<(Node, Node, EdgeInfo)>, start: Node, target: Node) -> bool {
    reach_avoiding(es, start, target, Set::empty())
}

/// The nodes held in `v`.
pub open spec fn seen(v: Seq<Node>) -> Set<Node> {
    Set::new(|n: Node| v.contains(n))
}

/// The edges whose target is not yet in `d`.
pub open spec fn open_edges(es: Set<(Node, Node, EdgeInfo)>, d: Set<Node>) -> Set<(Node, Node, EdgeInfo)> {
    es.filter(|e: (Node, Node, EdgeInfo)| !d.contains(e.1))
}

/// A path that returns to its first node can be cut to one that does not.
proof fn lemma_cut(es: Set<(Node, Node, EdgeInfo)>, p: Seq<Node>, from: Node, to: Node, d: Set<Node>)
    requires
        back_path(es, p, from, to),
        avoids(p, d),
    ensures
        reach_avoiding(es, from, to, d.insert(from)),
    decreases p.len(),
{
    if exists|j: int| 1 <= j < p.len() && p[j] == from {
        let j = choose|j: int| 1 <= j < p.len() && p[j] == from;
        let q = p.skip(j);
        assert forall|i: int| 0 <= i < q.len() - 1 implies #[trigger] back_step(es, q, i) by {
            assert(back_step(es, p, i + j));
        }
        assert(back_path(es, q, from, to));
        assert forall|i: int| 1 <= i < q.len() implies !d.contains(#[trigger] q[i]) by {
            assert(q[i] == p[i + j]);
        }
        lemma_cut(es, q, from, to, d);
    } else {
        assert(avoids(p, d.insert(from)));
        assert(back_path(es, p, from, to));
    }
}

/// Going back one data edge from `node` to `c`, then on to `to`.
proof fn lemma_extend(es: Set<(Node, Node, EdgeInfo)>, node: Node, c: Node, to: Node, d: Set<Node>)
    requires
        data_edge(es, c, node),
        !d.contains(c),
        reach_avoiding(es, c, to, d),
    ensures
        reach_avoiding(es, node, to, d),
{
    let p = choose|p: Seq<Node>| #[trigger] back_path(es, p, c, to) && avoids(p, d);
    let q = seq![node] + p;
    assert forall|i: int| 0 <= i < q.len() - 1 implies #[trigger] back_step(es, q, i) by {
        if i == 0 {
            assert(q[1] == c);
        } else {
            assert(back_step(es, p, i - 1));
            assert(q[i] == p[i - 1]);
            assert(q[i + 1] == p[i]);
        }
    }
    assert(q.last() == p.last());
    assert(back_path(es, q, node, to));
    assert forall|i: int| 1 <= i < q.len() implies !d.contains(#[trigger] q[i]) by {
        assert(q[i] == p[i - 1]);
    }
}

/// If no unvisited source of a data edge into `node` reaches `to` without
/// the visited nodes, `node` does not reach it either.
proof fn lemma_dfs_complete(es: Set<(Node, Node, EdgeInfo)>, node: Node, to: Node, d: Set<Node>)
    requires
        node != to,
        forall|c: Node| data_edge(es, c, node) && !d.insert(node).contains(c)
            ==> !#[trigger] reach_avoiding(es, c, to, d.insert(node)),
    ensures
        !reach_avoiding(es, node, to, d),
{
    if reach_avoiding(es, node, to, d) {
        let p = choose|p: Seq<Node>| #[trigger] back_path(es, p, node, to) && avoids(p, d);
        lemma_cut(es, p, node, to, d);
        let d1 = d.insert(node);
        let q = choose|q: Seq<Node>| #[trigger] back_path(es, q, node, to) && avoids(q, d1);
        assert(q.len() >= 2);
        let c = q[1];
        assert(back_step(es, q, 0));
        let r = q.skip(1);
        assert forall|i: int| 0 <= i < r.len() - 1 implies #[trigger] back_step(es, r, i) by {
            assert(back_step(es, q, i + 1));
        }
        assert(back_path(es, r, c, to));
        assert forall|i: int| 1 <= i < r.len() implies !d1.contains(#[trigger] r[i]) by {
            assert(r[i] == q[i + 1]);
        }
        assert(reach_avoiding(es, c, to, d1));
    }
}

proof fn lemma_seen_push(v: Seq<Node>, x: Node)
    ensures
        seen(v.push(x)) == seen(v).insert(x),
{
    assert forall|n: Node| v.push(x).contains(n) <==> (v.contains(n) || n == x) by {
        if v.push(x).contains(n) {
            let i = choose|i: int| 0 <= i < v.push(x).len() && v.push(x)[i] == n;
            if i < v.len() {
                assert(v[i] == n);
            }
        }
        if v.contains(n) {
            let i = choose|i: int| 0 <= i < v.len() && v[i] == n;
            assert(v.push(x)[i] == n);
        }
        if n == x {
            assert(v.push(x)[v.len() as int] == n);
        }
    }
    assert forall|n: Node| seen(v.push(x)).contains(n) == seen(v).insert(x).contains(n) by {
        assert(seen(v.push(x)).contains(n) == v.push(x).contains(n));
        assert(seen(v).contains(n) == v.contains(n));
    }
    assert(seen(v.push(x)) =~= seen(v).insert(x));
}

fn contains_node(v: &Vec<Node>, n: Node) -> (r: bool)
    ensures
        r == v@.contains(n),
{
    let mut i: usize = 0;
    while i < v.len()
        invariant
            i <= v.len(),
            forall|j: int| 0 <= j < i ==> v@[j] != n,
        decreases v.len() - i,
    {
        if v[i] == n {
            assert(v@[i as int] == n);
            return true;
        }
        i = i + 1;
    }
    false
}

fn copy_nodes(v: &Vec<Node>) -> (r: Vec<Node>)
    ensures
        r@ == v@,
{
    let mut r: Vec<Node> = Vec::new();
    let mut i: usize = 0;
    while i < v.len()
        invariant
            i <= v.len(),
            r@ == v@.take(i as int),
        decreases v.len() - i,
    {
        r.push(v[i]);
        i = i + 1;
        assert(r@ =~= v@.take(i as int));
    }
    assert(v@.take(v.len() as int) =~= v@);
    r
}

fn any_true(results: &Vec<bool>) -> (r: bool)
    ensures
        r == results@.contains(true),
{
    let mut i: usize = 0;
    while i < results.len()
        invariant
            i <= results.len(),
            forall|j: int| 0 <= j < i ==> !results@[j],
        decreases results.len() - i,
    {
        if results[i] {
            assert(results@[i as int] == true);
            return true;
        }
        i = i + 1;
    }
    false
}

proof fn lemma_open_edges_shrink(es: Set<(Node, Node, EdgeInfo)>, d: Set<Node>, e: (Node, Node, EdgeInfo))
    requires
        es.finite(),
        es.contains(e),
        !d.contains(e.1),
    ensures
        open_edges(es, d.insert(e.1)).len() < open_edges(es, d).len(),
{
    let big = open_edges(es, d);
    let small = open_edges(es, d.insert(e.1));
    vstd::set_lib::lemma_set_subset_finite(es, big);
    assert(big.contains(e));
    assert(small.subset_of(big.remove(e)));
    vstd::set_lib::lemma_len_subset(small, big.remove(e));
}

/// Whether going back against data edges from `node`, without passing
/// through a node already discovered, reaches `target`; `node` is added to
/// the discovered nodes.
fn dfs_helper(spdg: &SPDG, node: Node, target: Node, discovered: &mut Vec<Node>) -> (r: bool)
    requires
        !old(discovered)@.contains(node),
        spdg_edges(spdg.graph).finite(),
    ensures
        final(discovered)@ == old(discovered)@.push(node),
        r == reach_avoiding(spdg_edges(spdg.graph), node, target, seen(old(discovered)@)),
    decreases open_edges(spdg_edges(spdg.graph), seen(old(discovered)@)).len(),
{
    let ghost es = spdg_edges(spdg.graph);
    let ghost d0 = seen(discovered@);
    proof {
        lemma_seen_push(discovered@, node);
    }
    discovered.push(node);
    let ghost d1 = seen(discovered@);
    if node == target {
        proof {
            let p = seq![node];
            assert(back_path(es, p, node, target));
            assert(avoids(p, d0));
        }
        return true;
    }
    let mut tentative = false;
    let mut results: Vec<bool> = Vec::new();
    let edges = incoming_edges(&spdg.graph, node);
    let mut k: usize = 0;
    while k < edges.len()
        invariant
            es == spdg_edges(spdg.graph),
            es.finite(),
            node != target,
            d1 == d0.insert(node),
            d0 == seen(old(discovered)@),
            discovered@ == old(discovered)@.push(node),
            seen(discovered@) == d1,
            !d0.contains(node),
            forall|i: int| 0 <= i < edges.len() ==> es.contains(#[trigger] edges@[i]) && edges@[i].1 == node,
            k <= edges.len(),
            results@.contains(true) ==> reach_avoiding(es, node, target, d0),
            !results@.contains(true) ==> forall|j: int| 0 <= j < k && (#[trigger] edges@[j]).2.kind is Data
                && !d1.contains(edges@[j].0) ==> !reach_avoiding(es, edges@[j].0, target, d1),
        decreases edges.len() - k,
    {
        let (source, _t, edge_info) = edges[k];
        assert(edges@[k as int] == (source, _t, edge_info));
        if edge_info.is_control() {
            k = k + 1;
            continue;
        }
        if contains_node(discovered, source) {
            k = k + 1;
            continue;
        }
        if edge_info.is_tentative() {
            tentative = true;
        }
        proof {
            assert(!d1.contains(source));
            assert(!d0.contains(source));
            assert(edges@[k as int] == (source, node, edge_info));
            assert(data_edge(es, source, node));
            lemma_open_edges_shrink(es, d0, (source, node, edge_info));
        }
        let mut sub = copy_nodes(discovered);
        let res = dfs_helper(spdg, source, target, &mut sub);
        if res {
            proof {
                lemma_extend(es, node, source, target, d0);
            }
        }
        if !tentative && res {
            return res;
        }
        let ghost before = results@;
        results.push(res);
        proof {
            assert(results@[before.len() as int] == res);
            if !results@.contains(true) {
                assert(!res);
                assert forall|i: int| 0 <= i < before.len() implies before[i] != true by {
                    assert(results@[i] == before[i]);
                }
                assert(!reach_avoiding(es, source, target, d1));
            }
            if results@.contains(true) {
                if !res {
                    let j = choose|j: int| 0 <= j < results@.len() && results@[j] == true;
                    assert(before[j] == true);
                }
            }
        }
        k = k + 1;
    }
    let found = any_true(&results);
    proof {
        if !found {
            assert forall|c: Node| data_edge(es, c, node) && !d1.contains(c)
                implies !#[trigger] reach_avoiding(es, c, target, d1) by {
                let w = choose|w: EdgeInfo| #[trigger] es.contains((c, node, w)) && w.kind is Data;
                assert(edges@.contains((c, node, w)));
                let j = choose|j: int| 0 <= j < edges@.len() && edges@[j] == (c, node, w);
                assert(edges@[j].2.kind is Data);
            }
            lemma_dfs_complete(es, node, target, d0);
        }
    }
    if tentative {
        found
    } else {
        found
    }
}

proof fn lemma_reach_weaken(es: Set<(Node, Node, EdgeInfo)>, a: Node, b: Node, d: Set<Node>)
    requires
        reach_avoiding(es, a, b, d),
    ensures
        reach_avoiding(es, a, b, Set::empty()),
{
    let p = choose|p: Seq<Node>| #[trigger] back_path(es, p, a, b) && avoids(p, d);
    assert(avoids(p, Set::empty()));
}

/// No node after the first on a path from `start` that avoids `start` is one
/// of the children in `order`, when none of them reaches `target` avoiding
/// `start` and the children before it.
proof fn lemma_first_child(
    es: Set<(Node, Node, EdgeInfo)>,
    q: Seq<Node>,
    start: Node,
    target: Node,
    order: Seq<Node>,
    m: int,
)
    requires
        back_path(es, q, start, target),
        avoids(q, Set::empty().insert(start)),
        0 <= m < order.len(),
        forall|k: int| 0 <= k < order.len() ==>
            !#[trigger] reach_avoiding(es, order[k], target, seen(seq![start] + order.take(k))),
    ensures
        forall|k: int, i: int| 0 <= k <= m && 1 <= i < q.len() ==> #[trigger] q[i] != #[trigger] order[k],
    decreases m,
{
    if m > 0 {
        lemma_first_child(es, q, start, target, order, m - 1);
    }
    if exists|j: int| 1 <= j < q.len() && q[j] == order[m] {
        let j = choose|j: int| 1 <= j < q.len() && q[j] == order[m];
        let r = q.skip(j);
        let d = seen(seq![start] + order.take(m));
        assert forall|i: int| 0 <= i < r.len() - 1 implies #[trigger] back_step(es, r, i) by {
            assert(back_step(es, q, i + j));
        }
        assert(back_path(es, r, order[m], target));
        assert forall|i: int| 1 <= i < r.len() implies !d.contains(#[trigger] r[i]) by {
            assert(r[i] == q[i + j]);
            if d.contains(r[i]) {
                let s = seq![start] + order.take(m);
                assert(s.contains(r[i]));
                let x = choose|x: int| 0 <= x < s.len() && s[x] == r[i];
                if x == 0 {
                    assert(Set::<Node>::empty().insert(start).contains(q[i + j]));
                } else {
                    assert(s[x] == order[x - 1]);
                    assert(q[i + j] != order[x - 1]);
                }
            }
        }
        assert(reach_avoiding(es, order[m], target, d));
    }
}

/// Whether data always flows from `target_node` to `start_node`: only data
/// edges are followed, so the answer is `false` for any other selection.
/// Going back from `start_node` against data edges, each edge into the start
/// is explored with the nodes discovered so far excluded; the answer is
/// whether `target_node` is reached, which is whether data flows from it to
/// `start_node` at all.
pub fn always_depends(start_node: Node, edge_selection: EdgeSelection, spdg: &SPDG, target_node: Node) -> (r: bool)
    ensures
        r == (edge_selection is Data && depends_on(spdg_edges(spdg.graph), start_node, target_node)),
{
    if !edge_selection.is_data() {
        return false;
    }
    let ghost es = spdg_edges(spdg.graph);
    let mut discovered: Vec<Node> = Vec::new();
    discovered.push(start_node);
    let mut tentative = false;
    let mut results: Vec<bool> = Vec::new();
    if start_node == target_node {
        proof {
            let p = seq![start_node];
            assert(back_path(es, p, start_node, target_node));
            assert(avoids(p, Set::empty()));
        }
        return true;
    }
    let edges = incoming_edges(&spdg.graph, start_node);
    let ghost mut order: Seq<Node> = Seq::empty();
    assert(discovered@ =~= seq![start_node] + order);
    let mut k: usize = 0;
    while k < edges.len()
        invariant
            es == spdg_edges(spdg.graph),
            es.finite(),
            edge_selection is Data,
            start_node != target_node,
            forall|i: int| 0 <= i < edges.len() ==> es.contains(#[trigger] edges@[i]) && edges@[i].1 == start_node,
            k <= edges.len(),
            discovered@ == seq![start_node] + order,
            results@.len() == order.len(),
            forall|m: int| 0 <= m < order.len() ==> (#[trigger] order[m]) != start_node && data_edge(es, order[m], start_node),
            forall|m: int| 0 <= m < order.len() ==> #[trigger] results@[m]
                == reach_avoiding(es, order[m], target_node, seen(seq![start_node] + order.take(m))),
            forall|j: int| 0 <= j < k && (#[trigger] edges@[j]).2.kind is Data ==> discovered@.contains(edges@[j].0),
        decreases edges.len() - k,
    {
        let (source, _t, edge_info) = edges[k];
        assert(edges@[k as int] == (source, _t, edge_info));
        if edge_info.is_control() {
            k = k + 1;
            continue;
        }
        if contains_node(&discovered, source) {
            k = k + 1;
            continue;
        }
        if edge_info.is_tentative() {
            tentative = true;
        }
        let ghost old_disc = discovered@;
        let ghost old_order = order;
        let ghost old_results = results@;
        let res = dfs_helper(spdg, source, target_node, &mut discovered);
        proof {
            assert(data_edge(es, source, start_node));
            assert(source != start_node) by {
                assert(old_disc[0] == start_node);
            }
            order = order.push(source);
            assert(order.take(old_order.len() as int) =~= old_order);
            assert(discovered@ =~= seq![start_node] + order);
            assert(discovered@[discovered@.len() - 1] == source);
            if res {
                lemma_reach_weaken(es, source, target_node, seen(old_disc));
                lemma_extend(es, start_node, source, target_node, Set::empty());
            }
            assert forall|j: int| 0 <= j < k + 1 && (#[trigger] edges@[j]).2.kind is Data
                implies discovered@.contains(edges@[j].0) by {
                if j < k {
                    let x = choose|x: int| 0 <= x < old_disc.len() && old_disc[x] == edges@[j].0;
                    assert(discovered@[x] == old_disc[x]);
                }
            }
        }
        if !tentative && res {
            return res;
        }
        results.push(res);
        proof {
            assert forall|m: int| 0 <= m < order.len() implies #[trigger] results@[m]
                == reach_avoiding(es, order[m], target_node, seen(seq![start_node] + order.take(m))) by {
                if m < old_order.len() {
                    assert(order.take(m) =~= old_order.take(m));
                    assert(results@[m] == old_results[m]);
                    assert(order[m] == old_order[m]);
                } else {
                    assert(order.take(m) =~= old_order);
                    assert(old_disc == seq![start_node] + old_order);
                }
            }
        }
        k = k + 1;
    }
    let found = any_true(&results);
    proof {
        if found {
            let m = choose|m: int| 0 <= m < results@.len() && results@[m] == true;
            lemma_reach_weaken(es, order[m], target_node, seen(seq![start_node] + order.take(m)));
            lemma_extend(es, start_node, order[m], target_node, Set::empty());
        } else if depends_on(es, start_node, target_node) {
            let p = choose|p: Seq<Node>| #[trigger] back_path(es, p, start_node, target_node) && avoids(p, Set::empty());
            lemma_cut(es, p, start_node, target_node, Set::empty());
            let d1 = Set::<Node>::empty().insert(start_node);
            let q = choose|q: Seq<Node>| #[trigger] back_path(es, q, start_node, target_node) && avoids(q, d1);
            assert(q.len() >= 2);
            assert(back_step(es, q, 0));
            let c = q[1];
            let w = choose|w: EdgeInfo| #[trigger] es.contains((c, start_node, w)) && w.kind is Data;
            assert(edges@.contains((c, start_node, w)));
            let j = choose|j: int| 0 <= j < edges@.len() && edges@[j] == (c, start_node, w);
            assert(discovered@.contains(c));
            let x = choose|x: int| 0 <= x < discovered@.len() && discovered@[x] == c;
            assert(x != 0);
            assert(order[x - 1] == c);
            assert forall|m: int| 0 <= m < order.len() implies
                !#[trigger] reach_avoiding(es, order[m], target_node, seen(seq![start_node] + order.take(m))) by {
                assert(!results@[m]);
            }
            lemma_first_child(es, q, start_node, target_node, order, order.len() - 1);
            assert(q[1] != order[x - 1]);
        }
    }
    if tentative {
        found
    } else {
        found
    }
}

/// Data that `always_depends` finds is the flow that `generic_flows_to`
/// finds with data edges, seen from the other end: `start` depends on
/// `target` exactly when `target` flows to `start` along data edges.
pub proof fn lemma_depends_on_is_data_flow(es: Set<(Node, Node, EdgeInfo)>, start: Node, target: Node)
    ensures
        depends_on(es, start, target) == flows(es, EdgeSelection::Data, target, start),
{
    if depends_on(es, start, target) {
        let p = choose|p: Seq<Node>| #[trigger] back_path(es, p, start, target) && avoids(p, Set::empty());
        let n = p.len();
        let q = Seq::new(n, |i: int| p[n - 1 - i]);
        assert forall|i: int| 0 <= i < q.len() - 1 implies #[trigger] forward_step(es, EdgeSelection::Data, q, i) by {
            assert(back_step(es, p, n - 2 - i));
            let w = choose|w: EdgeInfo| #[trigger] es.contains((p[n - 1 - i], p[n - 2 - i], w)) && w.kind is Data;
            assert(es.contains((q[i], q[i + 1], w)));
        }
        assert(q.last() == p[0]);
    }
    if flows(es, EdgeSelection::Data, target, start) {
        let q = choose|q: Seq<Node>| {
            &&& q.len() >= 1
            &&& q[0] == target
            &&& q.last() == start
            &&& forall|i: int| 0 <= i < q.len() - 1 ==> #[trigger] forward_step(es, EdgeSelection::Data, q, i)
        };
        let n = q.len();
        let p = Seq::new(n, |i: int| q[n - 1 - i]);
        assert forall|i: int| 0 <= i < p.len() - 1 implies #[trigger] back_step(es, p, i) by {
            assert(forward_step(es, EdgeSelection::Data, q, n - 2 - i));
            let w = choose|w: EdgeInfo| #[trigger] es.contains((q[n - 2 - i], q[n - 1 - i], w))
                && spec_conforms(EdgeSelection::Data, w.kind);
            assert(es.contains((p[i + 1], p[i], w)));
        }
        assert(p.last() == q[0]);
        assert(back_path(es, p, start, target));
        assert(avoids(p, Set::empty()));
    }
}

} // verus!
