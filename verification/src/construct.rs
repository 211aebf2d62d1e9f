use vstd::prelude::*;

use crate::algebra::{grows, set_insert, Symbol};
use crate::resolver::{Local, Place, PlaceElem};
use crate::traverse::{EdgeKind, Tentativeness};
use petgraph::graph::{Graph, NodeIndex};
use petgraph::Directed;

verus! {

/// A place as its local and its projections.
pub type PlaceV = (Local, Seq<PlaceElem>);

/// The abstract value of a place.
pub open spec fn place_view(p: Place) -> PlaceV {
    (p.local, p.projection@)
}

/// Places are distinct when they are different fields of one value: they
/// have the same local and the same projections but for the last one, which
/// they both have. So `_15.0` and `_15.1` are distinct; `_15` and `_15.0`
/// overlap, as do `_15.0` and `_15.0.1`, one being part of the other; and
/// `_16` and `_15` cannot be told apart (they may alias).
pub open spec fn spec_places_distinct(p1: PlaceV, p2: PlaceV) -> bool {
    &&& p1.0 == p2.0
    &&& p1.1.len() == p2.1.len()
    &&& p1.1.len() >= 1
    &&& p1.1.take(p1.1.len() - 1) == p2.1.take(p2.1.len() - 1)
}

fn eq_symbol(a: Option<Symbol>, b: Option<Symbol>) -> (r: bool)
    ensures
        r == (a == b),
{
    match (a, b) {
        (Some(x), Some(y)) => x == y,
        (None, None) => true,
        _ => false,
    }
}

fn eq_elem(a: PlaceElem, b: PlaceElem) -> (r: bool)
    ensures
        r == (a == b),
{
    match (a, b) {
        (PlaceElem::Deref, PlaceElem::Deref) => true,
        (PlaceElem::Field(f), PlaceElem::Field(g)) => f == g,
        (PlaceElem::Index(l), PlaceElem::Index(m)) => l == m,
        (PlaceElem::ConstantIndex, PlaceElem::ConstantIndex) => true,
        (PlaceElem::Subslice, PlaceElem::Subslice) => true,
        (PlaceElem::Downcast(s, v), PlaceElem::Downcast(t, w)) => eq_symbol(s, t) && v == w,
        (PlaceElem::OpaqueCast, PlaceElem::OpaqueCast) => true,
        (PlaceElem::Subtype, PlaceElem::Subtype) => true,
        _ => false,
    }
}

/// Whether the first `n` projections of `a` and `b` agree.
fn eq_elems_prefix(a: &Vec<PlaceElem>, b: &Vec<PlaceElem>, n: usize) -> (r: bool)
    requires
        n <= a.len(),
        n <= b.len(),
    ensures
        r == (a@.take(n as int) == b@.take(n as int)),
{
    let mut i: usize = 0;
    while i < n
        invariant
            n <= a.len(),
            n <= b.len(),
            i <= n,
            a@.take(i as int) == b@.take(i as int),
        decreases n - i,
    {
        if !eq_elem(a[i], b[i]) {
            assert(a@.take(n as int)[i as int] != b@.take(n as int)[i as int]);
            return false;
        }
        i = i + 1;
        assert(a@.take(i as int) =~= b@.take(i as int));
    }
    true
}

/// Whether the two places are distinct fields of one value; see
/// `spec_places_distinct`.
pub fn places_distinct(p1: &Place, p2: &Place) -> (r: bool)
    ensures
        r == spec_places_distinct(place_view(*p1), place_view(*p2)),
{
    if p1.local != p2.local {
        return false;
    }
    let length = p1.projection.len();
    if length != p2.projection.len() || length == 0 {
        return false;
    }
    eq_elems_prefix(&p1.projection, &p2.projection, length - 1)
}

fn eq_place(a: &Place, b: &Place) -> (r: bool)
    ensures
        r == (place_view(*a) == place_view(*b)),
{
    if a.local != b.local || a.projection.len() != b.projection.len() {
        return false;
    }
    let r = eq_elems_prefix(&a.projection, &b.projection, a.projection.len());
    assert(a.projection@.take(a.projection.len() as int) =~= a.projection@);
    assert(b.projection@.take(b.projection.len() as int) =~= b.projection@);
    r
}

/// A location in a function.
#[derive(Clone, Copy, Debug, PartialEq, Eq, Structural, Hash)]
pub struct GlobalLocation {
    pub function: u32,
    pub location: u32,
}

/// Where a node or an edge is, through the chain of calls that inlined it,
/// the outermost function first.
#[derive(Clone, Debug, PartialEq, Eq, Hash)]
pub struct CallString {
    pub locations: Vec<GlobalLocation>,
}

fn eq_call_string(a: &CallString, b: &CallString) -> (r: bool)
    ensures
        r == (a.locations@ == b.locations@),
{
    if a.locations.len() != b.locations.len() {
        return false;
    }
    let mut i: usize = 0;
    while i < a.locations.len()
        invariant
            a.locations.len() == b.locations.len(),
            i <= a.locations.len(),
            a.locations@.take(i as int) == b.locations@.take(i as int),
        decreases a.locations.len() - i,
    {
        if a.locations[i] != b.locations[i] {
            return false;
        }
        i = i + 1;
        assert(a.locations@.take(i as int) =~= b.locations@.take(i as int));
    }
    assert(a.locations@.take(a.locations.len() as int) =~= a.locations@);
    assert(b.locations@.take(b.locations.len() as int) =~= b.locations@);
    true
}

fn copy_call_string(a: &CallString) -> (r: CallString)
    ensures
        r.locations@ == a.locations@,
{
    let mut locations: Vec<GlobalLocation> = Vec::new();
    let mut i: usize = 0;
    while i < a.locations.len()
        invariant
            i <= a.locations.len(),
            locations@ == a.locations@.take(i as int),
        decreases a.locations.len() - i,
    {
        locations.push(a.locations[i]);
        i = i + 1;
        assert(locations@ =~= a.locations@.take(i as int));
    }
    assert(a.locations@.take(a.locations.len() as int) =~= a.locations@);
    CallString { locations }
}

fn copy_place(p: &Place) -> (r: Place)
    ensures
        place_view(r) == place_view(*p),
{
    let mut projection: Vec<PlaceElem> = Vec::new();
    let mut i: usize = 0;
    while i < p.projection.len()
        invariant
            i <= p.projection.len(),
            projection@ == p.projection@.take(i as int),
        decreases p.projection.len() - i,
    {
        projection.push(p.projection[i]);
        i = i + 1;
        assert(projection@ =~= p.projection@.take(i as int));
    }
    assert(p.projection@.take(p.projection.len() as int) =~= p.projection@);
    Place { local: p.local, projection }
}

/// A node of a dependence graph: a place at a point of execution.
#[derive(Clone, Debug, PartialEq, Eq, Hash)]
pub struct DepNode {
    pub place: Place,
    pub at: CallString,
}

/// A node as its place and its call string.
pub type DepNodeV = (PlaceV, Seq<GlobalLocation>);

/// The abstract value of a node.
pub open spec fn node_view(n: DepNode) -> DepNodeV {
    (place_view(n.place), n.at.locations@)
}

fn eq_node(a: &DepNode, b: &DepNode) -> (r: bool)
    ensures
        r == (node_view(*a) == node_view(*b)),
{
    eq_place(&a.place, &b.place) && eq_call_string(&a.at, &b.at)
}

fn copy_node(a: &DepNode) -> (r: DepNode)
    ensures
        node_view(r) == node_view(*a),
{
    DepNode { place: copy_place(&a.place), at: copy_call_string(&a.at) }
}

/// How a data edge's source is used.
#[derive(Clone, Copy, Debug, PartialEq, Eq, Structural, Hash)]
pub enum SourceUse {
    Operand,
    Argument(u8),
}

/// How a data edge's target is used.
#[derive(Clone, Copy, Debug, PartialEq, Eq, Structural, Hash)]
pub enum TargetUse {
    Return,
    MutArg(u8),
    Assign,
}

/// An edge of a dependence graph.
#[derive(Clone, Debug, PartialEq, Eq, Hash)]
pub struct DepEdge {
    pub kind: EdgeKind,
    pub at: CallString,
    pub source_use: SourceUse,
    pub target_use: TargetUse,
    pub tentativeness: Tentativeness,
}

/// An edge as its kind, call string, uses and tentativeness.
pub type DepEdgeV = (EdgeKind, Seq<GlobalLocation>, SourceUse, TargetUse, Tentativeness);

/// The abstract value of an edge.
pub open spec fn edge_view(e: DepEdge) -> DepEdgeV {
    (e.kind, e.at.locations@, e.source_use, e.target_use, e.tentativeness)
}

impl DepEdge {
    /// A data edge.
    pub fn data(at: CallString, source_use: SourceUse, target_use: TargetUse, tentativeness: Tentativeness) -> (r: Self)
        ensures
            edge_view(r) == (EdgeKind::Data, at.locations@, source_use, target_use, tentativeness),
    {
        DepEdge { kind: EdgeKind::Data, at, source_use, target_use, tentativeness }
    }
}

fn eq_edge(a: &DepEdge, b: &DepEdge) -> (r: bool)
    ensures
        r == (edge_view(*a) == edge_view(*b)),
{
    a.kind == b.kind && eq_call_string(&a.at, &b.at) && a.source_use == b.source_use
        && a.target_use == b.target_use && a.tentativeness == b.tentativeness
}

fn copy_edge(a: &DepEdge) -> (r: DepEdge)
    ensures
        edge_view(r) == edge_view(*a),
{
    DepEdge {
        kind: a.kind,
        at: copy_call_string(&a.at),
        source_use: a.source_use,
        target_use: a.target_use,
        tentativeness: a.tentativeness,
    }
}

/// An edge with its endpoints.
pub type TripleV = (DepNodeV, DepNodeV, DepEdgeV);

/// The dependence graph of one function, inlined calls included, as a set
/// of nodes and a set of edges.
pub struct PartialGraph {
    pub nodes: Vec<DepNode>,
    pub edges: Vec<(DepNode, DepNode, DepEdge)>,
}

/// The abstract value of the nodes.
pub open spec fn nodes_view(s: Seq<DepNode>) -> Seq<DepNodeV> {
    s.map_values(|n: DepNode| node_view(n))
}

/// The abstract value of the edges.
pub open spec fn edges_view(s: Seq<(DepNode, DepNode, DepEdge)>) -> Seq<TripleV> {
    s.map_values(|e: (DepNode, DepNode, DepEdge)| (node_view(e.0), node_view(e.1), edge_view(e.2)))
}

/// `s` with each of `items` added, in order, unless already there.
pub open spec fn insert_all<T>(s: Seq<T>, items: Seq<T>) -> Seq<T>
    decreases items.len(),
{
    if items.len() == 0 {
        s
    } else {
        set_insert(insert_all(s, items.drop_last()), items.last())
    }
}

/// Every place of `s` is distinct from the place of `n`.
pub open spec fn all_distinct_from(s: Seq<DepNodeV>, n: DepNodeV) -> bool {
    forall|i: int| 0 <= i < s.len() ==> spec_places_distinct(#[trigger] s[i].0, n.0)
}

/// The data inputs counted for tentativeness: the first one, then each one
/// whose place overlaps the place of some input counted before, without
/// repeats.
pub open spec fn overlap_seen(inputs: Seq<DepNodeV>) -> Seq<DepNodeV>
    decreases inputs.len(),
{
    if inputs.len() == 0 {
        Seq::empty()
    } else {
        let s = overlap_seen(inputs.drop_last());
        let n = inputs.last();
        if s.len() == 0 {
            seq![n]
        } else if !all_distinct_from(s, n) {
            set_insert(s, n)
        } else {
            s
        }
    }
}

/// Data flowing in from more than one counted input is tentative.
pub open spec fn input_tentativeness(inputs: Seq<DepNodeV>) -> Tentativeness {
    if overlap_seen(inputs).len() > 1 { Tentativeness::ControlFlowInduced } else { Tentativeness::Certain }
}

/// The data edges from each input, in order, to each output, in order.
pub open spec fn data_edges(
    inputs: Seq<(DepNodeV, SourceUse)>,
    outputs: Seq<DepNodeV>,
    at: Seq<GlobalLocation>,
    target_use: TargetUse,
    tent: Tentativeness,
) -> Seq<TripleV>
    decreases inputs.len(),
{
    if inputs.len() == 0 {
        Seq::empty()
    } else {
        let i = inputs.last();
        data_edges(inputs.drop_last(), outputs, at, target_use, tent)
            + outputs.map_values(|o: DepNodeV| (i.0, o, (EdgeKind::Data, at, i.1, target_use, tent)))
    }
}

/// The control edges from each input, in order, to each output, in order.
pub open spec fn ctrl_edges(ctrl: Seq<(DepNodeV, DepEdgeV)>, outputs: Seq<DepNodeV>) -> Seq<TripleV>
    decreases ctrl.len(),
{
    if ctrl.len() == 0 {
        Seq::empty()
    } else {
        let c = ctrl.last();
        ctrl_edges(ctrl.drop_last(), outputs) + outputs.map_values(|o: DepNodeV| (c.0, o, c.1))
    }
}

/// The abstract value of the data inputs.
pub open spec fn inputs_view(s: Seq<(DepNode, SourceUse)>) -> Seq<(DepNodeV, SourceUse)> {
    s.map_values(|x: (DepNode, SourceUse)| (node_view(x.0), x.1))
}

/// The abstract value of the control inputs.
pub open spec fn ctrl_view(s: Seq<(DepNode, DepEdge)>) -> Seq<(DepNodeV, DepEdgeV)> {
    s.map_values(|x: (DepNode, DepEdge)| (node_view(x.0), edge_view(x.1)))
}

/// The input nodes of the data inputs.
pub open spec fn input_nodes(s: Seq<(DepNode, SourceUse)>) -> Seq<DepNodeV> {
    s.map_values(|x: (DepNode, SourceUse)| node_view(x.0))
}

fn insert_node(s: &mut Vec<DepNode>, n: &DepNode)
    ensures
        nodes_view(final(s)@) == set_insert(nodes_view(old(s)@), node_view(*n)),
{
    let mut i: usize = 0;
    while i < s.len()
        invariant
            s@ == old(s)@,
            i <= s.len(),
            forall|j: int| 0 <= j < i ==> node_view(s@[j]) != node_view(*n),
        decreases s.len() - i,
    {
        if eq_node(&s[i], n) {
            assert(nodes_view(s@)[i as int] == node_view(*n));
            return;
        }
        i = i + 1;
    }
    assert(!nodes_view(s@).contains(node_view(*n)));
    let c = copy_node(n);
    s.push(c);
    assert(nodes_view(s@) =~= nodes_view(old(s)@).push(node_view(*n)));
}

fn insert_edge(s: &mut Vec<(DepNode, DepNode, DepEdge)>, a: &DepNode, b: &DepNode, e: &DepEdge)
    ensures
        edges_view(final(s)@) == set_insert(edges_view(old(s)@), (node_view(*a), node_view(*b), edge_view(*e))),
{
    let ghost t = (node_view(*a), node_view(*b), edge_view(*e));
    let mut i: usize = 0;
    while i < s.len()
        invariant
            s@ == old(s)@,
            t == (node_view(*a), node_view(*b), edge_view(*e)),
            i <= s.len(),
            forall|j: int| 0 <= j < i ==> edges_view(s@)[j] != t,
        decreases s.len() - i,
    {
        if eq_node(&s[i].0, a) && eq_node(&s[i].1, b) && eq_edge(&s[i].2, e) {
            assert(edges_view(s@)[i as int] == t);
            return;
        }
        assert(edges_view(s@)[i as int] != t);
        i = i + 1;
    }
    assert(!edges_view(s@).contains(t));
    s.push((copy_node(a), copy_node(b), copy_edge(e)));
    assert(edges_view(s@) =~= edges_view(old(s)@).push(t));
}

/// The tentativeness of data flowing in from `data_inputs`: tentative when
/// more than one input is counted (see `overlap_seen`).
pub fn data_tentativeness(data_inputs: &Vec<(DepNode, SourceUse)>) -> (r: Tentativeness)
    ensures
        r == input_tentativeness(input_nodes(data_inputs@)),
{
    let ghost ins = input_nodes(data_inputs@);
    let mut seen: Vec<DepNode> = Vec::new();
    let mut k: usize = 0;
    assert(nodes_view(seen@) =~= Seq::<DepNodeV>::empty());
    while k < data_inputs.len()
        invariant
            ins == input_nodes(data_inputs@),
            k <= data_inputs.len(),
            nodes_view(seen@) == overlap_seen(ins.take(k as int)),
        decreases data_inputs.len() - k,
    {
        let node = &data_inputs[k].0;
        assert(ins.take(k + 1).drop_last() =~= ins.take(k as int));
        assert(ins.take(k + 1).last() == node_view(*node));
        if seen.len() == 0 {
            insert_node(&mut seen, node);
            assert(nodes_view(seen@) =~= seq![node_view(*node)]);
        } else {
            let mut all = true;
            let mut j: usize = 0;
            while j < seen.len()
                invariant
                    j <= seen.len(),
                    all == (forall|i: int| 0 <= i < j ==> spec_places_distinct(#[trigger] nodes_view(seen@)[i].0, node_view(*node).0)),
                decreases seen.len() - j,
            {
                let d = places_distinct(&seen[j].place, &node.place);
                proof {
                    assert(nodes_view(seen@)[j as int].0 == place_view(seen@[j as int].place));
                    if !d {
                        assert(!spec_places_distinct(nodes_view(seen@)[j as int].0, node_view(*node).0));
                    }
                }
                all = all && d;
                j = j + 1;
            }
            if !all {
                insert_node(&mut seen, node);
            }
        }
        k = k + 1;
    }
    assert(ins.take(data_inputs.len() as int) =~= ins);
    if seen.len() > 1 {
        Tentativeness::ControlFlowInduced
    } else {
        Tentativeness::Certain
    }
}

proof fn lemma_insert_all_concat<T>(s: Seq<T>, a: Seq<T>, b: Seq<T>)
    ensures
        insert_all(s, a + b) == insert_all(insert_all(s, a), b),
    decreases b.len(),
{
    if b.len() == 0 {
        assert(a + b =~= a);
    } else {
        assert((a + b).drop_last() =~= a + b.drop_last());
        assert((a + b).last() == b.last());
        lemma_insert_all_concat(s, a, b.drop_last());
    }
}

/// Adds an edge from `input` to each output, in order.
fn connect_outputs(
    edges: &mut Vec<(DepNode, DepNode, DepEdge)>,
    input: &DepNode,
    outputs: &Vec<DepNode>,
    edge: &DepEdge,
)
    ensures
        edges_view(final(edges)@) == insert_all(
            edges_view(old(edges)@),
            nodes_view(outputs@).map_values(|o: DepNodeV| (node_view(*input), o, edge_view(*edge))),
        ),
{
    let ghost outs = nodes_view(outputs@).map_values(|o: DepNodeV| (node_view(*input), o, edge_view(*edge)));
    let mut j: usize = 0;
    while j < outputs.len()
        invariant
            outs == nodes_view(outputs@).map_values(|o: DepNodeV| (node_view(*input), o, edge_view(*edge))),
            j <= outputs.len(),
            edges_view(edges@) == insert_all(edges_view(old(edges)@), outs.take(j as int)),
        decreases outputs.len() - j,
    {
        assert(outs.take(j + 1).drop_last() =~= outs.take(j as int));
        assert(outs.take(j + 1).last() == (node_view(*input), node_view(outputs@[j as int]), edge_view(*edge)));
        insert_edge(edges, input, &outputs[j], edge);
        j = j + 1;
    }
    assert(outs.take(outputs.len() as int) =~= outs);
}

impl PartialGraph {
    /// Records that the outputs were mutated from the data inputs under the
    /// control inputs: the outputs become nodes; each data input gets a data
    /// edge, at `call_string`, to each output, tentative exactly when
    /// `tentativeness` says; each control input gets its edge to each output.
    fn connect(
        &mut self,
        data_inputs: &Vec<(DepNode, SourceUse)>,
        outputs: &Vec<DepNode>,
        ctrl_inputs: &Vec<(DepNode, DepEdge)>,
        call_string: &CallString,
        target_use: TargetUse,
        tentativeness: Tentativeness,
    )
        ensures
            nodes_view(final(self).nodes@) == insert_all(nodes_view(old(self).nodes@), nodes_view(outputs@)),
            edges_view(final(self).edges@) == insert_all(
                insert_all(
                    edges_view(old(self).edges@),
                    data_edges(inputs_view(data_inputs@), nodes_view(outputs@), call_string.locations@, target_use, tentativeness),
                ),
                ctrl_edges(ctrl_view(ctrl_inputs@), nodes_view(outputs@)),
            ),
    {
        let ghost outs = nodes_view(outputs@);
        let mut i: usize = 0;
        while i < outputs.len()
            invariant
                outs == nodes_view(outputs@),
                i <= outputs.len(),
                nodes_view(self.nodes@) == insert_all(nodes_view(old(self).nodes@), outs.take(i as int)),
                self.edges@ == old(self).edges@,
            decreases outputs.len() - i,
        {
            assert(outs.take(i + 1).drop_last() =~= outs.take(i as int));
            insert_node(&mut self.nodes, &outputs[i]);
            i = i + 1;
        }
        assert(outs.take(outputs.len() as int) =~= outs);
        let ghost ins = inputs_view(data_inputs@);
        let ghost e0 = edges_view(self.edges@);
        let mut k: usize = 0;
        while k < data_inputs.len()
            invariant
                outs == nodes_view(outputs@),
                ins == inputs_view(data_inputs@),
                k <= data_inputs.len(),
                nodes_view(self.nodes@) == insert_all(nodes_view(old(self).nodes@), outs),
                edges_view(self.edges@) == insert_all(e0, data_edges(ins.take(k as int), outs, call_string.locations@, target_use, tentativeness)),
            decreases data_inputs.len() - k,
        {
            let edge = DepEdge::data(copy_call_string(call_string), data_inputs[k].1, target_use, tentativeness);
            let ghost tk = ins.take(k + 1);
            assert(tk.drop_last() =~= ins.take(k as int));
            assert(tk.last() == (node_view(data_inputs@[k as int].0), data_inputs@[k as int].1));
            proof {
                let added = outs.map_values(|o: DepNodeV| (tk.last().0, o, (EdgeKind::Data, call_string.locations@, tk.last().1, target_use, tentativeness)));
                assert(added =~= outs.map_values(|o: DepNodeV| (node_view(data_inputs@[k as int].0), o, edge_view(edge))));
                lemma_insert_all_concat(e0, data_edges(ins.take(k as int), outs, call_string.locations@, target_use, tentativeness), added);
            }
            connect_outputs(&mut self.edges, &data_inputs[k].0, outputs, &edge);
            k = k + 1;
        }
        assert(ins.take(data_inputs.len() as int) =~= ins);
        let ghost cs = ctrl_view(ctrl_inputs@);
        let ghost e1 = edges_view(self.edges@);
        let mut c: usize = 0;
        while c < ctrl_inputs.len()
            invariant
                outs == nodes_view(outputs@),
                cs == ctrl_view(ctrl_inputs@),
                c <= ctrl_inputs.len(),
                nodes_view(self.nodes@) == insert_all(nodes_view(old(self).nodes@), outs),
                edges_view(self.edges@) == insert_all(e1, ctrl_edges(cs.take(c as int), outs)),
            decreases ctrl_inputs.len() - c,
        {
            let ghost tc = cs.take(c + 1);
            assert(tc.drop_last() =~= cs.take(c as int));
            assert(tc.last() == (node_view(ctrl_inputs@[c as int].0), edge_view(ctrl_inputs@[c as int].1)));
            proof {
                let added = outs.map_values(|o: DepNodeV| (tc.last().0, o, tc.last().1));
                assert(added =~= outs.map_values(|o: DepNodeV| (node_view(ctrl_inputs@[c as int].0), o, edge_view(ctrl_inputs@[c as int].1))));
                lemma_insert_all_concat(e1, ctrl_edges(cs.take(c as int), outs), added);
            }
            connect_outputs(&mut self.edges, &ctrl_inputs[c].0, outputs, &ctrl_inputs[c].1);
            c = c + 1;
        }
        assert(cs.take(ctrl_inputs.len() as int) =~= cs);
    }

    /// Takes in every node and edge of an inlined callee's graph.
    pub fn extend_with(&mut self, child: &PartialGraph)
        ensures
            nodes_view(final(self).nodes@) == insert_all(nodes_view(old(self).nodes@), nodes_view(child.nodes@)),
            edges_view(final(self).edges@) == insert_all(edges_view(old(self).edges@), edges_view(child.edges@)),
    {
        let ghost cn = nodes_view(child.nodes@);
        let mut i: usize = 0;
        while i < child.nodes.len()
            invariant
                cn == nodes_view(child.nodes@),
                i <= child.nodes.len(),
                nodes_view(self.nodes@) == insert_all(nodes_view(old(self).nodes@), cn.take(i as int)),
                self.edges@ == old(self).edges@,
            decreases child.nodes.len() - i,
        {
            assert(cn.take(i + 1).drop_last() =~= cn.take(i as int));
            insert_node(&mut self.nodes, &child.nodes[i]);
            i = i + 1;
        }
        assert(cn.take(child.nodes.len() as int) =~= cn);
        let ghost ce = edges_view(child.edges@);
        let mut j: usize = 0;
        while j < child.edges.len()
            invariant
                ce == edges_view(child.edges@),
                j <= child.edges.len(),
                nodes_view(self.nodes@) == insert_all(nodes_view(old(self).nodes@), cn),
                edges_view(self.edges@) == insert_all(edges_view(old(self).edges@), ce.take(j as int)),
            decreases child.edges.len() - j,
        {
            assert(ce.take(j + 1).drop_last() =~= ce.take(j as int));
            insert_edge(&mut self.edges, &child.edges[j].0, &child.edges[j].1, &child.edges[j].2);
            j = j + 1;
        }
        assert(ce.take(child.edges.len() as int) =~= ce);
    }

    /// Registers a mutation of `outputs` whose data comes from `data_inputs`:
    /// its data edges are tentative when the data flows in from overlapping
    /// places (see `data_tentativeness`), certain otherwise.
    pub fn register_mutation_with_tentativeness(
        &mut self,
        data_inputs: &Vec<(DepNode, SourceUse)>,
        outputs: &Vec<DepNode>,
        ctrl_inputs: &Vec<(DepNode, DepEdge)>,
        call_string: &CallString,
        target_use: TargetUse,
    )
        ensures
            nodes_view(final(self).nodes@) == insert_all(nodes_view(old(self).nodes@), nodes_view(outputs@)),
            edges_view(final(self).edges@) == insert_all(
                insert_all(
                    edges_view(old(self).edges@),
                    data_edges(
                        inputs_view(data_inputs@),
                        nodes_view(outputs@),
                        call_string.locations@,
                        target_use,
                        input_tentativeness(input_nodes(data_inputs@)),
                    ),
                ),
                ctrl_edges(ctrl_view(ctrl_inputs@), nodes_view(outputs@)),
            ),
    {
        let tent = data_tentativeness(data_inputs);
        self.connect(data_inputs, outputs, ctrl_inputs, call_string, target_use, tent);
    }

    /// Registers a mutation of `outputs` whose data comes from `data_inputs`,
    /// with certain data edges.
    pub fn register_mutation(
        &mut self,
        data_inputs: &Vec<(DepNode, SourceUse)>,
        outputs: &Vec<DepNode>,
        ctrl_inputs: &Vec<(DepNode, DepEdge)>,
        call_string: &CallString,
        target_use: TargetUse,
    )
        ensures
            nodes_view(final(self).nodes@) == insert_all(nodes_view(old(self).nodes@), nodes_view(outputs@)),
            edges_view(final(self).edges@) == insert_all(
                insert_all(
                    edges_view(old(self).edges@),
                    data_edges(
                        inputs_view(data_inputs@),
                        nodes_view(outputs@),
                        call_string.locations@,
                        target_use,
                        Tentativeness::Certain,
                    ),
                ),
                ctrl_edges(ctrl_view(ctrl_inputs@), nodes_view(outputs@)),
            ),
    {
        self.connect(data_inputs, outputs, ctrl_inputs, call_string, target_use, Tentativeness::Certain);
    }
}

/// A node of an inlined callee that reads from the caller, with the caller's
/// data inputs to the place it is translated to.
pub struct ChildSource {
    pub node: DepNode,
    pub parent_inputs: Vec<(DepNode, SourceUse)>,
}

/// A node of an inlined callee that writes back to the caller: through a
/// mutable argument (its index) or the return value (`None`), with the
/// caller's nodes for the place it is translated to.
pub struct ChildDestination {
    pub node: DepNode,
    pub mut_arg: Option<u8>,
    pub parent_outputs: Vec<DepNode>,
}

/// A graph as its nodes and its edges.
pub type GraphV = (Seq<DepNodeV>, Seq<TripleV>);

/// The abstract value of a graph.
pub open spec fn graph_view(g: PartialGraph) -> GraphV {
    (nodes_view(g.nodes@), edges_view(g.edges@))
}

/// The nodes that the data inputs come from.
pub open spec fn firsts(data: Seq<(DepNodeV, SourceUse)>) -> Seq<DepNodeV> {
    data.map_values(|x: (DepNodeV, SourceUse)| x.0)
}

/// `g` after a mutation of `outs` from `data` under `ctrl` is registered, its
/// data edges tentative as `input_tentativeness` says.
pub open spec fn mutation_step(
    g: GraphV,
    data: Seq<(DepNodeV, SourceUse)>,
    outs: Seq<DepNodeV>,
    ctrl: Seq<(DepNodeV, DepEdgeV)>,
    at: Seq<GlobalLocation>,
    target_use: TargetUse,
) -> GraphV {
    (
        insert_all(g.0, outs),
        insert_all(
            insert_all(g.1, data_edges(data, outs, at, target_use, input_tentativeness(firsts(data)))),
            ctrl_edges(ctrl, outs),
        ),
    )
}

/// A callee node reading from the caller, as the node and the caller's inputs.
pub type SourceV = (DepNodeV, Seq<(DepNodeV, SourceUse)>);

/// A callee node writing back, as the node, the argument and the caller's nodes.
pub type DestinationV = (DepNodeV, Option<u8>, Seq<DepNodeV>);

/// The abstract value of the callee's reading nodes.
pub open spec fn sources_view(s: Seq<ChildSource>) -> Seq<SourceV> {
    s.map_values(|c: ChildSource| (node_view(c.node), inputs_view(c.parent_inputs@)))
}

/// The abstract value of the callee's writing nodes.
pub open spec fn destinations_view(s: Seq<ChildDestination>) -> Seq<DestinationV> {
    s.map_values(|c: ChildDestination| (node_view(c.node), c.mut_arg, nodes_view(c.parent_outputs@)))
}

/// How a value written back by a callee is used.
pub open spec fn write_back_use(mut_arg: Option<u8>) -> TargetUse {
    match mut_arg {
        Some(k) => TargetUse::MutArg(k),
        None => TargetUse::Return,
    }
}

/// `g` after each callee node reading from the caller, in order, is
/// registered as assigned from the caller's inputs.
pub open spec fn sources_step(
    g: GraphV,
    srcs: Seq<SourceV>,
    ctrl: Seq<(DepNodeV, DepEdgeV)>,
    at: Seq<GlobalLocation>,
) -> GraphV
    decreases srcs.len(),
{
    if srcs.len() == 0 {
        g
    } else {
        let s = srcs.last();
        mutation_step(sources_step(g, srcs.drop_last(), ctrl, at), s.1, seq![s.0], ctrl, at, TargetUse::Assign)
    }
}

/// `g` after each callee node writing back, in order, is registered as the
/// input of the caller's nodes.
pub open spec fn destinations_step(
    g: GraphV,
    dsts: Seq<DestinationV>,
    ctrl: Seq<(DepNodeV, DepEdgeV)>,
    at: Seq<GlobalLocation>,
) -> GraphV
    decreases dsts.len(),
{
    if dsts.len() == 0 {
        g
    } else {
        let d = dsts.last();
        mutation_step(
            destinations_step(g, dsts.drop_last(), ctrl, at),
            seq![(d.0, SourceUse::Operand)],
            d.2,
            ctrl,
            at,
            write_back_use(d.1),
        )
    }
}

/// `g` with every node and edge of `child` added.
pub open spec fn merge_step(g: GraphV, child: GraphV) -> GraphV {
    (insert_all(g.0, child.0), insert_all(g.1, child.1))
}

/// `g` after an inlined call: the edges into the callee, then the edges out
/// of it, then the callee's own graph.
pub open spec fn inline_step(
    g: GraphV,
    child: GraphV,
    srcs: Seq<SourceV>,
    dsts: Seq<DestinationV>,
    ctrl: Seq<(DepNodeV, DepEdgeV)>,
    at: Seq<GlobalLocation>,
) -> GraphV {
    merge_step(destinations_step(sources_step(g, srcs, ctrl, at), dsts, ctrl, at), child)
}

impl PartialGraph {
    /// Inlines a call whose callee's graph is `child`: each callee node in
    /// `srcs` is assigned from the caller's inputs to its place, each caller
    /// node of each entry of `dsts` gets the callee's node as its input, and
    /// the callee's nodes and edges join this graph. All of it happens at
    /// `call_string`, under the control inputs of the call.
    pub fn inline_call(
        &mut self,
        child: &PartialGraph,
        srcs: &Vec<ChildSource>,
        dsts: &Vec<ChildDestination>,
        ctrl_inputs: &Vec<(DepNode, DepEdge)>,
        call_string: &CallString,
    )
        ensures
            graph_view(*final(self)) == inline_step(
                graph_view(*old(self)),
                graph_view(*child),
                sources_view(srcs@),
                destinations_view(dsts@),
                ctrl_view(ctrl_inputs@),
                call_string.locations@,
            ),
    {
        let ghost ctrl = ctrl_view(ctrl_inputs@);
        let ghost at = call_string.locations@;
        let ghost sv = sources_view(srcs@);
        let mut i: usize = 0;
        while i < srcs.len()
            invariant
                ctrl == ctrl_view(ctrl_inputs@),
                at == call_string.locations@,
                sv == sources_view(srcs@),
                i <= srcs.len(),
                graph_view(*self) == sources_step(graph_view(*old(self)), sv.take(i as int), ctrl, at),
            decreases srcs.len() - i,
        {
            let outs = vec![copy_node(&srcs[i].node)];
            let ghost before = graph_view(*self);
            self.register_mutation_with_tentativeness(&srcs[i].parent_inputs, &outs, ctrl_inputs, call_string, TargetUse::Assign);
            proof {
                assert(sv.take(i + 1).drop_last() =~= sv.take(i as int));
                assert(sv.take(i + 1).last() == sv[i as int]);
                assert(nodes_view(outs@) =~= seq![sv[i as int].0]);
                assert(input_nodes(srcs@[i as int].parent_inputs@) =~= firsts(sv[i as int].1));
            }
            i = i + 1;
        }
        assert(sv.take(srcs.len() as int) =~= sv);
        let ghost dv = destinations_view(dsts@);
        let ghost g1 = graph_view(*self);
        let mut j: usize = 0;
        while j < dsts.len()
            invariant
                ctrl == ctrl_view(ctrl_inputs@),
                at == call_string.locations@,
                dv == destinations_view(dsts@),
                j <= dsts.len(),
                graph_view(*self) == destinations_step(g1, dv.take(j as int), ctrl, at),
            decreases dsts.len() - j,
        {
            let data = vec![(copy_node(&dsts[j].node), SourceUse::Operand)];
            let target_use = match dsts[j].mut_arg {
                Some(k) => TargetUse::MutArg(k),
                None => TargetUse::Return,
            };
            self.register_mutation_with_tentativeness(&data, &dsts[j].parent_outputs, ctrl_inputs, call_string, target_use);
            proof {
                assert(dv.take(j + 1).drop_last() =~= dv.take(j as int));
                assert(dv.take(j + 1).last() == dv[j as int]);
                assert(inputs_view(data@) =~= seq![(dv[j as int].0, SourceUse::Operand)]);
                assert(input_nodes(data@) =~= firsts(seq![(dv[j as int].0, SourceUse::Operand)]));
            }
            j = j + 1;
        }
        assert(dv.take(dsts.len() as int) =~= dv);
        self.extend_with(child);
    }
}

#[verifier::external_type_specification]
#[verifier::external_body]
#[verifier::reject_recursive_types(N)]
#[verifier::reject_recursive_types(E)]
#[verifier::reject_recursive_types(Ty)]
#[verifier::reject_recursive_types(Ix)]
pub struct ExGraph<N, E, Ty, Ix>(Graph<N, E, Ty, Ix>);

/// The nodes of a graph, in the order of their indices.
pub uninterp spec fn dep_graph_nodes(g: Graph<DepNode, DepEdge, Directed, u32>) -> Seq<DepNodeV>;

/// The edges of a graph, in the order of their indices: source index,
/// target index and weight.
pub uninterp spec fn dep_graph_edges(g: Graph<DepNode, DepEdge, Directed, u32>) -> Seq<(nat, nat, DepEdgeV)>;

/// `Graph::new`: the contract claims an empty graph.
#[verifier::external_body]
fn graph_new() -> (r: Graph<DepNode, DepEdge, Directed, u32>)
    ensures
        dep_graph_nodes(r) == Seq::<DepNodeV>::empty(),
        dep_graph_edges(r) == Seq::<(nat, nat, DepEdgeV)>::empty(),
{
    Graph::new()
}

/// `Graph::add_node`: the contract claims that the node is appended and its
/// index, the old number of nodes, returned; the graph panics when that
/// index would be the largest `u32`.
#[verifier::external_body]
fn graph_add_node(g: &mut Graph<DepNode, DepEdge, Directed, u32>, weight: DepNode) -> (r: u32)
    requires
        dep_graph_nodes(*old(g)).len() < u32::MAX,
    ensures
        r == dep_graph_nodes(*old(g)).len(),
        dep_graph_nodes(*final(g)) == dep_graph_nodes(*old(g)).push(node_view(weight)),
        dep_graph_edges(*final(g)) == dep_graph_edges(*old(g)),
{
    g.add_node(weight).index() as u32
}

/// `Graph::add_edge`: the contract claims that the edge is appended; the
/// graph panics when an endpoint is not a node or the edge index would be
/// the largest `u32`.
#[verifier::external_body]
fn graph_add_edge(g: &mut Graph<DepNode, DepEdge, Directed, u32>, a: u32, b: u32, weight: DepEdge)
    requires
        a < dep_graph_nodes(*old(g)).len(),
        b < dep_graph_nodes(*old(g)).len(),
        dep_graph_edges(*old(g)).len() < u32::MAX,
    ensures
        dep_graph_nodes(*final(g)) == dep_graph_nodes(*old(g)),
        dep_graph_edges(*final(g)) == dep_graph_edges(*old(g)).push((a as nat, b as nat, edge_view(weight))),
{
    g.add_edge(NodeIndex::new(a as usize), NodeIndex::new(b as usize), weight);
}

/// A finished dependence graph.
pub struct DepGraph {
    pub graph: Graph<DepNode, DepEdge, Directed, u32>,
}

/// The endpoints of the edges, source then target, edge by edge.
pub open spec fn endpoints(es: Seq<TripleV>) -> Seq<DepNodeV>
    decreases es.len(),
{
    if es.len() == 0 {
        Seq::empty()
    } else {
        endpoints(es.drop_last()) + seq![es.last().0, es.last().1]
    }
}

/// The nodes of the graph built from `nodes` and `edges`: the nodes, then
/// each endpoint of an edge that is not a node yet.
pub open spec fn graph_node_order(nodes: Seq<DepNodeV>, edges: Seq<TripleV>) -> Seq<DepNodeV> {
    insert_all(insert_all(Seq::empty(), nodes), endpoints(edges))
}

/// The position of `x` in `s`.
pub open spec fn pos_of<T>(s: Seq<T>, x: T) -> int {
    choose|i: int| 0 <= i < s.len() && s[i] == x
}

proof fn lemma_insert_all_props<T>(s: Seq<T>, items: Seq<T>)
    requires
        s.no_duplicates(),
    ensures
        insert_all(s, items).no_duplicates(),
        forall|x: T| s.contains(x) ==> #[trigger] insert_all(s, items).contains(x),
        forall|i: int| 0 <= i < items.len() ==> insert_all(s, items).contains(#[trigger] items[i]),
        forall|x: T| #[trigger] insert_all(s, items).contains(x) ==> s.contains(x) || items.contains(x),
        insert_all(s, items).len() >= s.len(),
        insert_all(s, items).take(s.len() as int) == s,
    decreases items.len(),
{
    if items.len() == 0 {
        assert(s.take(s.len() as int) =~= s);
    }
    if items.len() > 0 {
        lemma_insert_all_props(s, items.drop_last());
        let p = insert_all(s, items.drop_last());
        let x = items.last();
        if !p.contains(x) {
            assert forall|i: int, j: int| 0 <= i < p.push(x).len() && 0 <= j < p.push(x).len() && p.push(x)[i] == p.push(x)[j]
                implies i == j by {
                if i < p.len() && j == p.len() {
                    assert(p.contains(x));
                }
                if j < p.len() && i == p.len() {
                    assert(p.contains(x));
                }
            }
        }
        assert forall|y: T| p.contains(y) implies #[trigger] set_insert(p, x).contains(y) by {
            let i = choose|i: int| 0 <= i < p.len() && p[i] == y;
            assert(set_insert(p, x)[i] == y);
        }
        assert forall|y: T| #[trigger] set_insert(p, x).contains(y) implies s.contains(y) || items.contains(y) by {
            if p.contains(y) {
                if items.drop_last().contains(y) {
                    let i = choose|i: int| 0 <= i < items.drop_last().len() && items.drop_last()[i] == y;
                    assert(items[i] == y);
                }
            } else {
                assert(y == x);
                assert(items[items.len() - 1] == y);
            }
        }
        assert(set_insert(p, x).take(s.len() as int) =~= p.take(s.len() as int));
        assert forall|i: int| 0 <= i < items.len() implies set_insert(p, x).contains(#[trigger] items[i]) by {
            if i < items.len() - 1 {
                assert(items.drop_last()[i] == items[i]);
                assert(p.contains(items[i]));
            } else if !p.contains(x) {
                assert(set_insert(p, x)[p.len() as int] == x);
            }
        }
    }
}

fn find_node(s: &Vec<DepNode>, n: &DepNode) -> (r: Option<u32>)
    requires
        s.len() <= u32::MAX,
    ensures
        match r {
            Some(i) => i < s.len() && nodes_view(s@)[i as int] == node_view(*n),
            None => !nodes_view(s@).contains(node_view(*n)),
        },
{
    let mut i: usize = 0;
    while i < s.len()
        invariant
            s.len() <= u32::MAX,
            i <= s.len(),
            forall|j: int| 0 <= j < i ==> nodes_view(s@)[j] != node_view(*n),
        decreases s.len() - i,
    {
        if eq_node(&s[i], n) {
            return Some(i as u32);
        }
        i = i + 1;
    }
    None
}

/// Adds `n` as a node unless it is one already; returns its index.
fn add_node_once(
    g: &mut Graph<DepNode, DepEdge, Directed, u32>,
    added: &mut Vec<DepNode>,
    n: &DepNode,
    limit: Ghost<Seq<DepNodeV>>,
) -> (r: u32)
    requires
        nodes_view(old(added)@) == dep_graph_nodes(*old(g)),
        nodes_view(old(added)@).no_duplicates(),
        limit@.len() < u32::MAX,
        limit@.no_duplicates(),
        forall|x: DepNodeV| nodes_view(old(added)@).contains(x) ==> limit@.contains(x),
        limit@.contains(node_view(*n)),
    ensures
        nodes_view(final(added)@) == set_insert(nodes_view(old(added)@), node_view(*n)),
        nodes_view(final(added)@) == dep_graph_nodes(*final(g)),
        dep_graph_edges(*final(g)) == dep_graph_edges(*old(g)),
        r < nodes_view(final(added)@).len(),
        nodes_view(final(added)@)[r as int] == node_view(*n),
{
    proof {
        lemma_len_bound(nodes_view(added@), limit@);
    }
    match find_node(added, n) {
        Some(i) => i,
        None => {
            let ghost before = added@;
            let i = graph_add_node(g, copy_node(n));
            added.push(copy_node(n));
            assert(nodes_view(added@) =~= nodes_view(before).push(node_view(*n)));
            i
        },
    }
}

/// A sequence without repeats that is contained in another one without
/// repeats is no longer than it, and shorter if it misses one of its values.
proof fn lemma_len_bound<T>(s: Seq<T>, big: Seq<T>)
    requires
        s.no_duplicates(),
        big.no_duplicates(),
        forall|x: T| s.contains(x) ==> big.contains(x),
    ensures
        s.len() <= big.len(),
        forall|x: T| big.contains(x) && !s.contains(x) ==> s.len() < big.len(),
{
    s.unique_seq_to_set();
    big.unique_seq_to_set();
    assert(s.to_set().subset_of(big.to_set()));
    vstd::set_lib::lemma_len_subset(s.to_set(), big.to_set());
    assert forall|x: T| big.contains(x) && !s.contains(x) implies s.len() < big.len() by {
        assert(s.to_set().subset_of(big.to_set().remove(x)));
        vstd::set_lib::lemma_len_subset(s.to_set(), big.to_set().remove(x));
    }
}

impl PartialGraph {
    /// Every node and every edge belongs to the same function as the first
    /// node: their call strings start in the same function.
    pub open spec fn spec_invariants(&self) -> bool {
        &&& self.nodes@.len() > 0
        &&& self.nodes@[0].at.locations@.len() > 0
        &&& forall|i: int| 0 <= i < self.nodes@.len() ==> {
            &&& (#[trigger] self.nodes@[i]).at.locations@.len() > 0
            &&& self.nodes@[i].at.locations@[0].function == self.nodes@[0].at.locations@[0].function
        }
        &&& forall|i: int| 0 <= i < self.edges@.len() ==> {
            &&& (#[trigger] self.edges@[i]).2.at.locations@.len() > 0
            &&& self.edges@[i].2.at.locations@[0].function == self.nodes@[0].at.locations@[0].function
        }
    }

    /// Checks that every node and every edge belongs to the same function
    /// (see `spec_invariants`); a graph that does not hold it is refused.
    pub fn check_invariants(&self)
        requires
            self.spec_invariants(),
    {
        let root_function = self.nodes[0].at.locations[0].function;
        let mut i: usize = 0;
        while i < self.nodes.len()
            invariant
                self.spec_invariants(),
                root_function == self.nodes@[0].at.locations@[0].function,
                i <= self.nodes.len(),
            decreases self.nodes.len() - i,
        {
            assert(self.nodes@[i as int].at.locations@.len() > 0);
            if self.nodes[i].at.locations[0].function != root_function {
                proof {
                    assert(false);
                }
            }
            i = i + 1;
        }
        let mut j: usize = 0;
        while j < self.edges.len()
            invariant
                self.spec_invariants(),
                root_function == self.nodes@[0].at.locations@[0].function,
                j <= self.edges.len(),
            decreases self.edges.len() - j,
        {
            assert(self.edges@[j as int].2.at.locations@.len() > 0);
            if self.edges[j].2.at.locations[0].function != root_function {
                proof {
                    assert(false);
                }
            }
            j = j + 1;
        }
    }

    /// The graph with the same nodes and edges: nodes are numbered in the
    /// order of the node list, then of the endpoints of the edges that are
    /// not nodes yet; edges keep their order.
    pub fn to_petgraph(&self) -> (r: DepGraph)
        requires
            graph_node_order(nodes_view(self.nodes@), edges_view(self.edges@)).len() < u32::MAX,
            self.edges@.len() < u32::MAX,
        ensures
            dep_graph_nodes(r.graph) == graph_node_order(nodes_view(self.nodes@), edges_view(self.edges@)),
            dep_graph_edges(r.graph) == edges_view(self.edges@).map_values(|t: TripleV| (
                pos_of(graph_node_order(nodes_view(self.nodes@), edges_view(self.edges@)), t.0) as nat,
                pos_of(graph_node_order(nodes_view(self.nodes@), edges_view(self.edges@)), t.1) as nat,
                t.2,
            )),
    {
        let ghost nv = nodes_view(self.nodes@);
        let ghost ev = edges_view(self.edges@);
        let ghost order = graph_node_order(nv, ev);
        let ghost first = insert_all(Seq::<DepNodeV>::empty(), nv);
        proof {
            lemma_insert_all_props(Seq::<DepNodeV>::empty(), nv);
            lemma_insert_all_props(first, endpoints(ev));
        }
        let mut graph = graph_new();
        let mut added: Vec<DepNode> = Vec::new();
        assert(nodes_view(added@) =~= Seq::<DepNodeV>::empty());
        let mut i: usize = 0;
        while i < self.nodes.len()
            invariant
                nv == nodes_view(self.nodes@),
                ev == edges_view(self.edges@),
                order == insert_all(first, endpoints(ev)),
                first == insert_all(Seq::<DepNodeV>::empty(), nv),
                order.len() < u32::MAX,
                order.no_duplicates(),
                forall|x: DepNodeV| first.contains(x) ==> #[trigger] order.contains(x),
                forall|k: int| 0 <= k < nv.len() ==> first.contains(#[trigger] nv[k]),
                i <= self.nodes.len(),
                nodes_view(added@) == insert_all(Seq::<DepNodeV>::empty(), nv.take(i as int)),
                nodes_view(added@) == dep_graph_nodes(graph),
                dep_graph_edges(graph) == Seq::<(nat, nat, DepEdgeV)>::empty(),
            decreases self.nodes.len() - i,
        {
            proof {
                lemma_insert_all_props(Seq::<DepNodeV>::empty(), nv.take(i as int));
                assert forall|x: DepNodeV| nodes_view(added@).contains(x) implies order.contains(x) by {
                    let k = choose|k: int| 0 <= k < nv.take(i as int).len() && nv.take(i as int)[k] == x;
                    assert(first.contains(nv[k]));
                }
                assert(first.contains(nv[i as int]));
                assert(nv.take(i + 1).drop_last() =~= nv.take(i as int));
                assert(nv[i as int] == node_view(self.nodes@[i as int]));
            }
            add_node_once(&mut graph, &mut added, &self.nodes[i], Ghost(order));
            i = i + 1;
        }
        assert(nv.take(self.nodes.len() as int) =~= nv);
        let mut j: usize = 0;
        assert(endpoints(ev.take(0)) =~= Seq::<DepNodeV>::empty());
        assert(ev.take(0).map_values(|t: TripleV| (pos_of(order, t.0) as nat, pos_of(order, t.1) as nat, t.2)) =~= Seq::<(nat, nat, DepEdgeV)>::empty());
        while j < self.edges.len()
            invariant
                nv == nodes_view(self.nodes@),
                ev == edges_view(self.edges@),
                order == insert_all(first, endpoints(ev)),
                first == insert_all(Seq::<DepNodeV>::empty(), nv),
                order.len() < u32::MAX,
                order.no_duplicates(),
                self.edges@.len() < u32::MAX,
                j <= self.edges.len(),
                nodes_view(added@) == insert_all(first, endpoints(ev.take(j as int))),
                nodes_view(added@) == dep_graph_nodes(graph),
                dep_graph_edges(graph) == ev.take(j as int).map_values(|t: TripleV| (pos_of(order, t.0) as nat, pos_of(order, t.1) as nat, t.2)),
            decreases self.edges.len() - j,
        {
            let ghost ej = ev.take(j as int);
            let ghost ej1 = ev.take(j + 1);
            proof {
                let two = seq![ev[j as int].0, ev[j as int].1];
                assert(ej1.drop_last() =~= ej);
                assert(endpoints(ej1) == endpoints(ej) + two);
                lemma_insert_all_props(Seq::<DepNodeV>::empty(), nv);
                lemma_insert_all_concat(first, endpoints(ej), two);
                lemma_endpoints_prefix(ev, j + 1);
                let rest = endpoints(ev).skip(endpoints(ej1).len() as int);
                lemma_insert_all_concat(first, endpoints(ej1), rest);
                let mid = insert_all(first, endpoints(ej1));
                lemma_insert_all_props(first, endpoints(ej));
                lemma_insert_all_props(insert_all(first, endpoints(ej)), two);
                lemma_insert_all_props(mid, rest);
                lemma_insert_all_props(first, endpoints(ev));
                lemma_endpoints_contains(ev, j as int);
                assert forall|x: DepNodeV| nodes_view(added@).contains(x) implies order.contains(x) by {
                    assert(mid.contains(x));
                }
            }
            let a = add_node_once(&mut graph, &mut added, &self.edges[j].0, Ghost(order));
            let b = add_node_once(&mut graph, &mut added, &self.edges[j].1, Ghost(order));
            proof {
                let two = seq![ev[j as int].0, ev[j as int].1];
                reveal_with_fuel(insert_all, 3);
                assert(two.drop_last().drop_last() =~= Seq::<DepNodeV>::empty());
                assert(two.drop_last() =~= seq![ev[j as int].0]);
                assert(nodes_view(added@) == insert_all(first, endpoints(ej1)));
            }
            let ghost before = dep_graph_edges(graph);
            graph_add_edge(&mut graph, a, b, copy_edge(&self.edges[j].2));
            proof {
                let cur = nodes_view(added@);
                assert(order.take(cur.len() as int) == cur);
                assert(order[a as int] == ev[j as int].0);
                assert(order[b as int] == ev[j as int].1);
                assert(pos_of(order, ev[j as int].0) == a as int) by {
                    let p = pos_of(order, ev[j as int].0);
                    assert(order[p] == ev[j as int].0);
                }
                assert(pos_of(order, ev[j as int].1) == b as int) by {
                    let p = pos_of(order, ev[j as int].1);
                    assert(order[p] == ev[j as int].1);
                }
                assert(ev[j as int].2 == edge_view(self.edges@[j as int].2));
                assert(dep_graph_edges(graph) =~= ej1.map_values(|t: TripleV| (pos_of(order, t.0) as nat, pos_of(order, t.1) as nat, t.2)));
            }
            j = j + 1;
        }
        assert(ev.take(self.edges.len() as int) =~= ev);
        DepGraph { graph }
    }
}

proof fn lemma_endpoints_prefix(ev: Seq<TripleV>, k: int)
    requires
        0 <= k <= ev.len(),
    ensures
        endpoints(ev) == endpoints(ev.take(k)) + endpoints(ev).skip(endpoints(ev.take(k)).len() as int),
        endpoints(ev.take(k)).len() == 2 * k,
    decreases ev.len() - k,
{
    lemma_endpoints_len(ev.take(k));
    if k == ev.len() {
        assert(ev.take(k) =~= ev);
        assert(endpoints(ev).skip(endpoints(ev).len() as int) =~= Seq::<DepNodeV>::empty());
        assert(endpoints(ev) + Seq::<DepNodeV>::empty() =~= endpoints(ev));
    } else {
        lemma_endpoints_prefix(ev, k + 1);
        lemma_endpoints_len(ev.take(k + 1));
        assert(ev.take(k + 1).drop_last() =~= ev.take(k));
        let a = endpoints(ev.take(k));
        let b = endpoints(ev.take(k + 1));
        assert(endpoints(ev) =~= a + endpoints(ev).skip(a.len() as int));
    }
}

proof fn lemma_endpoints_len(ev: Seq<TripleV>)
    ensures
        endpoints(ev).len() == 2 * ev.len(),
    decreases ev.len(),
{
    if ev.len() > 0 {
        lemma_endpoints_len(ev.drop_last());
    }
}

proof fn lemma_endpoints_contains(ev: Seq<TripleV>, j: int)
    requires
        0 <= j < ev.len(),
    ensures
        endpoints(ev).contains(ev[j].0),
        endpoints(ev).contains(ev[j].1),
{
    lemma_endpoints_prefix(ev, j + 1);
    lemma_endpoints_len(ev.take(j + 1));
    assert(ev.take(j + 1).drop_last() =~= ev.take(j));
    lemma_endpoints_len(ev.take(j));
    let a = endpoints(ev.take(j + 1));
    assert(a[2 * j] == ev[j].0);
    assert(a[2 * j + 1] == ev[j].1);
    assert(endpoints(ev)[2 * j] == ev[j].0);
    assert(endpoints(ev)[2 * j + 1] == ev[j].1);
}

/// Distinctness of places does not depend on their order; places of
/// different locals, or with different numbers of projections (one a part
/// of the other), are never distinct.
pub proof fn lemma_places_distinct_laws(p1: PlaceV, p2: PlaceV)
    ensures
        spec_places_distinct(p1, p2) == spec_places_distinct(p2, p1),
        p1.0 != p2.0 ==> !spec_places_distinct(p1, p2),
        p1.1.len() != p2.1.len() ==> !spec_places_distinct(p1, p2),
{
}

proof fn lemma_overlap_seen_first(inputs: Seq<DepNodeV>)
    requires
        inputs.len() >= 1,
        forall|i: int| 1 <= i < inputs.len() ==> spec_places_distinct(inputs[0].0, #[trigger] inputs[i].0),
    ensures
        overlap_seen(inputs) == seq![inputs[0]],
    decreases inputs.len(),
{
    if inputs.len() == 1 {
        assert(inputs.drop_last() =~= Seq::<DepNodeV>::empty());
        assert(overlap_seen(inputs.drop_last()) == Seq::<DepNodeV>::empty());
        assert(seq![inputs.last()] =~= seq![inputs[0]]);
    } else {
        let d = inputs.drop_last();
        assert(d[0] == inputs[0]);
        assert(spec_places_distinct(inputs[0].0, inputs[inputs.len() - 1].0));
        assert forall|i: int| 1 <= i < d.len() implies spec_places_distinct(d[0].0, #[trigger] d[i].0) by {
            assert(d[i] == inputs[i]);
        }
        lemma_overlap_seen_first(d);
        let s = seq![inputs[0]];
        assert(all_distinct_from(s, inputs.last()));
    }
}

/// Data that flows in from places that are all distinct fields of the first
/// input's value gives certain edges.
pub proof fn lemma_distinct_inputs_certain(inputs: Seq<DepNodeV>)
    requires
        forall|i: int| 1 <= i < inputs.len() ==> spec_places_distinct(inputs[0].0, #[trigger] inputs[i].0),
    ensures
        input_tentativeness(inputs) == Tentativeness::Certain,
{
    if inputs.len() >= 1 {
        lemma_overlap_seen_first(inputs);
    }
}

/// Data that flows in from two different nodes whose places overlap gives
/// tentative edges.
pub proof fn lemma_overlapping_inputs_tentative(a: DepNodeV, b: DepNodeV)
    requires
        a != b,
        !spec_places_distinct(a.0, b.0),
    ensures
        input_tentativeness(seq![a, b]) == Tentativeness::ControlFlowInduced,
{
    let inputs = seq![a, b];
    assert(inputs.drop_last() =~= seq![a]);
    assert(seq![a].drop_last() =~= Seq::<DepNodeV>::empty());
    assert(overlap_seen(Seq::<DepNodeV>::empty()) == Seq::<DepNodeV>::empty());
    assert(overlap_seen(seq![a]) == seq![a]);
    let s = seq![a];
    assert(!all_distinct_from(s, b)) by {
        assert(s[0] == a);
    }
    assert(!s.contains(b)) by {
        if s.contains(b) {
            let i = choose|i: int| 0 <= i < s.len() && s[i] == b;
            assert(s[i] == a);
        }
    }
    assert(overlap_seen(inputs) == s.push(b));
}

proof fn lemma_insert_all_keeps<T>(s: Seq<T>, items: Seq<T>)
    ensures
        forall|i: int| 0 <= i < s.len() ==> insert_all(s, items).contains(#[trigger] s[i]),
        forall|i: int| 0 <= i < items.len() ==> insert_all(s, items).contains(#[trigger] items[i]),
    decreases items.len(),
{
    if items.len() > 0 {
        let d = items.drop_last();
        lemma_insert_all_keeps(s, d);
        let m = insert_all(s, d);
        assert forall|x: T| m.contains(x) implies set_insert(m, items.last()).contains(x) by {
            if !m.contains(items.last()) {
                let k = choose|k: int| 0 <= k < m.len() && m[k] == x;
                assert(m.push(items.last())[k] == x);
            }
        }
        assert(set_insert(m, items.last()).contains(items.last())) by {
            if !m.contains(items.last()) {
                assert(m.push(items.last())[m.len() as int] == items.last());
            }
        }
        assert forall|i: int| 0 <= i < items.len() implies insert_all(s, items).contains(#[trigger] items[i]) by {
            if i < items.len() - 1 {
                assert(d[i] == items[i]);
            }
        }
    }
}

proof fn lemma_insert_all_present<T>(s: Seq<T>, items: Seq<T>)
    requires
        forall|i: int| 0 <= i < items.len() ==> s.contains(#[trigger] items[i]),
    ensures
        insert_all(s, items) == s,
    decreases items.len(),
{
    if items.len() > 0 {
        let d = items.drop_last();
        assert forall|i: int| 0 <= i < d.len() implies s.contains(#[trigger] d[i]) by {
            assert(d[i] == items[i]);
        }
        lemma_insert_all_present(s, d);
        assert(s.contains(items[items.len() - 1]));
    }
}

/// Registering the same mutation twice leaves the graph as registering it
/// once: nodes and edges are sets.
pub proof fn lemma_mutation_idempotent(
    g: GraphV,
    data: Seq<(DepNodeV, SourceUse)>,
    outs: Seq<DepNodeV>,
    ctrl: Seq<(DepNodeV, DepEdgeV)>,
    at: Seq<GlobalLocation>,
    target_use: TargetUse,
)
    ensures
        mutation_step(mutation_step(g, data, outs, ctrl, at, target_use), data, outs, ctrl, at, target_use)
            == mutation_step(g, data, outs, ctrl, at, target_use),
{
    let g1 = mutation_step(g, data, outs, ctrl, at, target_use);
    let de = data_edges(data, outs, at, target_use, input_tentativeness(firsts(data)));
    let ce = ctrl_edges(ctrl, outs);
    lemma_insert_all_keeps(g.0, outs);
    lemma_insert_all_present(g1.0, outs);
    let e1 = insert_all(g.1, de);
    lemma_insert_all_keeps(g.1, de);
    lemma_insert_all_keeps(e1, ce);
    assert forall|i: int| 0 <= i < de.len() implies g1.1.contains(#[trigger] de[i]) by {
        assert(e1.contains(de[i]));
        let k = choose|k: int| 0 <= k < e1.len() && e1[k] == de[i];
        assert(g1.1.contains(e1[k]));
    }
    lemma_insert_all_present(g1.1, de);
    lemma_insert_all_present(g1.1, ce);
}

proof fn lemma_insert_all_grows<T>(s: Seq<T>, items: Seq<T>)
    ensures
        grows(s, insert_all(s, items)),
        forall|i: int| 0 <= i < items.len() ==> insert_all(s, items).contains(#[trigger] items[i]),
{
    lemma_insert_all_keeps(s, items);
    assert forall|x: T| s.contains(x) implies #[trigger] insert_all(s, items).contains(x) by {
        let k = choose|k: int| 0 <= k < s.len() && s[k] == x;
        assert(insert_all(s, items).contains(s[k]));
    }
}

proof fn lemma_data_edges_has(
    data: Seq<(DepNodeV, SourceUse)>,
    outs: Seq<DepNodeV>,
    at: Seq<GlobalLocation>,
    target_use: TargetUse,
    tent: Tentativeness,
    i: int,
    m: int,
)
    requires
        0 <= i < data.len(),
        0 <= m < outs.len(),
    ensures
        data_edges(data, outs, at, target_use, tent).contains(
            (data[i].0, outs[m], (EdgeKind::Data, at, data[i].1, target_use, tent)),
        ),
    decreases data.len(),
{
    let d = data.drop_last();
    let a = data_edges(d, outs, at, target_use, tent);
    let added = outs.map_values(|o: DepNodeV| (data.last().0, o, (EdgeKind::Data, at, data.last().1, target_use, tent)));
    let r = a + added;
    if i == data.len() - 1 {
        assert(r[a.len() + m] == added[m]);
    } else {
        lemma_data_edges_has(d, outs, at, target_use, tent, i, m);
        assert(d[i] == data[i]);
        let x = (data[i].0, outs[m], (EdgeKind::Data, at, data[i].1, target_use, tent));
        let k = choose|k: int| 0 <= k < a.len() && a[k] == x;
        assert(r[k] == x);
    }
}

proof fn lemma_ctrl_edges_has(ctrl: Seq<(DepNodeV, DepEdgeV)>, outs: Seq<DepNodeV>, c: int, m: int)
    requires
        0 <= c < ctrl.len(),
        0 <= m < outs.len(),
    ensures
        ctrl_edges(ctrl, outs).contains((ctrl[c].0, outs[m], ctrl[c].1)),
    decreases ctrl.len(),
{
    let d = ctrl.drop_last();
    let a = ctrl_edges(d, outs);
    let added = outs.map_values(|o: DepNodeV| (ctrl.last().0, o, ctrl.last().1));
    let r = a + added;
    if c == ctrl.len() - 1 {
        assert(r[a.len() + m] == added[m]);
    } else {
        lemma_ctrl_edges_has(d, outs, c, m);
        assert(d[c] == ctrl[c]);
        let x = (ctrl[c].0, outs[m], ctrl[c].1);
        let k = choose|k: int| 0 <= k < a.len() && a[k] == x;
        assert(r[k] == x);
    }
}

/// What registering a mutation adds, and that it keeps what was there.
proof fn lemma_mutation_step_has(
    g: GraphV,
    data: Seq<(DepNodeV, SourceUse)>,
    outs: Seq<DepNodeV>,
    ctrl: Seq<(DepNodeV, DepEdgeV)>,
    at: Seq<GlobalLocation>,
    target_use: TargetUse,
)
    ensures
        grows(g.0, mutation_step(g, data, outs, ctrl, at, target_use).0),
        grows(g.1, mutation_step(g, data, outs, ctrl, at, target_use).1),
        forall|m: int| 0 <= m < outs.len() ==> mutation_step(g, data, outs, ctrl, at, target_use).0.contains(#[trigger] outs[m]),
        forall|i: int, m: int| 0 <= i < data.len() && 0 <= m < outs.len() ==>
            mutation_step(g, data, outs, ctrl, at, target_use).1.contains(
                (#[trigger] data[i].0, #[trigger] outs[m], (EdgeKind::Data, at, data[i].1, target_use, input_tentativeness(firsts(data)))),
            ),
        forall|c: int, m: int| 0 <= c < ctrl.len() && 0 <= m < outs.len() ==>
            mutation_step(g, data, outs, ctrl, at, target_use).1.contains((#[trigger] ctrl[c].0, #[trigger] outs[m], ctrl[c].1)),
{
    let tent = input_tentativeness(firsts(data));
    let de = data_edges(data, outs, at, target_use, tent);
    let ce = ctrl_edges(ctrl, outs);
    let e1 = insert_all(g.1, de);
    let r = mutation_step(g, data, outs, ctrl, at, target_use);
    lemma_insert_all_grows(g.0, outs);
    lemma_insert_all_grows(g.1, de);
    lemma_insert_all_grows(e1, ce);
    assert forall|i: int, m: int| 0 <= i < data.len() && 0 <= m < outs.len() implies
        r.1.contains((#[trigger] data[i].0, #[trigger] outs[m], (EdgeKind::Data, at, data[i].1, target_use, tent))) by {
        lemma_data_edges_has(data, outs, at, target_use, tent, i, m);
        let x = (data[i].0, outs[m], (EdgeKind::Data, at, data[i].1, target_use, tent));
        let k = choose|k: int| 0 <= k < de.len() && de[k] == x;
        assert(e1.contains(de[k]));
    }
    assert forall|c: int, m: int| 0 <= c < ctrl.len() && 0 <= m < outs.len() implies
        r.1.contains((#[trigger] ctrl[c].0, #[trigger] outs[m], ctrl[c].1)) by {
        lemma_ctrl_edges_has(ctrl, outs, c, m);
        let x = (ctrl[c].0, outs[m], ctrl[c].1);
        let k = choose|k: int| 0 <= k < ce.len() && ce[k] == x;
        assert(r.1.contains(ce[k]));
    }
}

proof fn lemma_sources_step_has(g: GraphV, srcs: Seq<SourceV>, ctrl: Seq<(DepNodeV, DepEdgeV)>, at: Seq<GlobalLocation>)
    ensures
        grows(g.0, sources_step(g, srcs, ctrl, at).0),
        grows(g.1, sources_step(g, srcs, ctrl, at).1),
        forall|i: int, c: int| 0 <= i < srcs.len() && 0 <= c < ctrl.len() ==>
            sources_step(g, srcs, ctrl, at).1.contains((#[trigger] ctrl[c].0, #[trigger] srcs[i].0, ctrl[c].1)),
        forall|i: int, n: int| 0 <= i < srcs.len() && 0 <= n < srcs[i].1.len() ==>
            sources_step(g, srcs, ctrl, at).1.contains((
                #[trigger] srcs[i].1[n].0,
                srcs[i].0,
                (EdgeKind::Data, at, srcs[i].1[n].1, TargetUse::Assign, input_tentativeness(firsts(srcs[i].1))),
            )),
    decreases srcs.len(),
{
    if srcs.len() > 0 {
        let d = srcs.drop_last();
        let g1 = sources_step(g, d, ctrl, at);
        let sl = srcs.last();
        let r = sources_step(g, srcs, ctrl, at);
        lemma_sources_step_has(g, d, ctrl, at);
        lemma_mutation_step_has(g1, sl.1, seq![sl.0], ctrl, at, TargetUse::Assign);
        assert(seq![sl.0][0] == sl.0);
        assert forall|i: int, c: int| 0 <= i < srcs.len() && 0 <= c < ctrl.len() implies
            r.1.contains((#[trigger] ctrl[c].0, #[trigger] srcs[i].0, ctrl[c].1)) by {
            if i < d.len() {
                assert(d[i] == srcs[i]);
                assert(g1.1.contains((ctrl[c].0, d[i].0, ctrl[c].1)));
            } else {
                assert(r.1.contains((ctrl[c].0, seq![sl.0][0], ctrl[c].1)));
            }
        }
        assert forall|i: int, n: int| 0 <= i < srcs.len() && 0 <= n < srcs[i].1.len() implies
            r.1.contains((
                #[trigger] srcs[i].1[n].0,
                srcs[i].0,
                (EdgeKind::Data, at, srcs[i].1[n].1, TargetUse::Assign, input_tentativeness(firsts(srcs[i].1))),
            )) by {
            if i < d.len() {
                assert(d[i] == srcs[i]);
                assert(g1.1.contains((d[i].1[n].0, d[i].0,
                    (EdgeKind::Data, at, d[i].1[n].1, TargetUse::Assign, input_tentativeness(firsts(d[i].1))))));
            } else {
                assert(r.1.contains((sl.1[n].0, seq![sl.0][0],
                    (EdgeKind::Data, at, sl.1[n].1, TargetUse::Assign, input_tentativeness(firsts(sl.1))))));
            }
        }
        assert forall|x: DepNodeV| g.0.contains(x) implies #[trigger] r.0.contains(x) by {
            assert(g1.0.contains(x));
        }
        assert forall|x: TripleV| g.1.contains(x) implies #[trigger] r.1.contains(x) by {
            assert(g1.1.contains(x));
        }
    }
}

proof fn lemma_destinations_step_has(g: GraphV, dsts: Seq<DestinationV>, ctrl: Seq<(DepNodeV, DepEdgeV)>, at: Seq<GlobalLocation>)
    ensures
        grows(g.0, destinations_step(g, dsts, ctrl, at).0),
        grows(g.1, destinations_step(g, dsts, ctrl, at).1),
        forall|j: int, m: int, c: int| 0 <= j < dsts.len() && 0 <= m < dsts[j].2.len() && 0 <= c < ctrl.len() ==>
            destinations_step(g, dsts, ctrl, at).1.contains((#[trigger] ctrl[c].0, #[trigger] dsts[j].2[m], ctrl[c].1)),
        forall|j: int, m: int| 0 <= j < dsts.len() && 0 <= m < dsts[j].2.len() ==>
            destinations_step(g, dsts, ctrl, at).1.contains((
                dsts[j].0,
                #[trigger] dsts[j].2[m],
                (
                    EdgeKind::Data,
                    at,
                    SourceUse::Operand,
                    match dsts[j].1 {
                        Some(k) => TargetUse::MutArg(k),
                        None => TargetUse::Return,
                    },
                    Tentativeness::Certain,
                ),
            )),
    decreases dsts.len(),
{
    if dsts.len() > 0 {
        let d = dsts.drop_last();
        let g1 = destinations_step(g, d, ctrl, at);
        let dl = dsts.last();
        let data = seq![(dl.0, SourceUse::Operand)];
        let r = destinations_step(g, dsts, ctrl, at);
        lemma_destinations_step_has(g, d, ctrl, at);
        lemma_mutation_step_has(g1, data, dl.2, ctrl, at, write_back_use(dl.1));
        assert(firsts(data) =~= seq![dl.0]);
        lemma_distinct_inputs_certain(seq![dl.0]);
        assert(data[0] == (dl.0, SourceUse::Operand));
        assert forall|j: int, m: int, c: int| 0 <= j < dsts.len() && 0 <= m < dsts[j].2.len() && 0 <= c < ctrl.len() implies
            r.1.contains((#[trigger] ctrl[c].0, #[trigger] dsts[j].2[m], ctrl[c].1)) by {
            if j < d.len() {
                assert(d[j] == dsts[j]);
                assert(g1.1.contains((ctrl[c].0, d[j].2[m], ctrl[c].1)));
            } else {
                assert(r.1.contains((ctrl[c].0, dl.2[m], ctrl[c].1)));
            }
        }
        assert forall|j: int, m: int| 0 <= j < dsts.len() && 0 <= m < dsts[j].2.len() implies
            r.1.contains((
                dsts[j].0,
                #[trigger] dsts[j].2[m],
                (
                    EdgeKind::Data,
                    at,
                    SourceUse::Operand,
                    match dsts[j].1 {
                        Some(k) => TargetUse::MutArg(k),
                        None => TargetUse::Return,
                    },
                    Tentativeness::Certain,
                ),
            )) by {
            if j < d.len() {
                assert(d[j] == dsts[j]);
                assert(g1.1.contains((d[j].0, d[j].2[m], (EdgeKind::Data, at, SourceUse::Operand,
                    match d[j].1 { Some(k) => TargetUse::MutArg(k), None => TargetUse::Return }, Tentativeness::Certain))));
            } else {
                assert(r.1.contains((data[0].0, dl.2[m], (EdgeKind::Data, at, data[0].1, write_back_use(dl.1),
                    input_tentativeness(firsts(data))))));
            }
        }
        assert forall|x: DepNodeV| g.0.contains(x) implies #[trigger] r.0.contains(x) by {
            assert(g1.0.contains(x));
        }
        assert forall|x: TripleV| g.1.contains(x) implies #[trigger] r.1.contains(x) by {
            assert(g1.1.contains(x));
        }
    }
}

/// Inlining a call keeps the caller's graph and takes in the callee's, and
/// connects the two: each callee node reading from the caller gets a data
/// edge from each of its caller inputs and the call's control edges; each
/// caller node written back by the callee gets a certain data edge from the
/// callee node (used as the return value or the mutable argument it came
/// through) and the call's control edges, so what a call made under a
/// condition returns depends on that condition.
pub proof fn lemma_inline_call_connects(
    g: GraphV,
    child: GraphV,
    srcs: Seq<SourceV>,
    dsts: Seq<DestinationV>,
    ctrl: Seq<(DepNodeV, DepEdgeV)>,
    at: Seq<GlobalLocation>,
)
    ensures
        grows(g.0, inline_step(g, child, srcs, dsts, ctrl, at).0),
        grows(g.1, inline_step(g, child, srcs, dsts, ctrl, at).1),
        grows(child.0, inline_step(g, child, srcs, dsts, ctrl, at).0),
        grows(child.1, inline_step(g, child, srcs, dsts, ctrl, at).1),
        forall|i: int, c: int| 0 <= i < srcs.len() && 0 <= c < ctrl.len() ==>
            inline_step(g, child, srcs, dsts, ctrl, at).1.contains((#[trigger] ctrl[c].0, #[trigger] srcs[i].0, ctrl[c].1)),
        forall|i: int, n: int| 0 <= i < srcs.len() && 0 <= n < srcs[i].1.len() ==>
            inline_step(g, child, srcs, dsts, ctrl, at).1.contains((
                #[trigger] srcs[i].1[n].0,
                srcs[i].0,
                (EdgeKind::Data, at, srcs[i].1[n].1, TargetUse::Assign, input_tentativeness(firsts(srcs[i].1))),
            )),
        forall|j: int, m: int, c: int| 0 <= j < dsts.len() && 0 <= m < dsts[j].2.len() && 0 <= c < ctrl.len() ==>
            inline_step(g, child, srcs, dsts, ctrl, at).1.contains((#[trigger] ctrl[c].0, #[trigger] dsts[j].2[m], ctrl[c].1)),
        forall|j: int, m: int| 0 <= j < dsts.len() && 0 <= m < dsts[j].2.len() ==>
            inline_step(g, child, srcs, dsts, ctrl, at).1.contains((
                dsts[j].0,
                #[trigger] dsts[j].2[m],
                (
                    EdgeKind::Data,
                    at,
                    SourceUse::Operand,
                    match dsts[j].1 {
                        Some(k) => TargetUse::MutArg(k),
                        None => TargetUse::Return,
                    },
                    Tentativeness::Certain,
                ),
            )),
{
    let g1 = sources_step(g, srcs, ctrl, at);
    let g2 = destinations_step(g1, dsts, ctrl, at);
    let r = inline_step(g, child, srcs, dsts, ctrl, at);
    lemma_sources_step_has(g, srcs, ctrl, at);
    lemma_destinations_step_has(g1, dsts, ctrl, at);
    lemma_insert_all_grows(g2.0, child.0);
    lemma_insert_all_grows(g2.1, child.1);
    assert forall|x: DepNodeV| g.0.contains(x) implies #[trigger] r.0.contains(x) by {
        assert(g1.0.contains(x));
        assert(g2.0.contains(x));
    }
    assert forall|x: TripleV| g1.1.contains(x) implies #[trigger] r.1.contains(x) by {
        assert(g2.1.contains(x));
    }
    assert forall|x: TripleV| g.1.contains(x) implies #[trigger] r.1.contains(x) by {
        assert(g1.1.contains(x));
    }
    assert forall|x: DepNodeV| child.0.contains(x) implies #[trigger] r.0.contains(x) by {
        let k = choose|k: int| 0 <= k < child.0.len() && child.0[k] == x;
        assert(r.0.contains(child.0[k]));
    }
    assert forall|x: TripleV| child.1.contains(x) implies #[trigger] r.1.contains(x) by {
        let k = choose|k: int| 0 <= k < child.1.len() && child.1[k] == x;
        assert(r.1.contains(child.1[k]));
    }
    assert forall|i: int, c: int| 0 <= i < srcs.len() && 0 <= c < ctrl.len() implies
        r.1.contains((#[trigger] ctrl[c].0, #[trigger] srcs[i].0, ctrl[c].1)) by {
        assert(g1.1.contains((ctrl[c].0, srcs[i].0, ctrl[c].1)));
    }
    assert forall|i: int, n: int| 0 <= i < srcs.len() && 0 <= n < srcs[i].1.len() implies
        r.1.contains((
            #[trigger] srcs[i].1[n].0,
            srcs[i].0,
            (EdgeKind::Data, at, srcs[i].1[n].1, TargetUse::Assign, input_tentativeness(firsts(srcs[i].1))),
        )) by {
        assert(g1.1.contains((srcs[i].1[n].0, srcs[i].0,
            (EdgeKind::Data, at, srcs[i].1[n].1, TargetUse::Assign, input_tentativeness(firsts(srcs[i].1))))));
    }
}

} // verus!
