use paralegal::construct::{
    data_tentativeness, places_distinct, CallString, ChildDestination, ChildSource, DepEdge, DepNode,
    GlobalLocation, PartialGraph, SourceUse, TargetUse,
};
use paralegal::resolver::{Place, PlaceElem};
use paralegal::traverse::{EdgeKind, Tentativeness};

fn place(local: u32, fields: &[u32]) -> Place {
    Place { local, projection: fields.iter().map(|f| PlaceElem::Field(*f)).collect() }
}

fn at(function: u32, location: u32) -> CallString {
    CallString { locations: vec![GlobalLocation { function, location }] }
}

fn node(local: u32, fields: &[u32]) -> DepNode {
    DepNode { place: place(local, fields), at: at(1, 0) }
}

#[test]
fn distinct_fields_of_one_value() {
    assert!(places_distinct(&place(15, &[0]), &place(15, &[1])));
    assert!(!places_distinct(&place(15, &[0, 3]), &place(15, &[1, 0])));
    assert!(places_distinct(&place(15, &[0, 3]), &place(15, &[0, 1])));
}

#[test]
fn a_value_and_its_field_overlap() {
    assert!(!places_distinct(&place(15, &[]), &place(15, &[0])));
    assert!(!places_distinct(&place(15, &[0]), &place(15, &[0, 1])));
    assert!(!places_distinct(&place(15, &[1]), &place(15, &[0, 1])));
    assert!(!places_distinct(&place(15, &[]), &place(15, &[])));
}

#[test]
fn different_locals_are_not_distinct() {
    assert!(!places_distinct(&place(16, &[0]), &place(15, &[1])));
    assert!(!places_distinct(&place(16, &[]), &place(15, &[])));
}

#[test]
fn distinctness_is_symmetric() {
    let ps = [place(15, &[0]), place(15, &[1]), place(15, &[]), place(16, &[0]), place(15, &[0, 1])];
    for a in &ps {
        for b in &ps {
            assert_eq!(places_distinct(a, b), places_distinct(b, a));
        }
    }
}

#[test]
fn tentativeness_of_data_inputs() {
    let distinct = vec![(node(15, &[0]), SourceUse::Operand), (node(15, &[1]), SourceUse::Operand)];
    assert_eq!(data_tentativeness(&distinct), Tentativeness::Certain);
    let overlapping = vec![(node(15, &[]), SourceUse::Operand), (node(15, &[0]), SourceUse::Argument(0))];
    assert_eq!(data_tentativeness(&overlapping), Tentativeness::ControlFlowInduced);
    let aliasing = vec![(node(16, &[]), SourceUse::Operand), (node(15, &[]), SourceUse::Operand)];
    assert_eq!(data_tentativeness(&aliasing), Tentativeness::ControlFlowInduced);
    let single = vec![(node(15, &[]), SourceUse::Operand)];
    assert_eq!(data_tentativeness(&single), Tentativeness::Certain);
    let twice = vec![(node(15, &[]), SourceUse::Operand), (node(15, &[]), SourceUse::Operand)];
    assert_eq!(data_tentativeness(&twice), Tentativeness::Certain);
    assert_eq!(data_tentativeness(&vec![]), Tentativeness::Certain);
}

fn ctrl_edge() -> DepEdge {
    DepEdge {
        kind: EdgeKind::Control,
        at: at(1, 9),
        source_use: SourceUse::Operand,
        target_use: TargetUse::Assign,
        tentativeness: Tentativeness::Certain,
    }
}

#[test]
fn register_mutation_with_tentativeness_adds_edges() {
    let mut g = PartialGraph { nodes: vec![], edges: vec![] };
    let inputs = vec![(node(15, &[]), SourceUse::Operand), (node(15, &[0]), SourceUse::Operand)];
    let outputs = vec![node(2, &[]), node(3, &[])];
    let ctrl = vec![(node(7, &[]), ctrl_edge())];
    g.register_mutation_with_tentativeness(&inputs, &outputs, &ctrl, &at(1, 4), TargetUse::Assign);
    assert_eq!(g.nodes, outputs);
    assert_eq!(g.edges.len(), 6);
    let data = DepEdge::data(at(1, 4), SourceUse::Operand, TargetUse::Assign, Tentativeness::ControlFlowInduced);
    assert_eq!(g.edges[0], (node(15, &[]), node(2, &[]), data.clone()));
    assert_eq!(g.edges[1], (node(15, &[]), node(3, &[]), data.clone()));
    assert_eq!(g.edges[2], (node(15, &[0]), node(2, &[]), data.clone()));
    assert_eq!(g.edges[5], (node(7, &[]), node(3, &[]), ctrl_edge()));
    g.register_mutation_with_tentativeness(&inputs, &outputs, &ctrl, &at(1, 4), TargetUse::Assign);
    assert_eq!(g.nodes.len(), 2);
    assert_eq!(g.edges.len(), 6);
}

#[test]
fn register_mutation_is_certain() {
    let mut g = PartialGraph { nodes: vec![], edges: vec![] };
    let inputs = vec![(node(15, &[]), SourceUse::Operand), (node(15, &[0]), SourceUse::Argument(1))];
    let outputs = vec![node(2, &[])];
    g.register_mutation(&inputs, &outputs, &vec![], &at(1, 4), TargetUse::Return);
    assert_eq!(g.edges.len(), 2);
    for (_, _, e) in &g.edges {
        assert_eq!(e.tentativeness, Tentativeness::Certain);
        assert_eq!(e.kind, EdgeKind::Data);
    }
    assert_eq!(g.edges[1].2.source_use, SourceUse::Argument(1));
}

#[test]
fn extend_with_merges_without_repeats() {
    let mut g = PartialGraph { nodes: vec![node(1, &[])], edges: vec![] };
    let child = PartialGraph {
        nodes: vec![node(1, &[]), node(2, &[])],
        edges: vec![(node(1, &[]), node(2, &[]), ctrl_edge())],
    };
    g.extend_with(&child);
    g.extend_with(&child);
    assert_eq!(g.nodes, vec![node(1, &[]), node(2, &[])]);
    assert_eq!(g.edges.len(), 1);
}

#[test]
fn check_invariants_accepts_one_function() {
    let g = PartialGraph {
        nodes: vec![node(1, &[]), node(2, &[])],
        edges: vec![(node(1, &[]), node(2, &[]), ctrl_edge())],
    };
    g.check_invariants();
}

#[test]
fn to_petgraph_numbers_nodes() {
    let g = PartialGraph {
        nodes: vec![node(1, &[]), node(2, &[])],
        edges: vec![
            (node(1, &[]), node(2, &[]), ctrl_edge()),
            (node(3, &[]), node(1, &[]), ctrl_edge()),
            (node(3, &[]), node(4, &[]), ctrl_edge()),
        ],
    };
    let d = g.to_petgraph();
    assert_eq!(d.graph.node_count(), 4);
    assert_eq!(d.graph.edge_count(), 3);
    let idx = |n: &DepNode| d.graph.node_indices().find(|i| &d.graph[*i] == n).unwrap();
    assert_eq!(idx(&node(1, &[])).index(), 0);
    assert_eq!(idx(&node(2, &[])).index(), 1);
    assert_eq!(idx(&node(3, &[])).index(), 2);
    assert_eq!(idx(&node(4, &[])).index(), 3);
    let e = d.graph.raw_edges();
    assert_eq!((e[1].source().index(), e[1].target().index()), (2, 0));
    assert_eq!((e[2].source().index(), e[2].target().index()), (2, 3));
}

fn child_node(local: u32) -> DepNode {
    DepNode { place: place(local, &[]), at: CallString { locations: vec![GlobalLocation { function: 1, location: 4 }, GlobalLocation { function: 2, location: 0 }] } }
}

#[test]
fn inline_call_connects_caller_and_callee() {
    let mut g = PartialGraph { nodes: vec![node(5, &[])], edges: vec![] };
    let child = PartialGraph {
        nodes: vec![child_node(1), child_node(0)],
        edges: vec![(child_node(1), child_node(0), ctrl_edge())],
    };
    let srcs = vec![ChildSource { node: child_node(1), parent_inputs: vec![(node(5, &[]), SourceUse::Operand)] }];
    let dsts = vec![
        ChildDestination { node: child_node(0), mut_arg: None, parent_outputs: vec![node(6, &[])] },
        ChildDestination { node: child_node(1), mut_arg: Some(0), parent_outputs: vec![node(5, &[])] },
    ];
    g.inline_call(&child, &srcs, &dsts, &vec![], &at(1, 4));
    assert_eq!(g.nodes, vec![node(5, &[]), child_node(1), node(6, &[]), child_node(0)]);
    assert_eq!(g.edges.len(), 4);
    assert_eq!(
        g.edges[0],
        (node(5, &[]), child_node(1), DepEdge::data(at(1, 4), SourceUse::Operand, TargetUse::Assign, Tentativeness::Certain))
    );
    assert_eq!(
        g.edges[1],
        (child_node(0), node(6, &[]), DepEdge::data(at(1, 4), SourceUse::Operand, TargetUse::Return, Tentativeness::Certain))
    );
    assert_eq!(
        g.edges[2],
        (child_node(1), node(5, &[]), DepEdge::data(at(1, 4), SourceUse::Operand, TargetUse::MutArg(0), Tentativeness::Certain))
    );
    assert_eq!(g.edges[3], (child_node(1), child_node(0), ctrl_edge()));
}
