use paralegal::traverse::{
    always_depends, checked_flows_to, generic_flows_to, EdgeInfo, EdgeKind, EdgeSelection, Tentativeness, SPDG,
};
use petgraph::stable_graph::StableGraph;

fn edge(kind: EdgeKind, tentativeness: Tentativeness) -> EdgeInfo {
    EdgeInfo { kind, tentativeness }
}

/// a -> b -> c (data), c -> d (control), a -> d (data, tentative), e alone.
fn sample() -> SPDG {
    let mut g = StableGraph::new();
    let a = g.add_node("a".to_string());
    let b = g.add_node("b".to_string());
    let c = g.add_node("c".to_string());
    let d = g.add_node("d".to_string());
    let _e = g.add_node("e".to_string());
    g.add_edge(a, b, edge(EdgeKind::Data, Tentativeness::Certain));
    g.add_edge(b, c, edge(EdgeKind::Data, Tentativeness::Certain));
    g.add_edge(c, d, edge(EdgeKind::Control, Tentativeness::Certain));
    g.add_edge(a, d, edge(EdgeKind::Data, Tentativeness::ControlFlowInduced));
    SPDG { graph: g }
}

#[test]
fn edge_selection_predicates() {
    assert!(EdgeSelection::Data.use_data());
    assert!(!EdgeSelection::Data.use_control());
    assert!(EdgeSelection::Control.use_control());
    assert!(!EdgeSelection::Control.use_data());
    assert!(EdgeSelection::Both.use_data() && EdgeSelection::Both.use_control());
    assert!(EdgeSelection::Data.conforms(EdgeKind::Data));
    assert!(!EdgeSelection::Data.conforms(EdgeKind::Control));
    assert!(EdgeSelection::Control.conforms(EdgeKind::Control));
    assert!(!EdgeSelection::Control.conforms(EdgeKind::Data));
    assert!(EdgeSelection::Both.conforms(EdgeKind::Data) && EdgeSelection::Both.conforms(EdgeKind::Control));
    assert!(EdgeSelection::Data.is_data() && EdgeSelection::Control.is_control() && EdgeSelection::Both.is_both());
    assert!(!EdgeSelection::Both.is_data());
}

#[test]
fn edge_info_predicates() {
    let e = edge(EdgeKind::Data, Tentativeness::ControlFlowInduced);
    assert!(e.is_data() && !e.is_control() && e.is_tentative());
    let c = edge(EdgeKind::Control, Tentativeness::Certain);
    assert!(c.is_control() && !c.is_data() && !c.is_tentative());
    assert!(edge(EdgeKind::Data, Tentativeness::FunctionNotAnalyzed).is_tentative());
}

#[test]
fn always_depends_follows_data_back() {
    let s = sample();
    assert!(always_depends(2, EdgeSelection::Data, &s, 0));
    assert!(always_depends(2, EdgeSelection::Data, &s, 1));
    assert!(always_depends(3, EdgeSelection::Data, &s, 0));
    assert!(!always_depends(3, EdgeSelection::Data, &s, 1));
    assert!(!always_depends(0, EdgeSelection::Data, &s, 2));
    assert!(!always_depends(4, EdgeSelection::Data, &s, 0));
}

#[test]
fn always_depends_on_itself() {
    let s = sample();
    assert!(always_depends(1, EdgeSelection::Data, &s, 1));
    assert!(always_depends(4, EdgeSelection::Data, &s, 4));
}

#[test]
fn always_depends_only_for_data() {
    let s = sample();
    assert!(!always_depends(2, EdgeSelection::Control, &s, 0));
    assert!(!always_depends(2, EdgeSelection::Both, &s, 0));
    assert!(!always_depends(1, EdgeSelection::Both, &s, 1));
}

#[test]
fn always_depends_through_cycles() {
    let mut g = StableGraph::new();
    let a = g.add_node("a".to_string());
    let b = g.add_node("b".to_string());
    let c = g.add_node("c".to_string());
    let d = g.add_node("d".to_string());
    g.add_edge(b, c, edge(EdgeKind::Data, Tentativeness::ControlFlowInduced));
    g.add_edge(c, b, edge(EdgeKind::Data, Tentativeness::ControlFlowInduced));
    g.add_edge(a, b, edge(EdgeKind::Data, Tentativeness::Certain));
    g.add_edge(c, d, edge(EdgeKind::Data, Tentativeness::Certain));
    g.add_edge(b, d, edge(EdgeKind::Data, Tentativeness::Certain));
    let s = SPDG { graph: g };
    assert!(always_depends(3, EdgeSelection::Data, &s, 0));
    assert!(always_depends(1, EdgeSelection::Data, &s, 2));
    assert!(!always_depends(0, EdgeSelection::Data, &s, 3));
}

#[test]
fn flows_to_along_selected_edges() {
    let s = sample();
    assert!(generic_flows_to(&vec![0], EdgeSelection::Data, &s, &vec![2]));
    assert!(!generic_flows_to(&vec![2], EdgeSelection::Data, &s, &vec![3]));
    assert!(generic_flows_to(&vec![2], EdgeSelection::Control, &s, &vec![3]));
    assert!(generic_flows_to(&vec![0], EdgeSelection::Both, &s, &vec![3]));
    assert!(!generic_flows_to(&vec![0], EdgeSelection::Control, &s, &vec![2]));
    assert!(!generic_flows_to(&vec![3], EdgeSelection::Both, &s, &vec![0]));
    assert!(generic_flows_to(&vec![3, 1], EdgeSelection::Data, &s, &vec![4, 2]));
    assert!(generic_flows_to(&vec![4], EdgeSelection::Data, &s, &vec![4]));
}

#[test]
fn flows_to_with_empty_ends() {
    let s = sample();
    assert!(!generic_flows_to(&vec![], EdgeSelection::Both, &s, &vec![1]));
    assert!(!generic_flows_to(&vec![0], EdgeSelection::Both, &s, &vec![]));
}

#[test]
fn checked_flows_to_refuses_unknown_starts() {
    let s = sample();
    assert_eq!(checked_flows_to(&vec![0], EdgeSelection::Data, &s, &vec![2]), Some(true));
    assert_eq!(checked_flows_to(&vec![2], EdgeSelection::Data, &s, &vec![0]), Some(false));
    assert_eq!(checked_flows_to(&vec![0, 99], EdgeSelection::Data, &s, &vec![2]), None);
    assert_eq!(checked_flows_to(&vec![99], EdgeSelection::Data, &s, &vec![]), Some(false));
}

#[test]
fn always_depends_agrees_with_data_flow() {
    let s = sample();
    for start in 0..5u32 {
        for target in 0..5u32 {
            assert_eq!(
                always_depends(start, EdgeSelection::Data, &s, target),
                generic_flows_to(&vec![target], EdgeSelection::Data, &s, &vec![start])
            );
        }
    }
}
