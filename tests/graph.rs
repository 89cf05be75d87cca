use graph_kernels::create_graph;
use graph_kernels::graph::{CsrLayout, DirectedCsrGraph, EdgeList, UndirectedCsrGraph};
use graph_kernels::Error;

#[test]
fn directed_graph_from_edge_list() {
    let edge_list = EdgeList::new(vec![(0, 1), (0, 2)]);

    let g: DirectedCsrGraph = create_graph(edge_list).unwrap();

    assert_eq!(g.node_count(), 3);
    assert_eq!(g.edge_count(), 2);

    assert_eq!(g.out_degree(0), 2);
    assert_eq!(g.out_degree(1), 0);
    assert_eq!(g.out_degree(2), 0);

    assert_eq!(g.in_degree(0), 0);
    assert_eq!(g.in_degree(1), 1);
    assert_eq!(g.in_degree(2), 1);

    assert_eq!(g.out_neighbors(0), &[1, 2]);
    assert_eq!(g.out_neighbors(1), &[]);
    assert_eq!(g.out_neighbors(2), &[]);

    assert_eq!(g.in_neighbors(0), &[]);
    assert_eq!(g.in_neighbors(1), &[0]);
    assert_eq!(g.in_neighbors(2), &[0]);
}

#[test]
fn undirected_graph_from_edge_list() {
    let edge_list = EdgeList::new(vec![(0, 1), (0, 2)]);

    let g: UndirectedCsrGraph = create_graph(edge_list).unwrap();

    assert_eq!(g.node_count(), 3);
    assert_eq!(g.edge_count(), 2);

    assert_eq!(g.degree(0), 2);
    assert_eq!(g.degree(1), 1);
    assert_eq!(g.degree(2), 1);

    assert_eq!(g.neighbors(0), &[1, 2]);
    assert_eq!(g.neighbors(1), &[0]);
    assert_eq!(g.neighbors(2), &[0]);
}

#[test]
fn empty_edge_list_has_no_nodes() {
    let g = UndirectedCsrGraph::from_edge_list(&EdgeList::new(vec![]), CsrLayout::Sorted).unwrap();
    assert_eq!(g.node_count(), 0);
    assert_eq!(g.edge_count(), 0);
    assert_eq!(g.csr.offsets, vec![0]);
}

#[test]
fn node_count_is_one_past_largest_id() {
    assert_eq!(EdgeList::new(vec![(4, 2), (1, 9)]).node_count(), Some(10));
    assert_eq!(EdgeList::new(vec![]).node_count(), Some(0));
    assert_eq!(EdgeList::new(vec![(usize::MAX - 1, 0)]).node_count(), None);
}

#[test]
fn unsorted_keeps_insertion_order() {
    let el = EdgeList::new(vec![(0, 3), (0, 1), (0, 2), (0, 1)]);
    let g = DirectedCsrGraph::from_edge_list(&el, CsrLayout::Unsorted).unwrap();
    assert_eq!(g.out_neighbors(0), &[3, 1, 2, 1]);
    assert_eq!(g.edge_count(), 4);
}

#[test]
fn sorted_orders_each_list() {
    let el = EdgeList::new(vec![(0, 3), (0, 1), (0, 2), (0, 1)]);
    let g = DirectedCsrGraph::from_edge_list(&el, CsrLayout::Sorted).unwrap();
    assert_eq!(g.out_neighbors(0), &[1, 1, 2, 3]);
    for u in 0..g.node_count() {
        let n = g.out_neighbors(u);
        assert!(n.windows(2).all(|w| w[0] <= w[1]));
    }
}

#[test]
fn deduplicated_removes_repeats() {
    let el = EdgeList::new(vec![(0, 3), (0, 1), (0, 2), (0, 1), (1, 0)]);
    let g = UndirectedCsrGraph::from_edge_list(&el, CsrLayout::Deduplicated).unwrap();
    assert_eq!(g.neighbors(0), &[1, 2, 3]);
    assert_eq!(g.neighbors(1), &[0]);
    assert_eq!(g.edge_count(), 3);
    let total: usize = (0..g.node_count()).map(|u| g.neighbors(u).len()).sum();
    assert_eq!(total, g.edge_count() * 2);
    for u in 0..g.node_count() {
        assert!(g.neighbors(u).windows(2).all(|w| w[0] < w[1]));
    }
}

#[test]
fn offsets_never_decrease() {
    let el = EdgeList::new(vec![(2, 0), (5, 1), (5, 2), (0, 0)]);
    let g = UndirectedCsrGraph::from_edge_list(&el, CsrLayout::Unsorted).unwrap();
    assert_eq!(g.csr.offsets.len(), g.node_count() + 1);
    for u in 0..g.node_count() {
        assert!(g.csr.offsets[u + 1] >= g.csr.offsets[u]);
    }
}

#[test]
fn undirected_neighbours_are_mutual() {
    let el = EdgeList::new(vec![(0, 1), (2, 1), (3, 0), (3, 3)]);
    let g = UndirectedCsrGraph::from_edge_list(&el, CsrLayout::Sorted).unwrap();
    for u in 0..g.node_count() {
        for &v in g.neighbors(u) {
            assert!(g.neighbors(v).contains(&u));
        }
    }
}

#[test]
fn self_loop_appears_once() {
    let el = EdgeList::new(vec![(1, 1), (0, 1)]);
    let g = UndirectedCsrGraph::from_edge_list(&el, CsrLayout::Sorted).unwrap();
    assert_eq!(g.neighbors(1), &[0, 1]);
    assert_eq!(g.csr.targets.len(), 3);
    assert_eq!(g.edge_count(), 2);
}

#[test]
fn oversized_id_is_rejected() {
    let el = EdgeList::new(vec![(0, usize::MAX)]);
    assert_eq!(
        UndirectedCsrGraph::from_edge_list(&el, CsrLayout::Sorted).err(),
        Some(Error::IdOverflow)
    );
    assert_eq!(
        DirectedCsrGraph::from_edge_list(&el, CsrLayout::Sorted).err(),
        Some(Error::IdOverflow)
    );
}

fn summary<G: graph_kernels::UndirectedGraph>(g: &G) -> (usize, usize, Vec<usize>) {
    let degrees = (0..g.node_count()).map(|u| g.degree(u)).collect();
    (g.node_count(), g.edge_count(), degrees)
}

fn in_degrees<G: graph_kernels::DirectedGraph>(g: &G) -> Vec<usize> {
    (0..g.node_count()).map(|u| g.in_degree(u)).collect()
}

#[test]
fn graph_traits_agree_with_methods() {
    let el = EdgeList::new(vec![(0, 1), (1, 2), (3, 1)]);
    let u = UndirectedCsrGraph::from_edge_list(&el, CsrLayout::Sorted).unwrap();
    assert_eq!(summary(&u), (4, 3, vec![1, 3, 1, 1]));
    let d = DirectedCsrGraph::from_edge_list(&el, CsrLayout::Sorted).unwrap();
    assert_eq!(in_degrees(&d), vec![0, 2, 1, 0]);
    assert_eq!(graph_kernels::DirectedGraph::out_neighbors(&d, 3), &[1]);
}

#[test]
fn undirected_unsorted_places_both_ends_in_edge_order() {
    let el = EdgeList::new(vec![(2, 0), (0, 1), (1, 2), (0, 0)]);
    let g = UndirectedCsrGraph::from_edge_list(&el, CsrLayout::Unsorted).unwrap();
    assert_eq!(g.neighbors(0), &[2, 1, 0]);
    assert_eq!(g.neighbors(1), &[0, 2]);
    assert_eq!(g.neighbors(2), &[0, 1]);
    assert_eq!(g.edge_count(), 4);
}
