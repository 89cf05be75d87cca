use graph_kernels::graph::{CsrLayout, EdgeList, UndirectedCsrGraph};
use graph_kernels::relabel::relabel_graph;
use graph_kernels::triangle_count::{
    checked_triangle_count, claim_chunk, count_chunked, count_range, global_triangle_count,
    intersect_below, CHUNK_SIZE,
};
use graph_kernels::Error;

fn dedup_graph(edges: Vec<(usize, usize)>) -> UndirectedCsrGraph {
    UndirectedCsrGraph::from_edge_list(&EdgeList::new(edges), CsrLayout::Deduplicated).unwrap()
}

#[test]
fn test_tc_two_components() {
    // (a)-->()-->()<--(a),(b)-->()-->()<--(b)
    let graph = dedup_graph(vec![(0, 1), (1, 2), (0, 2), (3, 4), (4, 5), (3, 5)]);
    assert_eq!(global_triangle_count(&graph), 2);
}

#[test]
fn test_tc_connected_triangles() {
    // (a)-->()-->()<--(a),(a)-->()-->()<--(a)
    let graph = dedup_graph(vec![(0, 1), (1, 2), (0, 2), (0, 3), (3, 4), (0, 4)]);
    assert_eq!(global_triangle_count(&graph), 2);
}

#[test]
fn test_tc_diamond() {
    // (a)-->(b)-->(c)<--(a),(b)-->(d)<--(c)
    let graph = dedup_graph(vec![(0, 1), (1, 2), (0, 2), (1, 3), (2, 3)]);
    assert_eq!(global_triangle_count(&graph), 2);
}

#[test]
fn two_disjoint_triangles() {
    let graph = dedup_graph(vec![(0, 1), (1, 2), (2, 0), (3, 4), (4, 5), (5, 3)]);
    assert_eq!(global_triangle_count(&graph), 2);
}

#[test]
fn bow_tie() {
    let graph = dedup_graph(vec![(0, 1), (1, 2), (2, 0), (0, 3), (3, 4), (4, 0)]);
    assert_eq!(global_triangle_count(&graph), 2);
}

#[test]
fn diamond_with_chord() {
    let graph = dedup_graph(vec![(0, 1), (1, 2), (0, 2), (1, 3), (2, 3)]);
    assert_eq!(global_triangle_count(&graph), 2);
}

#[test]
fn four_cycle_has_none() {
    let graph = dedup_graph(vec![(0, 1), (1, 2), (2, 3), (3, 0)]);
    assert_eq!(global_triangle_count(&graph), 0);
}

#[test]
fn complete_on_four() {
    let graph = dedup_graph(vec![(0, 1), (0, 2), (0, 3), (1, 2), (1, 3), (2, 3)]);
    assert_eq!(global_triangle_count(&graph), 4);
}

#[test]
fn isolated_nodes_have_none() {
    let graph = dedup_graph(vec![(9, 9)]);
    assert_eq!(graph.node_count(), 10);
    assert_eq!(global_triangle_count(&graph), 0);
}

#[test]
fn self_loops_close_no_triangle() {
    let graph = dedup_graph(vec![(0, 0), (0, 1), (1, 1), (1, 2), (2, 2)]);
    assert_eq!(global_triangle_count(&graph), 0);
}

#[test]
fn count_is_the_same_for_any_chunk_size() {
    let mut edges = Vec::new();
    for u in 0..150usize {
        edges.push((u, (u + 1) % 150));
        edges.push((u, (u + 2) % 150));
    }
    let graph = dedup_graph(edges);
    let whole = global_triangle_count(&graph);
    assert_eq!(whole, 150);
    for chunk in [1usize, 2, 7, 64, 1000] {
        assert_eq!(count_chunked(&graph.csr, chunk), whole);
    }
    let n = graph.node_count();
    assert_eq!(count_range(&graph.csr, 0, 70) + count_range(&graph.csr, 70, n), whole);
}

#[test]
fn counting_twice_agrees() {
    let graph = dedup_graph(vec![(0, 1), (0, 2), (0, 3), (1, 2), (1, 3), (2, 3)]);
    assert_eq!(global_triangle_count(&graph), global_triangle_count(&graph));
}

#[test]
fn relabel_keeps_triangle_count() {
    let mut graph = dedup_graph(vec![(0, 1), (1, 2), (2, 0), (0, 3), (3, 4), (4, 0), (4, 5)]);
    let before = global_triangle_count(&graph);
    relabel_graph(&mut graph);
    assert_eq!(global_triangle_count(&graph), before);
    assert_eq!(before, 2);
}

#[test]
fn relabel_orders_by_degree() {
    let mut graph = dedup_graph(vec![(0, 1), (2, 3), (2, 4), (2, 5), (4, 5)]);
    let mut degrees_before: Vec<usize> = (0..graph.node_count()).map(|u| graph.degree(u)).collect();
    relabel_graph(&mut graph);
    let degrees: Vec<usize> = (0..graph.node_count()).map(|u| graph.degree(u)).collect();
    assert_eq!(degrees, vec![3, 2, 2, 1, 1, 1]);
    for u in 0..graph.node_count() {
        assert!(graph.neighbors(u).windows(2).all(|w| w[0] <= w[1]));
    }
    degrees_before.sort();
    let mut sorted = degrees.clone();
    sorted.sort();
    assert_eq!(sorted, degrees_before);
    // node 2 had the highest degree and becomes node 0
    assert_eq!(graph.neighbors(0), &[1, 2, 5]);
    assert_eq!(graph.edge_count(), 5);
}

#[test]
fn intersection_counts_common_entries_below_bound() {
    assert_eq!(intersect_below(&[1, 3, 5, 7], &[0, 3, 4, 5, 9], 9), 2);
    assert_eq!(intersect_below(&[1, 3, 5, 7], &[0, 3, 4, 5, 9], 5), 1);
    assert_eq!(intersect_below(&[], &[1, 2], 5), 0);
}

#[test]
fn chunks_cover_the_nodes() {
    assert_eq!(claim_chunk(0, 10), Some((0, 10)));
    assert_eq!(claim_chunk(0, 200), Some((0, CHUNK_SIZE)));
    assert_eq!(claim_chunk(128, 200), Some((128, 192)));
    assert_eq!(claim_chunk(192, 200), Some((192, 200)));
    assert_eq!(claim_chunk(256, 200), None);
}

#[test]
fn unsorted_graph_is_a_layout_violation() {
    let el = EdgeList::new(vec![(0, 2), (0, 1)]);
    let graph = UndirectedCsrGraph::from_edge_list(&el, CsrLayout::Unsorted).unwrap();
    assert_eq!(checked_triangle_count(&graph), Err(Error::LayoutViolation));
    let sorted = dedup_graph(vec![(0, 2), (0, 1), (1, 2)]);
    assert_eq!(checked_triangle_count(&sorted), Ok(1));
}

#[test]
fn relabel_keeps_lists_strictly_ascending() {
    let mut graph = dedup_graph(vec![(5, 0), (5, 1), (5, 2), (1, 2), (0, 2), (3, 4)]);
    relabel_graph(&mut graph);
    for u in 0..graph.node_count() {
        assert!(graph.neighbors(u).windows(2).all(|w| w[0] < w[1]));
        for &v in graph.neighbors(u) {
            assert!(graph.neighbors(v).contains(&u));
        }
    }
    assert_eq!(graph.degree(0), 3);
    assert_eq!(global_triangle_count(&graph), 2);
}
