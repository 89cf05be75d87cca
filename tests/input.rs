use graph_kernels::graph::{DirectedCsrGraph, EdgeList, UndirectedCsrGraph};
use graph_kernels::input::{parse_edge_list, read_graph, EdgeListInput};
use graph_kernels::Error;

// The text of the edge-list resource file read by the two tests below.
const TEST_EL: &[u8] = b"0 1\n0 2\n";

#[test]
fn directed_graph_from_edge_list_file() {
    let g: DirectedCsrGraph = read_graph(TEST_EL, EdgeListInput).unwrap();

    assert_eq!(g.node_count(), 3);
    assert_eq!(g.edge_count(), 2);

    assert_eq!(g.out_degree(0), 2);
    assert_eq!(g.out_degree(1), 0);
    assert_eq!(g.out_degree(2), 0);

    assert_eq!(g.in_degree(0), 0);
    assert_eq!(g.in_degree(1), 1);
    assert_eq!(g.in_degree(2), 1);

    assert_eq!(g.out_neighbors(0), &[1, 2]);
    assert_eq!(g.out_neighbors(1), &[]);
    assert_eq!(g.out_neighbors(2), &[]);

    assert_eq!(g.in_neighbors(0), &[]);
    assert_eq!(g.in_neighbors(1), &[0]);
    assert_eq!(g.in_neighbors(2), &[0]);
}

#[test]
fn undirected_graph_from_edge_list_file() {
    let g: UndirectedCsrGraph = read_graph(TEST_EL, EdgeListInput).unwrap();

    assert_eq!(g.node_count(), 3);
    assert_eq!(g.edge_count(), 2);

    assert_eq!(g.degree(0), 2);
    assert_eq!(g.degree(1), 1);
    assert_eq!(g.degree(2), 1);

    assert_eq!(g.neighbors(0), &[1, 2]);
    assert_eq!(g.neighbors(1), &[0]);
    assert_eq!(g.neighbors(2), &[0]);
}

fn edges_of(text: &[u8]) -> Result<Vec<(usize, usize)>, Error> {
    parse_edge_list(text).map(|el: EdgeList| el.edges)
}

#[test]
fn parses_pairs_of_ids() {
    assert_eq!(edges_of(b"12 7\r\n\t3  40"), Ok(vec![(12, 7), (3, 40)]));
    assert_eq!(edges_of(b""), Ok(vec![]));
    assert_eq!(edges_of(b"  \n"), Ok(vec![]));
}

#[test]
fn rejects_other_bytes_and_odd_counts() {
    assert_eq!(edges_of(b"0 1\n2 x\n"), Err(Error::InvalidArgument));
    assert_eq!(edges_of(b"0 1 2"), Err(Error::InvalidArgument));
    assert_eq!(edges_of(b"graph"), Err(Error::InvalidArgument));
}

#[test]
fn rejects_ids_beyond_usize() {
    assert_eq!(edges_of(b"0 99999999999999999999999"), Err(Error::IdOverflow));
    let max = format!("0 {}", usize::MAX);
    assert_eq!(edges_of(max.as_bytes()), Ok(vec![(0, usize::MAX)]));
}
