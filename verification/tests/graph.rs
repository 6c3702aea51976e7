use glzip::builder::{edgelist_to_csr, exclusive_sum};
use glzip::error::Error;
use glzip::Edge;
use glzip::CSR;

fn build(edges: &[(u32, u32)]) -> CSR {
    let buf: Vec<Result<Edge, Error>> = edges.iter().map(|&(u, v)| Ok(Edge(u, v))).collect();
    CSR::try_from_edges(buf).unwrap()
}

#[test]
fn small_graph() {
    let csr = build(&[(0, 1), (0, 2), (1, 0), (2, 1)]);
    assert_eq!(csr.order(), 3);
    assert_eq!(csr.size(), 4);
    assert_eq!(csr.neighbors(0), vec![1, 2]);
    assert_eq!(csr.neighbors(1), vec![0]);
    assert_eq!(csr.neighbors(2), vec![1]);
    assert_eq!(csr.neighbors(3), Vec::<u32>::new());
    assert_eq!(
        csr.edges(),
        vec![Edge(0, 1), Edge(0, 2), Edge(1, 0), Edge(2, 1)]
    );
    assert!(csr.nbytes() > 0);
}

#[test]
fn builder_dedup() {
    let csr = build(&[(0, 1), (0, 1), (0, 2), (0, 1)]);
    assert_eq!(csr.neighbors(0), vec![1, 2]);
    assert_eq!(csr.size(), 2);
}

#[test]
fn vertex_padding() {
    let csr = build(&[(0, 3)]);
    assert_eq!(csr.order(), 4);
    assert_eq!(csr.neighbors(0), vec![3]);
    assert_eq!(csr.neighbors(1), Vec::<u32>::new());
    assert_eq!(csr.neighbors(2), Vec::<u32>::new());
    assert_eq!(csr.neighbors(3), Vec::<u32>::new());
}

#[test]
fn empty_graph() {
    let csr = build(&[]);
    assert_eq!(csr.order(), 0);
    assert_eq!(csr.size(), 0);
    assert_eq!(csr.neighbors(0), Vec::<u32>::new());
    assert_eq!(csr.edges(), Vec::<Edge>::new());
}

#[test]
fn builder_determinism() {
    let a = build(&[(2, 1), (0, 2), (1, 0), (0, 1), (0, 1)]);
    let b = build(&[(0, 1), (0, 2), (0, 1), (1, 0), (2, 1)]);
    assert_eq!(a.order(), b.order());
    assert_eq!(a.size(), b.size());
    for u in 0..a.order() as u32 {
        assert_eq!(a.neighbors(u), b.neighbors(u));
    }
    assert_eq!(a.nbytes(), b.nbytes());
}

#[test]
fn builder_parts() {
    let mut buf = vec![Edge(1, 0), Edge(0, 2), Edge(0, 1)];
    let (offsets, num_edges, blob) = edgelist_to_csr(&mut buf);
    assert_eq!(num_edges, 3);
    assert_eq!(offsets.len(), 4);
    assert_eq!(offsets[0], 0);
    assert_eq!(*offsets.last().unwrap(), blob.len());
}

#[test]
fn exclusive_sum_basic() {
    let r = exclusive_sum(0, vec![3, 1, 4]);
    assert_eq!(r, vec![0, 3, 4, 8]);
    let r2 = exclusive_sum(5, vec![]);
    assert_eq!(r2, vec![5]);
}

#[test]
fn reverse_small() {
    let g = build(&[(0, 1), (0, 2), (1, 0), (2, 1)]);
    let r = g.reverse();
    assert_eq!(r.neighbors(0), vec![1]);
    assert_eq!(r.neighbors(1), vec![0, 2]);
    assert_eq!(r.neighbors(2), vec![0]);
}

#[test]
fn reverse_involution() {
    let g = build(&[(0, 1), (0, 2), (1, 0), (2, 1), (3, 0)]);
    let rr = g.reverse().reverse();
    assert_eq!(rr.order(), g.order());
    assert_eq!(rr.size(), g.size());
    for u in 0..g.order() as u32 {
        assert_eq!(rr.neighbors(u), g.neighbors(u));
    }
}

#[test]
fn union_small() {
    let g = build(&[(0, 1), (0, 2), (1, 2), (2, 0)]);
    let h = build(&[(0, 3), (1, 3), (3, 2)]);
    let u = g.union(&h);
    assert_eq!(u.neighbors(0), vec![1, 2, 3]);
    assert_eq!(u.neighbors(1), vec![2, 3]);
    assert_eq!(u.neighbors(2), vec![0]);
    assert_eq!(u.neighbors(3), vec![2]);
    assert_eq!(u.order(), 4);
    assert_eq!(u.size(), 7);
}

#[test]
fn union_idempotent() {
    let g = build(&[(0, 1), (0, 2), (1, 2), (2, 0)]);
    let u = g.union(&g);
    assert_eq!(u.order(), g.order());
    assert_eq!(u.size(), g.size());
    for v in 0..g.order() as u32 {
        assert_eq!(u.neighbors(v), g.neighbors(v));
    }
}

#[test]
fn reorder_permutation() {
    let g = build(&[(0, 1), (0, 2), (1, 0), (2, 1)]);
    let perm: Vec<u32> = vec![2, 0, 1];
    let r = g.reorder(&perm);
    // adj(perm[u]) is the sorted image of adj(u)
    for u in 0..3u32 {
        let mut image: Vec<u32> = g
            .neighbors(u)
            .into_iter()
            .map(|v| perm[v as usize])
            .collect();
        image.sort();
        assert_eq!(r.neighbors(perm[u as usize]), image);
    }
}

#[test]
fn from_csr_ok() {
    let indptr: Vec<u64> = vec![0, 2, 3];
    let indices: Vec<u64> = vec![1, 2, 0];
    let g = CSR::try_from_csr(&indptr, &indices).unwrap();
    assert_eq!(g.neighbors(0), vec![1, 2]);
    assert_eq!(g.neighbors(1), vec![0]);
    assert_eq!(g.order(), 3);
}

#[test]
fn from_csr_index_overflow() {
    let indptr: Vec<u64> = vec![0, 1];
    let indices: Vec<u64> = vec![5_000_000_000];
    assert!(matches!(
        CSR::try_from_csr(&indptr, &indices),
        Err(Error::IndexOverflow)
    ));
}

#[test]
fn from_edge_index_ok() {
    let src: Vec<u64> = vec![0, 0, 1];
    let dst: Vec<u64> = vec![1, 2, 0];
    let g = CSR::try_from_edge_index(&src, &dst).unwrap();
    assert_eq!(g.neighbors(0), vec![1, 2]);
    assert_eq!(g.neighbors(1), vec![0]);
}

#[test]
fn from_edge_index_overflow() {
    let src: Vec<u64> = vec![0, 5_000_000_000];
    let dst: Vec<u64> = vec![1, 2];
    assert!(matches!(
        CSR::try_from_edge_index(&src, &dst),
        Err(Error::IndexOverflow)
    ));
}

#[test]
fn from_edges_short_circuits() {
    let edges: Vec<Result<Edge, Error>> = vec![
        Ok(Edge(0, 1)),
        Err(Error::IndexOverflow),
        Ok(Edge(1, 2)),
        Err(Error::TooManyVertices),
    ];
    assert!(matches!(CSR::try_from_edges(edges), Err(Error::IndexOverflow)));
}

#[test]
fn from_edges_with_capacity_ok() {
    let edges: Vec<Result<Edge, Error>> = vec![Ok(Edge(0, 1)), Ok(Edge(1, 0))];
    let g = CSR::try_from_edges_with_capacity(2, edges).unwrap();
    assert_eq!(g.order(), 2);
    assert_eq!(g.size(), 2);
}

#[test]
fn error_messages() {
    assert!(!Error::TooManyVertices.message().is_empty());
    assert!(!Error::IndexPtrOverflow.message().is_empty());
    assert!(!Error::IndexOverflow.message().is_empty());
}

#[test]
fn chunked_ingestion_matches_whole() {
    // building in chunks and taking unions gives the same graph
    let all = [(0u32, 1u32), (1, 2), (2, 3), (3, 0), (0, 2), (2, 1)];
    let whole = build(&all);
    let acc = build(&all[..3]).union(&build(&all[3..]));
    assert_eq!(acc.order(), whole.order());
    assert_eq!(acc.size(), whole.size());
    for u in 0..whole.order() as u32 {
        assert_eq!(acc.neighbors(u), whole.neighbors(u));
    }
}

#[test]
fn degree_matches_neighbors() {
    let csr = build(&[(0, 1), (0, 2), (0, 300), (0, 70_000), (1, 0), (2, 2)]);
    for u in 0..csr.order() as u32 {
        assert_eq!(csr.degree(u), csr.neighbors(u).len());
    }
    assert_eq!(csr.degree(0), 4);
    assert_eq!(csr.degree(99), 0);
}

#[test]
fn edge_conversions() {
    assert_eq!(Edge::from((3u32, 4u32)), Edge(3, 4));
    assert_eq!(Edge::from([5u32, 6u32]), Edge(5, 6));
    assert_eq!(<(u32, u32)>::from(Edge(7, 8)), (7, 8));
}

#[test]
fn builder_leaves_buffer_sorted() {
    let mut buf = vec![Edge(2, 0), Edge(0, 5), Edge(1, 1), Edge(0, 2)];
    let _ = edgelist_to_csr(&mut buf);
    assert_eq!(buf, vec![Edge(0, 2), Edge(0, 5), Edge(1, 1), Edge(2, 0)]);
}
