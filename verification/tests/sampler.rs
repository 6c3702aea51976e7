use glzip::error::Error;
use glzip::graph_sage_sampler::GraphSageSampler;
use glzip::io::parse_edge;
use glzip::iter::Dedup;
use glzip::reorder::reordering;
use glzip::slice::ExponentialChunks;
use glzip::Edge;
use glzip::CSR;

fn build(edges: &[(u32, u32)]) -> CSR {
    let buf: Vec<Result<Edge, Error>> = edges.iter().map(|&(u, v)| Ok(Edge(u, v))).collect();
    CSR::try_from_edges(buf).unwrap()
}

#[test]
fn sample_one_layer() {
    let csr = build(&[(0, 1), (0, 2), (0, 3)]);
    let sampler = GraphSageSampler::new(&csr, vec![2]);
    let (nodes, batch_size, adjs) = sampler.sample(&vec![0u32]);
    assert_eq!(batch_size, 1);
    assert_eq!(adjs.len(), 1);
    let layer = &adjs[0];
    assert_eq!(layer.dst, vec![0, 0]);
    assert_eq!(layer.src.len(), 2);
    assert_eq!(layer.size, (3, 1));
    assert_eq!(nodes.len(), 3);
    assert_eq!(nodes[0], 0);
    for &id in &layer.src {
        let v = nodes[id as usize];
        assert!(v == 1 || v == 2 || v == 3);
    }
    assert_ne!(layer.src[0], layer.src[1]);
    assert_ne!(nodes[1], nodes[2]);
}

#[test]
fn sample_no_layers() {
    let csr = build(&[(0, 1), (1, 0)]);
    let sampler = GraphSageSampler::new(&csr, vec![]);
    let (nodes, batch_size, adjs) = sampler.sample(&vec![1u32, 0]);
    assert_eq!(batch_size, 2);
    assert!(adjs.is_empty());
    assert_eq!(nodes, vec![1, 0]);
}

#[test]
fn sample_bounds() {
    // fan-out larger than any degree: every neighbour is taken
    let csr = build(&[(0, 1), (0, 2), (0, 3), (1, 2)]);
    let sampler = GraphSageSampler::new(&csr, vec![5]);
    let (nodes, _batch, adjs) = sampler.sample(&vec![0u32, 1]);
    let layer = &adjs[0];
    assert_eq!(layer.dst.len(), 4);
    assert_eq!(layer.src.len(), 4);
    for (&d, &s) in layer.dst.iter().zip(layer.src.iter()) {
        let from = nodes[d as usize];
        let to = nodes[s as usize];
        assert!(csr.neighbors(from).contains(&to));
    }
}

#[test]
fn sample_isolated_vertex() {
    let csr = build(&[(0, 1)]);
    let sampler = GraphSageSampler::new(&csr, vec![3]);
    let (_nodes, _batch, adjs) = sampler.sample(&vec![1u32]);
    assert_eq!(adjs[0].dst.len(), 0);
    assert_eq!(adjs[0].size, (1, 1));
}

#[test]
fn sample_two_layers() {
    let csr = build(&[(0, 1), (1, 2), (2, 0)]);
    let sampler = GraphSageSampler::new(&csr, vec![1, 1]);
    let (nodes, batch_size, adjs) = sampler.sample(&vec![0u32]);
    assert_eq!(batch_size, 1);
    assert_eq!(adjs.len(), 2);
    assert_eq!(nodes[0], 0);
    // layers come deepest hop first
    assert_eq!(adjs[1].size.1, 1);
}

#[test]
fn reordering_is_permutation() {
    let csr = build(&[(0, 1), (1, 2), (2, 3), (3, 0), (0, 2)]);
    let perm = reordering(&csr, 1, 4);
    let mut seen = vec![false; 4];
    assert_eq!(perm.len(), 4);
    for &v in &perm {
        assert!((v as usize) < 4);
        assert!(!seen[v as usize]);
        seen[v as usize] = true;
    }
}

#[test]
fn dedup_walk() {
    let mut d = Dedup::new(vec![1, 1, 2, 2, 2, 3]);
    assert_eq!(d.next(), Some(1));
    assert_eq!(d.next(), Some(2));
    assert_eq!(d.next(), Some(3));
    assert_eq!(d.next(), None);
}

#[test]
fn dedup_empty() {
    let mut d = Dedup::new(vec![]);
    assert_eq!(d.next(), None);
}

#[test]
fn exponential_chunks_schedule() {
    let mut c = ExponentialChunks::new(10, 1);
    assert_eq!(c.next(), Some((0, 1)));
    assert_eq!(c.next(), Some((1, 3)));
    assert_eq!(c.next(), Some((3, 7)));
    assert_eq!(c.next(), Some((7, 10)));
    assert_eq!(c.next(), None);
}

#[test]
fn parse_edge_rows() {
    assert_eq!(parse_edge(b"0,1"), Some(Edge(0, 1)));
    assert_eq!(parse_edge(b" 10 ,\t20 "), Some(Edge(10, 20)));
    assert_eq!(parse_edge(b"+1,2"), Some(Edge(1, 2)));
    assert_eq!(parse_edge(b"\r7 , +8\n"), Some(Edge(7, 8)));
    assert_eq!(parse_edge(b"+,1"), None);
    assert_eq!(parse_edge(b"++1,2"), None);
    assert_eq!(parse_edge(b"4294967295,0"), Some(Edge(4294967295, 0)));
    assert_eq!(parse_edge(b"4294967296,0"), None);
    assert_eq!(parse_edge(b"1,2,3"), None);
    assert_eq!(parse_edge(b"a,1"), None);
    assert_eq!(parse_edge(b"1,"), None);
    assert_eq!(parse_edge(b",1"), None);
    assert_eq!(parse_edge(b""), None);
    assert_eq!(parse_edge(b"7"), None);
}

#[test]
fn sample_duplicate_seeds() {
    // duplicate seeds receive distinct local ids
    let csr = build(&[(0, 1)]);
    let sampler = GraphSageSampler::new(&csr, vec![1]);
    let (nodes, batch_size, adjs) = sampler.sample(&vec![0u32, 0]);
    assert_eq!(batch_size, 2);
    assert_eq!(adjs[0].size.1, 2);
    assert_eq!(nodes[0], 0);
    assert_eq!(nodes[1], 0);
}

#[test]
fn reservoir_bounds() {
    let items: Vec<u32> = vec![10, 20, 30, 40, 50];
    let r = glzip::graph_sage_sampler::reservoir_sample(&items, 3);
    assert_eq!(r.len(), 3);
    for v in &r {
        assert!(items.contains(v));
    }
    let all = glzip::graph_sage_sampler::reservoir_sample(&items, 9);
    assert_eq!(all, items);
    let none = glzip::graph_sage_sampler::reservoir_sample(&items, 0);
    assert!(none.is_empty());
}

#[test]
fn exponential_chunks_zero_start() {
    // a zero initial chunk falls back to taking the whole rest
    let mut c = ExponentialChunks::new(5, 0);
    assert_eq!(c.next(), Some((0, 5)));
    assert_eq!(c.next(), None);
    let mut empty = ExponentialChunks::new(0, 3);
    assert_eq!(empty.next(), None);
}
