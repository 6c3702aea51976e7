//! Compressed Sparse Row container for directed graphs.
//!
//! A `CSR` owns a byte-offset array, a blob of byte-run-length encoded
//! neighbour lists, and the deduplicated edge count.  Its model is the
//! ghost sequence of per-vertex neighbour lists; well-formedness ties
//! every concrete field to that model, so equal edge sets force equal
//! containers.

use vstd::prelude::*;

use crate::builder::{
    blob_from, builder_post, count_from, edgelist_to_csr, lemma_blob_from_push, lemma_prefix_blob,
    prefix_len,
};
use crate::codec::{enc, is_encoding, lemma_enc_injective, strictly_inc};
use crate::edge::Edge;

verus! {

/// The Compressed Sparse Row struct.
pub struct CSR {
    vertices: Vec<usize>,
    num_edges: usize,
    edges: Vec<u8>,
    nbrs: Ghost<Seq<Seq<u32>>>,
}

impl CSR {
    /// The model: one strictly increasing neighbour list per vertex.
    pub closed spec fn nbr_lists(self) -> Seq<Seq<u32>> {
        self.nbrs@
    }

    /// The byte offsets, one per vertex plus a final end offset.
    pub closed spec fn offsets_view(self) -> Seq<usize> {
        self.vertices@
    }

    /// The concatenated encoded neighbour lists.
    pub closed spec fn blob_view(self) -> Seq<u8> {
        self.edges@
    }

    /// Number of vertices.
    pub open spec fn order_spec(self) -> int {
        self.nbr_lists().len() as int
    }

    /// Number of deduplicated directed edges.
    pub closed spec fn size_spec(self) -> int {
        self.num_edges as int
    }

    /// The neighbour list of `u`, empty beyond the order.
    pub open spec fn nbrs_of(self, u: int) -> Seq<u32> {
        if 0 <= u < self.order_spec() {
            self.nbr_lists()[u]
        } else {
            Seq::<u32>::empty()
        }
    }

    /// Whether the graph holds the arc `u -> v`.
    pub open spec fn has_edge(self, u: u32, v: u32) -> bool {
        self.nbrs_of(u as int).contains(v)
    }

    /// Well-formedness: offsets, blob and edge count all follow the
    /// model, neighbour lists are strictly increasing with in-range
    /// targets, and the last vertex id touches some edge.
    pub open spec fn wf(self) -> bool {
        &&& self.nbr_lists().len() <= 0x1_0000_0000
        &&& forall|u: int|
            0 <= u < self.order_spec() ==> strictly_inc(#[trigger] self.nbr_lists()[u])
        &&& forall|u: int, j: int|
            0 <= u < self.order_spec() && 0 <= j < self.nbr_lists()[u].len() ==> ((
            #[trigger] self.nbr_lists()[u][j]) as int) < self.order_spec()
        &&& (self.order_spec() > 0 ==> exists|u: u32, v: u32|
            #[trigger] self.has_edge(u, v) && (u as int == self.order_spec() - 1 || v as int
                == self.order_spec() - 1))
        &&& self.offsets_view().len() == (if self.order_spec() == 0 {
            0int
        } else {
            self.order_spec() + 1
        })
        &&& forall|i: int|
            0 <= i < self.offsets_view().len() ==> (#[trigger] self.offsets_view()[i])
                == prefix_len(self.nbr_lists(), i)
        &&& self.blob_view() == blob_from(self.nbr_lists(), 0)
        &&& self.size_spec() == count_from(self.nbr_lists(), 0)
    }

    /// How a freshly built graph relates to the edge buffer it came
    /// from: exactly the input arcs, deduplicated.
    pub open spec fn from_edges_rel(self, input: Seq<Edge>) -> bool {
        &&& forall|u: u32, v: u32| #[trigger] self.has_edge(u, v) <==> input.contains(Edge(u, v))
        &&& (input.len() == 0 <==> self.order_spec() == 0)
    }

    fn from_buffer(buf: &mut Vec<Edge>) -> (r: CSR)
        ensures
            r.wf(),
            r.from_edges_rel(old(buf)@),
    {
        let (vertices, num_edges, blob) = edgelist_to_csr(buf);
        let ghost nb = choose|nb: Seq<Seq<u32>>|
            #[trigger] builder_post(old(buf)@, nb, vertices@, num_edges as int, blob@);
        let r = CSR { vertices, num_edges, edges: blob, nbrs: Ghost(nb) };
        proof {
            let input = old(buf)@;
            assert(builder_post(input, nb, r.vertices@, r.num_edges as int, r.edges@));
            assert forall|u: int, j: int|
                0 <= u < r.order_spec() && 0 <= j < r.nbr_lists()[u].len() implies ((
            #[trigger] r.nbr_lists()[u][j]) as int) < r.order_spec() by {
                let v = r.nbr_lists()[u][j];
                assert(r.nbr_lists()[u].contains(v));
                assert(input.contains(Edge(u as u32, v)));
            }
            if r.order_spec() > 0 {
                let e = choose|e: Edge|
                    input.contains(e) && ((#[trigger] e.0) as int == nb.len() - 1 || e.1 as int
                        == nb.len() - 1);
                assert(input.contains(Edge(e.0, e.1)));
                assert(Edge(e.0, e.1) == e);
                assert(r.has_edge(e.0, e.1));
            }
            assert forall|u: u32, v: u32| #[trigger] r.has_edge(u, v) implies input.contains(
                Edge(u, v),
            ) by {}
            assert forall|u: u32, v: u32| input.contains(Edge(u, v)) implies #[trigger] r.has_edge(
                u,
                v,
            ) by {
                assert(Edge(u, v).0 < nb.len());
            }
        }
        r
    }

    /// The number of vertices in the graph.
    pub fn order(&self) -> (r: usize)
        requires
            self.wf(),
        ensures
            r == self.order_spec(),
    {
        if self.vertices.len() == 0 {
            0
        } else {
            self.vertices.len() - 1
        }
    }

    /// The number of edges in the graph.
    pub fn size(&self) -> (r: usize)
        requires
            self.wf(),
        ensures
            r == self.size_spec(),
    {
        self.num_edges
    }

    /// Memory held by the container, its offsets and its blob, saturated
    /// at `usize::MAX`.
    pub fn nbytes(&self) -> (r: usize)
        ensures
            ({
                let total = vstd::layout::size_of::<CSR>() + self.offsets_view().len()
                    * vstd::layout::size_of::<usize>() + self.blob_view().len();
                if total <= usize::MAX {
                    r == total
                } else {
                    r == usize::MAX
                }
            }),
    {
        let own = core::mem::size_of::<CSR>();
        let word = core::mem::size_of::<usize>();
        match self.vertices.len().checked_mul(word) {
            Some(tab) => own.saturating_add(tab).saturating_add(self.edges.len()),
            None => usize::MAX,
        }
    }

    /// The byte range of `u`'s encoded neighbour list inside the blob.
    proof fn lemma_segment(self, u: int)
        requires
            self.wf(),
            0 <= u < self.order_spec(),
        ensures
            0 <= self.offsets_view()[u] <= self.offsets_view()[u + 1] <= self.blob_view().len(),
            self.blob_view().subrange(
                self.offsets_view()[u] as int,
                self.offsets_view()[u + 1] as int,
            ) == enc(u as u32, self.nbr_lists()[u]),
    {
        let nb = self.nbr_lists();
        let b = self.blob_view();
        lemma_prefix_blob(nb, u);
        lemma_prefix_blob(nb, u + 1);
        let e = enc(u as u32, nb[u]);
        assert(blob_from(nb, u) == e + blob_from(nb, u + 1));
        assert(prefix_len(nb, u + 1) == prefix_len(nb, u) + e.len());
        let start = prefix_len(nb, u);
        assert forall|j: int| 0 <= j < e.len() implies b.subrange(start, start + e.len() as int)[j]
            == e[j] by {
            assert(b.skip(start)[j] == b[start + j]);
            assert(b.subrange(start, start + e.len() as int)[j] == b[start + j]);
            assert((e + blob_from(nb, u + 1))[j] == e[j]);
        }
        assert(b.subrange(start, start + e.len() as int) =~= e);
    }

    /// The neighbours of a vertex, in increasing order; empty if the
    /// vertex is out of range.
    pub fn neighbors(&self, source: u32) -> (r: Vec<u32>)
        requires
            self.wf(),
        ensures
            r@ == self.nbrs_of(source as int),
    {
        let i = source as usize;
        if self.vertices.len() == 0 || i >= self.vertices.len() - 1 {
            let r: Vec<u32> = Vec::new();
            proof {
                assert(r@ =~= self.nbrs_of(source as int));
            }
            return r;
        }
        proof {
            self.lemma_segment(i as int);
        }
        let start = self.vertices[i];
        let end = self.vertices[i + 1];
        let seg = vstd::slice::slice_subrange(self.edges.as_slice(), start, end);
        proof {
            assert(seg@ == enc(source, self.nbr_lists()[i as int]));
            assert(is_encoding(source, seg@));
        }
        let r = crate::decoder::decode_map(source, seg);
        proof {
            lemma_enc_injective(source, r@, self.nbr_lists()[i as int]);
        }
        r
    }

    /// The neighbours of a vertex (alias used by the samplers).
    pub fn adj(&self, source: u32) -> (r: Vec<u32>)
        requires
            self.wf(),
        ensures
            r@ == self.nbrs_of(source as int),
    {
        self.neighbors(source)
    }

    /// The out-degree of a vertex, computed from the run headers without
    /// materialising the list.
    pub fn degree(&self, source: u32) -> (r: usize)
        requires
            self.wf(),
        ensures
            r == self.nbrs_of(source as int).len(),
    {
        let i = source as usize;
        if self.vertices.len() == 0 || i >= self.vertices.len() - 1 {
            return 0;
        }
        proof {
            self.lemma_segment(i as int);
        }
        let start = self.vertices[i];
        let end = self.vertices[i + 1];
        let seg = vstd::slice::slice_subrange(self.edges.as_slice(), start, end);
        proof {
            assert(seg@ == enc(source, self.nbr_lists()[i as int]));
            assert(is_encoding(source, seg@));
        }
        crate::decoder::count(source, seg)
    }

    /// The edges of the graph in CSR order: all arcs of vertex 0, then
    /// of vertex 1, and so on.
    pub fn edges(&self) -> (r: Vec<Edge>)
        requires
            self.wf(),
        ensures
            r@ == edge_seq_from(self.nbr_lists(), 0),
    {
        let ghost nb = self.nbr_lists();
        let mut r: Vec<Edge> = Vec::new();
        let n = self.order();
        let mut u: usize = 0;
        proof {
            assert(r@ + edge_seq_from(nb, 0) =~= edge_seq_from(nb, 0));
        }
        while u < n
            invariant
                self.wf(),
                nb == self.nbr_lists(),
                u <= n == self.order_spec(),
                edge_seq_from(nb, 0) == r@ + edge_seq_from(nb, u as int),
            decreases n - u,
        {
            let row = self.neighbors(u as u32);
            let ghost base = r@;
            let ghost mapped = nb[u as int].map_values(|v: u32| Edge(u as u32, v));
            let mut j: usize = 0;
            while j < row.len()
                invariant
                    j <= row.len(),
                    u < n,
                    row@ == nb[u as int],
                    nb == self.nbr_lists(),
                    mapped == nb[u as int].map_values(|v: u32| Edge(u as u32, v)),
                    r@ == base + mapped.take(j as int),
                decreases row.len() - j,
            {
                r.push(Edge(u as u32, row[j]));
                proof {
                    assert(mapped.take(j + 1) =~= mapped.take(j as int).push(mapped[j as int]));
                    assert(r@ =~= base + mapped.take(j + 1));
                }
                j = j + 1;
            }
            proof {
                assert(mapped.take(row@.len() as int) =~= mapped);
                assert(edge_seq_from(nb, u as int) == mapped + edge_seq_from(nb, u + 1));
                assert(edge_seq_from(nb, 0) =~= (base + mapped) + edge_seq_from(nb, u + 1));
            }
            u = u + 1;
        }
        proof {
            assert(edge_seq_from(nb, n as int).len() == 0);
            assert(r@ =~= edge_seq_from(nb, 0));
        }
        r
    }
}

impl CSR {
    /// A new graph with every arc flipped.
    pub fn reverse(&self) -> (r: CSR)
        requires
            self.wf(),
        ensures
            r.wf(),
            forall|u: u32, v: u32| #[trigger] r.has_edge(u, v) <==> self.has_edge(v, u),
            r.order_spec() == self.order_spec(),
    {
        let es = self.edges();
        let mut buf: Vec<Edge> = Vec::with_capacity(es.len());
        let mut i: usize = 0;
        while i < es.len()
            invariant
                i <= es@.len(),
                buf@.len() == i,
                forall|k: int| 0 <= k < i ==> (#[trigger] buf@[k]) == Edge(es@[k].1, es@[k].0),
            decreases es@.len() - i,
        {
            buf.push(Edge(es[i].1, es[i].0));
            i = i + 1;
        }
        let ghost flipped = buf@;
        let r = Self::from_buffer(&mut buf);
        proof {
            lemma_edge_seq_contains(self.nbr_lists(), 0);
            assert forall|u: u32, v: u32| #[trigger] r.has_edge(u, v) implies self.has_edge(
                v,
                u,
            ) by {
                assert(flipped.contains(Edge(u, v)));
                let k = choose|k: int| 0 <= k < flipped.len() && flipped[k] == Edge(u, v);
                assert(es@[k] == Edge(v, u));
                assert(es@.contains(Edge(v, u)));
            }
            assert forall|u: u32, v: u32| self.has_edge(v, u) implies #[trigger] r.has_edge(
                u,
                v,
            ) by {
                assert(es@.contains(Edge(v, u)));
                let k = choose|k: int| 0 <= k < es@.len() && es@[k] == Edge(v, u);
                assert(flipped[k] == Edge(u, v));
                assert(flipped.contains(Edge(u, v)));
            }
            lemma_flip_same_order(*self, r);
        }
        r
    }

    /// A new graph under the vertex permutation `perm`: each arc
    /// `(u, v)` becomes `(perm[u], perm[v])`.
    pub fn reorder(&self, perm: &Vec<u32>) -> (r: CSR)
        requires
            self.wf(),
            perm@.len() == self.order_spec(),
            forall|i: int| 0 <= i < perm@.len() ==> ((#[trigger] perm@[i]) as int) < perm@.len(),
            forall|i: int, j: int| 0 <= i < j < perm@.len() ==> perm@[i] != perm@[j],
        ensures
            r.wf(),
            forall|a: u32, b: u32|
                #[trigger] r.has_edge(a, b) <==> exists|u: u32, v: u32|
                    #[trigger] self.has_edge(u, v) && perm@[u as int] == a && perm@[v as int] == b,
    {
        let es = self.edges();
        proof {
            lemma_edge_seq_contains(self.nbr_lists(), 0);
            assert forall|k: int| 0 <= k < es@.len() implies ((#[trigger] es@[k]).0 as int)
                < self.order_spec() && (es@[k].1 as int) < self.order_spec() by {
                assert(es@.contains(es@[k]));
                let u = es@[k].0;
                let v = es@[k].1;
                assert(self.nbr_lists()[u as int].contains(v));
                let j = choose|j: int|
                    0 <= j < self.nbr_lists()[u as int].len() && self.nbr_lists()[u as int][j] == v;
                assert(self.nbr_lists()[u as int][j] == v);
            }
        }
        let mut buf: Vec<Edge> = Vec::with_capacity(es.len());
        let mut i: usize = 0;
        while i < es.len()
            invariant
                i <= es@.len(),
                buf@.len() == i,
                perm@.len() == self.order_spec(),
                forall|k: int| 0 <= k < es@.len() ==> ((#[trigger] es@[k]).0 as int)
                    < self.order_spec() && (es@[k].1 as int) < self.order_spec(),
                forall|k: int| 0 <= k < i ==> (#[trigger] buf@[k]) == Edge(
                    perm@[es@[k].0 as int],
                    perm@[es@[k].1 as int],
                ),
            decreases es@.len() - i,
        {
            let e = es[i];
            buf.push(Edge(perm[e.0 as usize], perm[e.1 as usize]));
            i = i + 1;
        }
        let ghost mapped = buf@;
        let r = Self::from_buffer(&mut buf);
        proof {
            lemma_edge_seq_contains(self.nbr_lists(), 0);
            assert forall|a: u32, b: u32| #[trigger] r.has_edge(a, b) implies exists|u: u32, v: u32|
                #[trigger] self.has_edge(u, v) && perm@[u as int] == a && perm@[v as int]
                == b by {
                assert(mapped.contains(Edge(a, b)));
                let k = choose|k: int| 0 <= k < mapped.len() && mapped[k] == Edge(a, b);
                let u = es@[k].0;
                let v = es@[k].1;
                assert(es@.contains(es@[k]));
                assert(es@[k] == Edge(u, v));
                assert(self.has_edge(u, v) && perm@[u as int] == a && perm@[v as int] == b);
            }
            assert forall|a: u32, b: u32, u: u32, v: u32|
                #[trigger] self.has_edge(u, v) && perm@[u as int] == a && perm@[v as int]
                    == b implies #[trigger] r.has_edge(a, b) by {
                assert(es@.contains(Edge(u, v)));
                let k = choose|k: int| 0 <= k < es@.len() && es@[k] == Edge(u, v);
                assert(mapped[k] == Edge(a, b));
                assert(mapped.contains(Edge(a, b)));
            }
        }
        r
    }
}

/// Merges two strictly increasing lists into their sorted set union.
fn merge_union(a: &Vec<u32>, b: &Vec<u32>) -> (r: Vec<u32>)
    requires
        strictly_inc(a@),
        strictly_inc(b@),
    ensures
        strictly_inc(r@),
        forall|x: u32| #[trigger] r@.contains(x) <==> a@.contains(x) || b@.contains(x),
        r@.len() <= a@.len() + b@.len(),
{
    let mut r: Vec<u32> = Vec::new();
    let mut i: usize = 0;
    let mut j: usize = 0;
    while i < a.len() || j < b.len()
        invariant
            i <= a@.len(),
            j <= b@.len(),
            strictly_inc(a@),
            strictly_inc(b@),
            strictly_inc(r@),
            r@.len() <= i + j,
            forall|x: u32|
                #[trigger] r@.contains(x) <==> a@.take(i as int).contains(x) || b@.take(
                    j as int,
                ).contains(x),
            forall|k: int| i <= k < a@.len() ==> (r@.len() > 0 ==> (#[trigger] a@[k]) > r@.last()),
            forall|k: int| j <= k < b@.len() ==> (r@.len() > 0 ==> (#[trigger] b@[k]) > r@.last()),
        decreases a@.len() + b@.len() - i - j,
    {
        let ghost r0 = r@;
        let ghost i0 = i as int;
        let ghost j0 = j as int;
        let take_a = if i < a.len() {
            if j < b.len() {
                a[i] <= b[j]
            } else {
                true
            }
        } else {
            false
        };
        let x: u32;
        if take_a {
            x = a[i];
            i = i + 1;
            if j < b.len() && b[j] == x {
                j = j + 1;
            }
        } else {
            x = b[j];
            j = j + 1;
        }
        proof {
            if r0.len() > 0 {
                assert(x > r0.last());
            }
            assert forall|k: int| 0 <= k < r0.len() implies r0[k] <= r0.last() by {
                if k < r0.len() - 1 {
                    assert(r0[k] < r0[r0.len() - 1]);
                }
            }
        }
        r.push(x);
        proof {
            assert(r@ == r0.push(x));
            assert forall|x2: u32| #[trigger] r@.contains(x2) implies a@.take(i as int).contains(
                x2,
            ) || b@.take(j as int).contains(x2) by {
                let k = choose|k: int| 0 <= k < r@.len() && r@[k] == x2;
                if k < r0.len() {
                    assert(r0[k] == x2);
                    assert(r0.contains(x2));
                    if a@.take(i0).contains(x2) {
                        let m = choose|m: int| 0 <= m < i0 && a@[m] == x2;
                        assert(a@.take(i as int)[m] == x2);
                    } else {
                        let m = choose|m: int| 0 <= m < j0 && b@[m] == x2;
                        assert(b@.take(j as int)[m] == x2);
                    }
                } else {
                    assert(x2 == x);
                    if take_a {
                        assert(a@.take(i as int)[i0] == x);
                    } else {
                        assert(b@.take(j as int)[j0] == x);
                    }
                }
            }
            assert forall|x2: u32|
                a@.take(i as int).contains(x2) || b@.take(j as int).contains(x2) implies #[trigger]
                r@.contains(x2) by {
                if a@.take(i as int).contains(x2) {
                    let m = choose|m: int| 0 <= m < i && a@.take(i as int)[m] == x2;
                    if m < i0 {
                        assert(a@.take(i0)[m] == x2);
                        assert(r0.contains(x2));
                        let k = choose|k: int| 0 <= k < r0.len() && r0[k] == x2;
                        assert(r@[k] == x2);
                    } else {
                        assert(a@[m] == x);
                        assert(r@[r0.len() as int] == x);
                    }
                } else {
                    let m = choose|m: int| 0 <= m < j && b@.take(j as int)[m] == x2;
                    if m < j0 {
                        assert(b@.take(j0)[m] == x2);
                        assert(r0.contains(x2));
                        let k = choose|k: int| 0 <= k < r0.len() && r0[k] == x2;
                        assert(r@[k] == x2);
                    } else {
                        assert(b@[m] == x);
                        assert(r@[r0.len() as int] == x);
                    }
                }
            }
            assert forall|p: int, q: int| 0 <= p < q < r@.len() implies r@[p] < r@[q] by {
                if q < r0.len() {
                    assert(r0[p] < r0[q]);
                } else {
                    assert(r0[p] <= r0.last());
                }
            }
        }
    }
    proof {
        assert(a@.take(a@.len() as int) =~= a@);
        assert(b@.take(b@.len() as int) =~= b@);
    }
    r
}

/// Two well-formed graphs whose arcs are mutual flips have equal order.
proof fn lemma_flip_same_order(g: CSR, h: CSR)
    requires
        g.wf(),
        h.wf(),
        forall|u: u32, v: u32| #[trigger] h.has_edge(u, v) <==> g.has_edge(v, u),
    ensures
        g.order_spec() == h.order_spec(),
{
    if g.order_spec() > 0 {
        let (u, v) = choose|u: u32, v: u32|
            #[trigger] g.has_edge(u, v) && (u as int == g.order_spec() - 1 || v as int
                == g.order_spec() - 1);
        assert(h.has_edge(v, u));
        assert((v as int) < h.order_spec() && (u as int) < h.order_spec()) by {
            let j = choose|j: int| 0 <= j < h.nbrs_of(v as int).len() && h.nbrs_of(v as int)[j] == u;
            assert(h.nbr_lists()[v as int][j] == u);
        }
        assert(g.order_spec() <= h.order_spec());
    }
    if h.order_spec() > 0 {
        let (u, v) = choose|u: u32, v: u32|
            #[trigger] h.has_edge(u, v) && (u as int == h.order_spec() - 1 || v as int
                == h.order_spec() - 1);
        assert(g.has_edge(v, u));
        assert((v as int) < g.order_spec() && (u as int) < g.order_spec()) by {
            let j = choose|j: int| 0 <= j < g.nbrs_of(v as int).len() && g.nbrs_of(v as int)[j] == u;
            assert(g.nbr_lists()[v as int][j] == u);
        }
        assert(h.order_spec() <= g.order_spec());
    }
}

/// *Reverse involution.*  Reversing twice restores the graph: the model
/// lists, order, offsets, blob and edge count all return to those of the
/// original.
pub proof fn lemma_reverse_involution(g: CSR, h: CSR, k: CSR)
    requires
        g.wf(),
        h.wf(),
        k.wf(),
        forall|u: u32, v: u32| #[trigger] h.has_edge(u, v) <==> g.has_edge(v, u),
        forall|u: u32, v: u32| #[trigger] k.has_edge(u, v) <==> h.has_edge(v, u),
    ensures
        k.nbr_lists() == g.nbr_lists(),
        k.order_spec() == g.order_spec(),
        k.offsets_view() == g.offsets_view(),
        k.blob_view() == g.blob_view(),
        k.size_spec() == g.size_spec(),
{
    assert forall|u: u32, v: u32| #[trigger] k.has_edge(u, v) <==> #[trigger] g.has_edge(
        u,
        v,
    ) by {
        assert(k.has_edge(u, v) <==> h.has_edge(v, u));
    }
    lemma_same_edges_same_model(k, g);
}

impl CSR {
    /// The union graph: each vertex's neighbour list is the sorted set
    /// union of the two operands' lists.
    pub fn union(&self, other: &CSR) -> (r: CSR)
        requires
            self.wf(),
            other.wf(),
        ensures
            r.wf(),
            forall|u: u32, v: u32|
                #[trigger] r.has_edge(u, v) <==> self.has_edge(u, v) || other.has_edge(u, v),
            r.order_spec() == (if self.order_spec() >= other.order_spec() {
                self.order_spec()
            } else {
                other.order_spec()
            }),
    {
        let n1 = self.order();
        let n2 = other.order();
        let n = if n1 >= n2 {
            n1
        } else {
            n2
        };
        if n == 0 {
            let r = CSR {
                vertices: Vec::new(),
                num_edges: 0,
                edges: Vec::new(),
                nbrs: Ghost(Seq::empty()),
            };
            proof {
                assert(r.offsets_view() =~= Seq::<usize>::empty());
                assert(r.blob_view() =~= Seq::<u8>::empty());
            }
            return r;
        }
        let mut vertices: Vec<usize> = Vec::with_capacity(n.saturating_add(1));
        vertices.push(0);
        let mut blob: Vec<u8> = Vec::new();
        let mut count: usize = 0;
        let ghost mut nb: Seq<Seq<u32>> = Seq::empty();
        let mut u: usize = 0;
        while u < n
            invariant
                self.wf(),
                other.wf(),
                n == (if self.order_spec() >= other.order_spec() {
                    self.order_spec()
                } else {
                    other.order_spec()
                }),
                n <= 0x1_0000_0000,
                u <= n,
                nb.len() == u,
                vertices@.len() == u + 1,
                forall|i: int| 0 <= i <= u ==> (#[trigger] vertices@[i]) == prefix_len(nb, i),
                blob@ == blob_from(nb, 0),
                count == count_from(nb, 0),
                count <= blob@.len(),
                forall|w: int| 0 <= w < u ==> strictly_inc(#[trigger] nb[w]),
                forall|w: int, x: u32|
                    0 <= w < u ==> ((#[trigger] nb[w].contains(x)) <==> self.nbrs_of(w).contains(x)
                        || other.nbrs_of(w).contains(x)),
            decreases n - u,
        {
            let la = self.adj(u as u32);
            let lb = other.adj(u as u32);
            let merged = merge_union(&la, &lb);
            let ghost prior = blob@;
            crate::encoder::encode(&mut blob, u as u32, &merged);
            let after = blob.len();
            proof {
                crate::codec::lemma_enc_len_ge(u as u32, merged@);
                lemma_prefix_blob(nb, u as int);
                assert(blob_from(nb, u as int) =~= Seq::<u8>::empty());
                assert(prior.len() == prefix_len(nb, u as int));
                assert(count + merged@.len() <= after);
            }
            count = count + merged.len();
            vertices.push(after);
            proof {
                lemma_blob_from_push(nb, merged@, 0);
                assert forall|i: int| 0 <= i <= u + 1 implies (#[trigger] vertices@[i])
                    == prefix_len(nb.push(merged@), i) by {
                    if i <= u {
                        crate::builder::lemma_prefix_len_push(nb, merged@, i);
                    } else {
                        crate::builder::lemma_prefix_len_push(nb, merged@, i - 1);
                        assert(prefix_len(nb.push(merged@), i) == prefix_len(nb.push(merged@), i - 1)
                            + enc(u as u32, nb.push(merged@)[u as int]).len());
                        assert(nb.push(merged@)[u as int] == merged@);
                    }
                }
                nb = nb.push(merged@);
            }
            u = u + 1;
        }
        let r = CSR { vertices, num_edges: count, edges: blob, nbrs: Ghost(nb) };
        proof {
            assert forall|u2: u32, v: u32| #[trigger] r.has_edge(u2, v) implies self.has_edge(
                u2,
                v,
            ) || other.has_edge(u2, v) by {}
            assert forall|u2: u32, v: u32|
                self.has_edge(u2, v) || other.has_edge(u2, v) implies #[trigger] r.has_edge(
                u2,
                v,
            ) by {
                assert((u2 as int) < n);
            }
            assert forall|w: int, j: int|
                0 <= w < r.order_spec() && 0 <= j < r.nbr_lists()[w].len() implies ((
            #[trigger] r.nbr_lists()[w][j]) as int) < r.order_spec() by {
                let x = nb[w][j];
                assert(nb[w].contains(x));
                if self.nbrs_of(w).contains(x) {
                    let jj = choose|jj: int|
                        0 <= jj < self.nbrs_of(w).len() && self.nbrs_of(w)[jj] == x;
                    assert(self.nbr_lists()[w][jj] == x);
                } else {
                    let jj = choose|jj: int|
                        0 <= jj < other.nbrs_of(w).len() && other.nbrs_of(w)[jj] == x;
                    assert(other.nbr_lists()[w][jj] == x);
                }
            }
            let big = if self.order_spec() >= other.order_spec() {
                *self
            } else {
                *other
            };
            assert(big.order_spec() == n);
            let (bu, bv) = choose|bu: u32, bv: u32|
                #[trigger] big.has_edge(bu, bv) && (bu as int == big.order_spec() - 1 || bv as int
                    == big.order_spec() - 1);
            assert(r.has_edge(bu, bv)) by {
                assert(self.has_edge(bu, bv) || other.has_edge(bu, bv));
            }
        }
        r
    }
}

/// *Union idempotence.*  The union of a graph with itself has the same
/// model lists, order, offsets, blob and edge count as the graph.
pub proof fn lemma_union_idempotent(g: CSR, r: CSR)
    requires
        g.wf(),
        r.wf(),
        forall|u: u32, v: u32| #[trigger] r.has_edge(u, v) <==> g.has_edge(u, v) || g.has_edge(u, v),
    ensures
        r.nbr_lists() == g.nbr_lists(),
        r.order_spec() == g.order_spec(),
        r.offsets_view() == g.offsets_view(),
        r.blob_view() == g.blob_view(),
        r.size_spec() == g.size_spec(),
{
    assert forall|u: u32, v: u32| #[trigger] r.has_edge(u, v) <==> #[trigger] g.has_edge(
        u,
        v,
    ) by {}
    lemma_same_edges_same_model(r, g);
}

/// *Reorder permutation.*  In the reordered graph, the neighbour list of
/// `perm[u]` is the strictly increasing enumeration of the images under
/// `perm` of `u`'s neighbours.
pub proof fn lemma_reorder_adj(g: CSR, r: CSR, perm: Seq<u32>, u: u32)
    requires
        g.wf(),
        r.wf(),
        perm.len() == g.order_spec(),
        forall|i: int| 0 <= i < perm.len() ==> ((#[trigger] perm[i]) as int) < perm.len(),
        forall|i: int, j: int| 0 <= i < j < perm.len() ==> perm[i] != perm[j],
        forall|a: u32, b: u32|
            #[trigger] r.has_edge(a, b) <==> exists|u2: u32, v2: u32|
                #[trigger] g.has_edge(u2, v2) && perm[u2 as int] == a && perm[v2 as int] == b,
        (u as int) < g.order_spec(),
    ensures
        strictly_inc(r.nbrs_of(perm[u as int] as int)),
        forall|w: u32|
            #[trigger] r.nbrs_of(perm[u as int] as int).contains(w) <==> exists|v: u32|
                #[trigger] g.has_edge(u, v) && perm[v as int] == w,
{
    let a = perm[u as int];
    assert forall|w: u32| #[trigger] r.nbrs_of(a as int).contains(w) implies exists|v: u32|
        #[trigger] g.has_edge(u, v) && perm[v as int] == w by {
        assert(r.has_edge(a, w));
        let (u2, v2) = choose|u2: u32, v2: u32|
            #[trigger] g.has_edge(u2, v2) && perm[u2 as int] == a && perm[v2 as int] == w;
        assert((u2 as int) < g.order_spec()) by {
            if !(0 <= u2 as int && (u2 as int) < g.order_spec()) {
                assert(g.nbrs_of(u2 as int) == Seq::<u32>::empty());
            }
        }
        assert(u2 == u) by {
            if u2 != u {
                assert(perm[u2 as int] != perm[u as int]);
            }
        }
        assert(g.has_edge(u, v2) && perm[v2 as int] == w);
    }
    assert forall|w: u32|
        (exists|v: u32| #[trigger] g.has_edge(u, v) && perm[v as int] == w) implies #[trigger]
        r.nbrs_of(a as int).contains(w) by {
        let v = choose|v: u32| #[trigger] g.has_edge(u, v) && perm[v as int] == w;
        assert(g.has_edge(u, v) && perm[u as int] == a && perm[v as int] == w);
        assert(r.has_edge(a, w));
    }
    if 0 <= a as int && (a as int) < r.order_spec() {
        assert(strictly_inc(r.nbr_lists()[a as int]));
    }
}

/// Index of the first non-`Ok` entry of an ingestion buffer.
pub open spec fn first_err<E>(s: Seq<Result<Edge, E>>) -> int
    decreases s.len(),
{
    if s.len() == 0 {
        0
    } else if !(s[0] is Ok) {
        0
    } else {
        1 + first_err(s.drop_first())
    }
}

/// The edges of an all-`Ok` ingestion buffer.
pub open spec fn ok_edges<E>(s: Seq<Result<Edge, E>>) -> Seq<Edge> {
    s.map_values(|x: Result<Edge, E>| x->Ok_0)
}

proof fn lemma_first_err<E>(s: Seq<Result<Edge, E>>, k: int)
    requires
        0 <= k < s.len(),
        !(s[k] is Ok),
        forall|t: int| 0 <= t < k ==> (#[trigger] s[t]) is Ok,
    ensures
        first_err(s) == k,
    decreases k,
{
    if k > 0 {
        assert forall|t: int| 0 <= t < k - 1 implies (#[trigger] s.drop_first()[t]) is Ok by {
            assert(s[t + 1] is Ok);
        }
        assert(s.drop_first()[k - 1] == s[k]);
        lemma_first_err(s.drop_first(), k - 1);
    }
}

/// Offsets are monotone along a sorted index-pointer array.
proof fn lemma_ptr_mono(p: Seq<u64>, i: int, j: int)
    requires
        forall|t: int| 0 <= t && t + 1 < p.len() ==> (#[trigger] p[t]) <= p[t + 1],
        0 <= i <= j < p.len(),
    ensures
        p[i] <= p[j],
    decreases j - i,
{
    if i < j {
        lemma_ptr_mono(p, i, j - 1);
        assert(p[j - 1] <= p[j]);
    }
}

impl CSR {
    /// Builds a graph from fallible edges, short-circuiting on the first
    /// error, with a preallocated buffer.
    pub fn try_from_edges_with_capacity<E>(capacity: usize, edges: Vec<Result<Edge, E>>) -> (r:
        Result<CSR, E>)
        ensures
            (forall|i: int| 0 <= i < edges@.len() ==> (#[trigger] edges@[i]) is Ok) ==> (r matches
                Ok(g) && g.wf() && g.from_edges_rel(ok_edges(edges@))),
            (exists|i: int| 0 <= i < edges@.len() && !((#[trigger] edges@[i]) is Ok)) ==> (r matches
                Err(e) && 0 <= first_err(edges@) < edges@.len() && !(edges@[first_err(edges@)]
                is Ok) && e == edges@[first_err(edges@)]->Err_0),
    {
        let ghost orig = edges@;
        let mut rest = edges;
        let mut buf: Vec<Edge> = Vec::with_capacity(capacity);
        proof {
            assert(rest@ =~= orig.skip(0));
            assert(buf@ =~= ok_edges(orig.take(0)));
        }
        while rest.len() > 0
            invariant
                orig == edges@,
                rest@.len() <= orig.len(),
                rest@ == orig.skip(orig.len() - rest@.len()),
                forall|t: int| 0 <= t < orig.len() - rest@.len() ==> (#[trigger] orig[t]) is Ok,
                buf@ == ok_edges(orig.take(orig.len() - rest@.len())),
            decreases rest@.len(),
        {
            let ghost done = orig.len() - rest@.len();
            let x = rest.remove(0);
            proof {
                assert(x == orig.skip(done)[0]);
                assert(orig.skip(done)[0] == orig[done]);
                assert(rest@ =~= orig.skip(done + 1));
            }
            match x {
                Ok(e) => {
                    buf.push(e);
                    proof {
                        assert(orig.take(done + 1).drop_last() =~= orig.take(done));
                        assert(ok_edges(orig.take(done + 1)) =~= ok_edges(orig.take(done)).push(e));
                    }
                },
                Err(err) => {
                    proof {
                        lemma_first_err(orig, done);
                    }
                    return Err(err);
                },
            }
        }
        proof {
            assert(orig.take(orig.len() as int) =~= orig);
        }
        let g = Self::from_buffer(&mut buf);
        Ok(g)
    }

    /// Builds a graph from fallible edges, short-circuiting on the first
    /// error.
    pub fn try_from_edges<E>(edges: Vec<Result<Edge, E>>) -> (r: Result<CSR, E>)
        ensures
            (forall|i: int| 0 <= i < edges@.len() ==> (#[trigger] edges@[i]) is Ok) ==> (r matches
                Ok(g) && g.wf() && g.from_edges_rel(ok_edges(edges@))),
            (exists|i: int| 0 <= i < edges@.len() && !((#[trigger] edges@[i]) is Ok)) ==> (r matches
                Err(e) && 0 <= first_err(edges@) < edges@.len() && !(edges@[first_err(edges@)]
                is Ok) && e == edges@[first_err(edges@)]->Err_0),
    {
        Self::try_from_edges_with_capacity(0, edges)
    }

    /// Builds a graph from index-pointer and index arrays.
    ///
    /// Rejects more vertices than `u32` can index, offsets beyond
    /// `usize`, and indices beyond `u32`; otherwise the arcs are exactly
    /// the per-row indices.
    pub fn try_from_csr(indptr: &Vec<u64>, indices: &Vec<u64>) -> (r: Result<CSR, crate::error::Error>)
        requires
            forall|t: int|
                0 <= t && t + 1 < indptr@.len() ==> (#[trigger] indptr@[t]) <= indptr@[t + 1],
            indptr@.len() > 0 ==> ((indptr@[indptr@.len() - 1] as int) > usize::MAX || (indptr@[
                indptr@.len() - 1] as int) <= indices@.len()),
        ensures
            ((r matches Err(e) && e == crate::error::Error::TooManyVertices) <==> indptr@.len() - 1
                > 0xFFFF_FFFF),
            ((r matches Err(e) && e == crate::error::Error::IndexPtrOverflow) <==> (indptr@.len()
                - 1 <= 0xFFFF_FFFF && exists|i: int|
                0 <= i < indptr@.len() && ((#[trigger] indptr@[i]) as int) > usize::MAX)),
            ((r matches Err(e) && e == crate::error::Error::IndexOverflow) <==> (indptr@.len() - 1
                <= 0xFFFF_FFFF && (forall|i: int|
                0 <= i < indptr@.len() ==> ((#[trigger] indptr@[i]) as int) <= usize::MAX) && exists|
                j: int,
            | 0 <= j < indices@.len() && (#[trigger] indices@[j]) > 0xFFFF_FFFF)),
            (r is Ok) ==> (r->Ok_0).wf() && (forall|u: u32, v: u32|
                #[trigger] (r->Ok_0).has_edge(u, v) <==> exists|jj: int|
                    (u as int) + 1 < indptr@.len() && (indptr@[u as int] as int) <= jj && jj < (
                    indptr@[u as int + 1] as int) && 0 <= jj < indices@.len() && (
                    #[trigger] indices@[jj]) == v as u64),
            (r is Ok) <==> !(indptr@.len() - 1 > 0xFFFF_FFFF) && (forall|i: int|
                0 <= i < indptr@.len() ==> ((#[trigger] indptr@[i]) as int) <= usize::MAX) && (
            forall|j: int| 0 <= j < indices@.len() ==> (#[trigger] indices@[j]) <= 0xFFFF_FFFF),
    {
        let n_ptr = indptr.len();
        let range = if n_ptr == 0 {
            0
        } else {
            n_ptr - 1
        };
        if (range as u64) > 0xFFFF_FFFFu64 {
            return Err(crate::error::Error::TooManyVertices);
        }
        let mut i: usize = 0;
        while i < n_ptr
            invariant
                i <= n_ptr == indptr@.len(),
                indptr@.len() - 1 <= 0xFFFF_FFFF,
                forall|t: int| 0 <= t < i ==> ((#[trigger] indptr@[t]) as int) <= usize::MAX,
            decreases n_ptr - i,
        {
            if indptr[i] > (usize::MAX as u64) {
                return Err(crate::error::Error::IndexPtrOverflow);
            }
            i = i + 1;
        }
        let mut j: usize = 0;
        while j < indices.len()
            invariant
                j <= indices@.len(),
                indptr@.len() - 1 <= 0xFFFF_FFFF,
                forall|t: int| 0 <= t < indptr@.len() ==> ((#[trigger] indptr@[t]) as int)
                    <= usize::MAX,
                forall|t: int| 0 <= t < j ==> (#[trigger] indices@[t]) <= 0xFFFF_FFFF,
            decreases indices@.len() - j,
        {
            if indices[j] > 0xFFFF_FFFFu64 {
                return Err(crate::error::Error::IndexOverflow);
            }
            j = j + 1;
        }
        let mut buf: Vec<Edge> = Vec::with_capacity(indices.len());
        let mut row: usize = 0;
        while row < range
            invariant
                row <= range,
                range <= 0xFFFF_FFFF,
                n_ptr == indptr@.len(),
                range == (if n_ptr == 0 { 0int } else { n_ptr - 1 }),
                forall|t: int|
                    0 <= t && t + 1 < indptr@.len() ==> (#[trigger] indptr@[t]) <= indptr@[t + 1],
                forall|t: int| 0 <= t < indptr@.len() ==> ((#[trigger] indptr@[t]) as int)
                    <= usize::MAX,
                forall|t: int| 0 <= t < indices@.len() ==> (#[trigger] indices@[t]) <= 0xFFFF_FFFF,
                n_ptr > 0 ==> (indptr@[n_ptr - 1] as int) <= indices@.len(),
                forall|a: u32, b: u32|
                    #[trigger] buf@.contains(Edge(a, b)) <==> exists|jj: int|
                        (a as int) < row && (indptr@[a as int] as int) <= jj && jj < (indptr@[
                        a as int + 1] as int) && 0 <= jj < indices@.len() && (#[trigger] indices@[
                        jj]) == b as u64,
            decreases range - row,
        {
            let start = indptr[row] as usize;
            let end = indptr[row + 1] as usize;
            proof {
                lemma_ptr_mono(indptr@, row as int, row + 1);
                lemma_ptr_mono(indptr@, row + 1, n_ptr - 1);
            }
            let mut jj = start;
            while jj < end
                invariant
                    start <= jj <= end,
                    row < range,
                    range <= 0xFFFF_FFFF,
                    n_ptr == indptr@.len(),
                    range == (if n_ptr == 0 { 0int } else { n_ptr - 1 }),
                    start == indptr@[row as int],
                    end == indptr@[row + 1],
                    end <= indices@.len(),
                    forall|t: int|
                        0 <= t && t + 1 < indptr@.len() ==> (#[trigger] indptr@[t]) <= indptr@[t
                            + 1],
                    forall|t: int| 0 <= t < indices@.len() ==> (#[trigger] indices@[t])
                        <= 0xFFFF_FFFF,
                    forall|a: u32, b: u32|
                        #[trigger] buf@.contains(Edge(a, b)) <==> (exists|t: int|
                            (a as int) < row && (indptr@[a as int] as int) <= t && t < (indptr@[
                            a as int + 1] as int) && 0 <= t < indices@.len() && (
                            #[trigger] indices@[t]) == b as u64) || ((a as int) == row && exists|
                            t: int,
                        |
                            (start as int) <= t && t < jj && 0 <= t < indices@.len() && (
                            #[trigger] indices@[t]) == b as u64),
                decreases end - jj,
            {
                let ghost pre = buf@;
                let v = indices[jj] as u32;
                buf.push(Edge(row as u32, v));
                proof {
                    assert(indices@[jj as int] == v as u64);
                    assert forall|a: u32, b: u32| #[trigger] buf@.contains(Edge(a, b)) implies
                        pre.contains(Edge(a, b)) || Edge(a, b) == Edge(row as u32, v) by {
                        let t = choose|t: int| 0 <= t < buf@.len() && buf@[t] == Edge(a, b);
                        if t < pre.len() {
                            assert(pre[t] == Edge(a, b));
                        }
                    }
                    assert forall|a: u32, b: u32|
                        pre.contains(Edge(a, b)) || Edge(a, b) == Edge(row as u32, v) implies
                        #[trigger] buf@.contains(Edge(a, b)) by {
                        if pre.contains(Edge(a, b)) {
                            let t = choose|t: int| 0 <= t < pre.len() && pre[t] == Edge(a, b);
                            assert(buf@[t] == Edge(a, b));
                        } else {
                            assert(buf@[pre.len() as int] == Edge(a, b));
                        }
                    }
                }
                jj = jj + 1;
            }
            row = row + 1;
        }
        let ghost pre_build = buf@;
        let g = Self::from_buffer(&mut buf);
        proof {
            assert forall|a: u32, b: u32| #[trigger] g.has_edge(a, b) implies exists|t: int|
                (a as int) + 1 < indptr@.len() && (indptr@[a as int] as int) <= t && t < (indptr@[
                a as int + 1] as int) && 0 <= t < indices@.len() && (#[trigger] indices@[t])
                == b as u64 by {
                assert(pre_build.contains(Edge(a, b)));
            }
            assert forall|a: u32, b: u32|
                (exists|t: int|
                    (a as int) + 1 < indptr@.len() && (indptr@[a as int] as int) <= t && t < (
                    indptr@[a as int + 1] as int) && 0 <= t < indices@.len() && (
                    #[trigger] indices@[t]) == b as u64) implies #[trigger] g.has_edge(a, b) by {
                assert(pre_build.contains(Edge(a, b)));
            }
        }
        Ok(g)
    }

    /// Builds a graph from two parallel endpoint arrays, pairing
    /// `src[i]` with `dst[i]` up to the shorter length.
    pub fn try_from_edge_index(src: &Vec<u64>, dst: &Vec<u64>) -> (r: Result<
        CSR,
        crate::error::Error,
    >)
        ensures
            ((r matches Err(e) && e == crate::error::Error::TooManyVertices) <==> (src@.len()
                > 0xFFFF_FFFF || dst@.len() > 0xFFFF_FFFF)),
            ((r matches Err(e) && e == crate::error::Error::IndexOverflow) <==> (src@.len()
                <= 0xFFFF_FFFF && dst@.len() <= 0xFFFF_FFFF && exists|i: int|
                0 <= i < src@.len() && 0 <= i < dst@.len() && ((#[trigger] src@[i]) > 0xFFFF_FFFF
                    || dst@[i] > 0xFFFF_FFFF))),
            (r is Ok) ==> (r->Ok_0).wf() && (forall|u: u32, v: u32|
                #[trigger] (r->Ok_0).has_edge(u, v) <==> exists|i: int|
                    0 <= i < src@.len() && 0 <= i < dst@.len() && (#[trigger] src@[i]) == u as u64
                        && dst@[i] == v as u64),
            (r is Ok) <==> (src@.len() <= 0xFFFF_FFFF && dst@.len() <= 0xFFFF_FFFF && forall|
                i: int,
            |
                0 <= i < src@.len() && 0 <= i < dst@.len() ==> ((#[trigger] src@[i]) <= 0xFFFF_FFFF
                    && dst@[i] <= 0xFFFF_FFFF)),
    {
        if (src.len() as u64) > 0xFFFF_FFFFu64 || (dst.len() as u64) > 0xFFFF_FFFFu64 {
            return Err(crate::error::Error::TooManyVertices);
        }
        let m = if src.len() <= dst.len() {
            src.len()
        } else {
            dst.len()
        };
        let mut i: usize = 0;
        while i < m
            invariant
                i <= m,
                src@.len() <= 0xFFFF_FFFF,
                dst@.len() <= 0xFFFF_FFFF,
                m == (if src@.len() <= dst@.len() { src@.len() } else { dst@.len() }),
                forall|t: int| 0 <= t < i ==> ((#[trigger] src@[t]) <= 0xFFFF_FFFF && dst@[t]
                    <= 0xFFFF_FFFF),
            decreases m - i,
        {
            if src[i] > 0xFFFF_FFFFu64 || dst[i] > 0xFFFF_FFFFu64 {
                return Err(crate::error::Error::IndexOverflow);
            }
            i = i + 1;
        }
        let mut buf: Vec<Edge> = Vec::with_capacity(m);
        let mut k: usize = 0;
        while k < m
            invariant
                k <= m,
                m == (if src@.len() <= dst@.len() { src@.len() } else { dst@.len() }),
                forall|t: int| 0 <= t < m ==> ((#[trigger] src@[t]) <= 0xFFFF_FFFF && dst@[t]
                    <= 0xFFFF_FFFF),
                buf@.len() == k,
                forall|t: int| 0 <= t < k ==> (#[trigger] buf@[t]) == Edge(
                    (src@[t] as u32),
                    (dst@[t] as u32),
                ),
            decreases m - k,
        {
            buf.push(Edge(src[k] as u32, dst[k] as u32));
            k = k + 1;
        }
        let ghost pre_build = buf@;
        let g = Self::from_buffer(&mut buf);
        proof {
            assert forall|u: u32, v: u32| #[trigger] g.has_edge(u, v) implies exists|t: int|
                0 <= t < src@.len() && 0 <= t < dst@.len() && (#[trigger] src@[t]) == u as u64
                    && dst@[t] == v as u64 by {
                assert(pre_build.contains(Edge(u, v)));
                let t = choose|t: int| 0 <= t < pre_build.len() && pre_build[t] == Edge(u, v);
                assert(pre_build[t] == Edge((src@[t] as u32), (dst@[t] as u32)));
                assert(src@[t] == u as u64 && dst@[t] == v as u64);
            }
            assert forall|u: u32, v: u32|
                (exists|t: int|
                    0 <= t < src@.len() && 0 <= t < dst@.len() && (#[trigger] src@[t]) == u as u64
                        && dst@[t] == v as u64) implies #[trigger] g.has_edge(u, v) by {
                let t = choose|t: int|
                    0 <= t < src@.len() && 0 <= t < dst@.len() && (#[trigger] src@[t]) == u as u64
                        && dst@[t] == v as u64;
                assert(pre_build[t] == Edge((src@[t] as u32), (dst@[t] as u32)));
                assert(pre_build[t] == Edge(u, v));
                assert(pre_build.contains(Edge(u, v)));
            }
        }
        Ok(g)
    }
}

/// *Builder determinism.*  Graphs built from edge buffers with the same
/// multiset of edges are identical: same model lists, order, offsets,
/// blob and edge count, whatever the input order.
pub proof fn lemma_builder_deterministic(g: CSR, h: CSR, s1: Seq<Edge>, s2: Seq<Edge>)
    requires
        g.wf(),
        h.wf(),
        g.from_edges_rel(s1),
        h.from_edges_rel(s2),
        s1.to_multiset() == s2.to_multiset(),
    ensures
        g.nbr_lists() == h.nbr_lists(),
        g.order_spec() == h.order_spec(),
        g.offsets_view() == h.offsets_view(),
        g.blob_view() == h.blob_view(),
        g.size_spec() == h.size_spec(),
{
    assert forall|u: u32, v: u32| #[trigger] g.has_edge(u, v) <==> #[trigger] h.has_edge(
        u,
        v,
    ) by {
        broadcast use vstd::seq_lib::group_to_multiset_ensures;

        assert(s1.contains(Edge(u, v)) <==> s1.to_multiset().count(Edge(u, v)) > 0);
        assert(s2.contains(Edge(u, v)) <==> s2.to_multiset().count(Edge(u, v)) > 0);
    }
    lemma_same_edges_same_model(g, h);
}

/// The arcs of vertices `u` and up, in CSR order.
pub open spec fn edge_seq_from(nb: Seq<Seq<u32>>, u: int) -> Seq<Edge>
    decreases nb.len() - u,
{
    if u < 0 || u >= nb.len() {
        Seq::<Edge>::empty()
    } else {
        nb[u].map_values(|v: u32| Edge(u as u32, v)) + edge_seq_from(nb, u + 1)
    }
}

/// Membership in the flattened edge sequence is adjacency.
pub proof fn lemma_edge_seq_contains(nb: Seq<Seq<u32>>, k: int)
    requires
        0 <= k <= nb.len(),
        nb.len() <= 0x1_0000_0000,
    ensures
        forall|e: Edge|
            #[trigger] edge_seq_from(nb, k).contains(e) <==> (k <= e.0 as int && (e.0 as int)
                < nb.len() && nb[e.0 as int].contains(e.1)),
    decreases nb.len() - k,
{
    if k < nb.len() {
        lemma_edge_seq_contains(nb, k + 1);
        let mapped = nb[k].map_values(|v: u32| Edge(k as u32, v));
        let whole = mapped + edge_seq_from(nb, k + 1);
        assert forall|e: Edge| #[trigger] whole.contains(e) implies (k <= e.0 as int && (
        e.0 as int) < nb.len() && nb[e.0 as int].contains(e.1)) by {
            let idx = choose|idx: int| 0 <= idx < whole.len() && whole[idx] == e;
            if idx < mapped.len() {
                assert(mapped[idx] == Edge(k as u32, nb[k][idx]));
                assert(nb[k].contains(nb[k][idx]));
            } else {
                assert(edge_seq_from(nb, k + 1)[idx - mapped.len()] == e);
                assert(edge_seq_from(nb, k + 1).contains(e));
            }
        }
        assert forall|e: Edge| (k <= e.0 as int && (e.0 as int) < nb.len() && nb[e.0 as int]
            .contains(e.1)) implies #[trigger] whole.contains(e) by {
            if e.0 as int == k {
                let j = choose|j: int| 0 <= j < nb[k].len() && nb[k][j] == e.1;
                assert(mapped[j] == Edge(k as u32, e.1));
                assert(Edge(k as u32, e.1) == e);
                assert(whole[j] == e);
            } else {
                assert(edge_seq_from(nb, k + 1).contains(e));
                let idx = choose|idx: int|
                    0 <= idx < edge_seq_from(nb, k + 1).len() && #[trigger] edge_seq_from(
                        nb,
                        k + 1,
                    )[idx] == e;
                assert(whole[mapped.len() + idx] == e);
            }
        }
    }
}

/// Two strictly increasing lists with the same members are equal.
pub proof fn lemma_strictly_inc_unique(a: Seq<u32>, b: Seq<u32>)
    requires
        strictly_inc(a),
        strictly_inc(b),
        forall|x: u32| a.contains(x) <==> b.contains(x),
    ensures
        a == b,
    decreases a.len(),
{
    if a.len() == 0 {
        if b.len() > 0 {
            assert(b.contains(b[0]));
        }
        assert(a =~= b);
    } else {
        assert(a.contains(a[0]));
        assert(b.contains(a[0]));
        assert(b.len() > 0);
        assert(b.contains(b[0]));
        assert(a.contains(b[0]));
        let ka = choose|ka: int| 0 <= ka < a.len() && a[ka] == b[0];
        let kb = choose|kb: int| 0 <= kb < b.len() && b[kb] == a[0];
        assert(a[0] <= a[ka] && b[0] <= b[kb]) by {
            if ka > 0 {
                assert(a[0] < a[ka]);
            }
            if kb > 0 {
                assert(b[0] < b[kb]);
            }
        }
        assert(a[0] == b[0]);
        let ta = a.drop_first();
        let tb = b.drop_first();
        assert forall|x: u32| ta.contains(x) implies tb.contains(x) by {
            let j = choose|j: int| 0 <= j < ta.len() && ta[j] == x;
            assert(a[j + 1] == x);
            assert(a.contains(x));
            assert(b.contains(x));
            let m = choose|m: int| 0 <= m < b.len() && b[m] == x;
            assert(a[0] < a[j + 1]);
            assert(m != 0);
            assert(tb[m - 1] == x);
        }
        assert forall|x: u32| tb.contains(x) implies ta.contains(x) by {
            let j = choose|j: int| 0 <= j < tb.len() && tb[j] == x;
            assert(b[j + 1] == x);
            assert(b.contains(x));
            assert(a.contains(x));
            let m = choose|m: int| 0 <= m < a.len() && a[m] == x;
            assert(b[0] < b[j + 1]);
            assert(m != 0);
            assert(ta[m - 1] == x);
        }
        assert forall|i: int, j: int| 0 <= i < j < ta.len() implies ta[i] < ta[j] by {
            assert(a[i + 1] < a[j + 1]);
        }
        assert forall|i: int, j: int| 0 <= i < j < tb.len() implies tb[i] < tb[j] by {
            assert(b[i + 1] < b[j + 1]);
        }
        lemma_strictly_inc_unique(ta, tb);
        assert(a =~= b) by {
            assert forall|i: int| 0 <= i < a.len() implies a[i] == b[i] by {
                if i > 0 {
                    assert(ta[i - 1] == tb[i - 1]);
                }
            }
        }
    }
}

/// *Builder determinism, in model form.*  Two well-formed graphs with
/// the same arcs have the same model, offsets, blob and edge count.
pub proof fn lemma_same_edges_same_model(g: CSR, h: CSR)
    requires
        g.wf(),
        h.wf(),
        forall|u: u32, v: u32| #[trigger] g.has_edge(u, v) <==> #[trigger] h.has_edge(u, v),
    ensures
        g.nbr_lists() == h.nbr_lists(),
        g.order_spec() == h.order_spec(),
        g.offsets_view() == h.offsets_view(),
        g.blob_view() == h.blob_view(),
        g.size_spec() == h.size_spec(),
{
    if g.order_spec() > 0 {
        let (u, v) = choose|u: u32, v: u32|
            #[trigger] g.has_edge(u, v) && (u as int == g.order_spec() - 1 || v as int
                == g.order_spec() - 1);
        assert(h.has_edge(u, v));
        assert((u as int) < h.order_spec() && (v as int) < h.order_spec()) by {
            let j = choose|j: int| 0 <= j < h.nbrs_of(u as int).len() && h.nbrs_of(u as int)[j] == v;
            assert(h.nbr_lists()[u as int][j] == v);
        }
        assert(g.order_spec() <= h.order_spec());
    }
    if h.order_spec() > 0 {
        let (u, v) = choose|u: u32, v: u32|
            #[trigger] h.has_edge(u, v) && (u as int == h.order_spec() - 1 || v as int
                == h.order_spec() - 1);
        assert(g.has_edge(u, v));
        assert((u as int) < g.order_spec() && (v as int) < g.order_spec()) by {
            let j = choose|j: int| 0 <= j < g.nbrs_of(u as int).len() && g.nbrs_of(u as int)[j] == v;
            assert(g.nbr_lists()[u as int][j] == v);
        }
        assert(h.order_spec() <= g.order_spec());
    }
    assert(g.order_spec() == h.order_spec());
    assert forall|u: int| 0 <= u < g.order_spec() implies g.nbr_lists()[u] == h.nbr_lists()[u] by {
        assert forall|x: u32| g.nbr_lists()[u].contains(x) <==> h.nbr_lists()[u].contains(x) by {
            assert(g.has_edge(u as u32, x) <==> h.has_edge(u as u32, x));
            assert(g.nbrs_of(u) == g.nbr_lists()[u]);
            assert(h.nbrs_of(u) == h.nbr_lists()[u]);
        }
        lemma_strictly_inc_unique(g.nbr_lists()[u], h.nbr_lists()[u]);
    }
    assert(g.nbr_lists() =~= h.nbr_lists());
    assert(g.offsets_view() =~= h.offsets_view());
    assert(g.blob_view() == h.blob_view());
    assert(g.size_spec() == h.size_spec());
}

} // verus!
