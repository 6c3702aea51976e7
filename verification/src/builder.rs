//! Edge-list to compressed CSR builder.
//!
//! The buffer is sorted lexicographically, partitioned into per-source
//! groups by a divide-and-conquer split that searches for a group
//! boundary in expanding windows around the midpoint, and each group is
//! deduplicated and encoded.  Offsets come from an exclusive prefix sum
//! over the per-vertex byte counts.

use vstd::prelude::*;

use rayon::slice::ParallelSliceMut;

use crate::codec::{enc, strictly_inc};
use crate::edge::{edge_key, edge_key_spec, edge_le, lemma_edge_key_order, Edge};

verus! {

/// Relies on rayon's `par_sort_unstable_by_key`: sorts the buffer by the
/// given key, keeping exactly the same elements.
#[verifier::external_body]
fn par_sort_edges(v: &mut Vec<Edge>)
    ensures
        final(v)@.to_multiset() == old(v)@.to_multiset(),
        forall|i: int, j: int|
            0 <= i <= j < final(v)@.len() ==> edge_key_spec(final(v)@[i]) <= edge_key_spec(
                final(v)@[j],
            ),
{
    v.par_sort_unstable_by_key(|e| edge_key(e));
}

/// One group of the builder output: a source and its strictly increasing
/// deduplicated targets.
pub open spec fn groups_wf(s: Seq<Edge>, g: Seq<(u32, Seq<u32>)>) -> bool {
    &&& forall|j1: int, j2: int| 0 <= j1 < j2 < g.len() ==> g[j1].0 < g[j2].0
    &&& forall|j: int| 0 <= j < g.len() ==> strictly_inc(#[trigger] g[j].1) && g[j].1.len() > 0
    &&& forall|j: int, v: u32|
        0 <= j < g.len() ==> (#[trigger] g[j].1.contains(v) <==> s.contains(Edge(g[j].0, v)))
    &&& forall|e: Edge| #[trigger] s.contains(e) ==> exists|j: int| 0 <= j < g.len() && g[j].0 == e.0
}

/// Concatenated encodings of a group sequence.
pub open spec fn groups_blob(g: Seq<(u32, Seq<u32>)>) -> Seq<u8>
    decreases g.len(),
{
    if g.len() == 0 {
        Seq::<u8>::empty()
    } else {
        enc(g[0].0, g[0].1) + groups_blob(g.drop_first())
    }
}

/// Total number of deduplicated edges of a group sequence.
pub open spec fn groups_count(g: Seq<(u32, Seq<u32>)>) -> nat
    decreases g.len(),
{
    if g.len() == 0 {
        0
    } else {
        g[0].1.len() + groups_count(g.drop_first())
    }
}

/// Sum of a sequence of byte counts.
pub open spec fn seq_sum(v: Seq<usize>) -> int
    decreases v.len(),
{
    if v.len() == 0 {
        0
    } else {
        seq_sum(v.drop_last()) + v.last()
    }
}

/// Exclusive prefix sum: `r[0] == init` and `r[i + 1] == r[i] + v[i]`.
pub fn exclusive_sum(init: usize, vect: Vec<usize>) -> (r: Vec<usize>)
    requires
        init + seq_sum(vect@) <= usize::MAX,
        forall|i: int| 0 <= i <= vect@.len() ==> init + seq_sum(vect@.take(i)) <= usize::MAX,
    ensures
        r@.len() == vect@.len() + 1,
        forall|i: int| 0 <= i <= vect@.len() ==> r@[i] == init + seq_sum(vect@.take(i)),
{
    let mut r: Vec<usize> = Vec::new();
    let mut acc: usize = init;
    r.push(acc);
    let mut i: usize = 0;
    proof {
        assert(vect@.take(0) =~= Seq::<usize>::empty());
    }
    while i < vect.len()
        invariant
            i <= vect@.len(),
            r@.len() == i + 1,
            acc == init + seq_sum(vect@.take(i as int)),
            forall|k: int| 0 <= k <= i ==> r@[k] == init + seq_sum(vect@.take(k)),
            forall|k: int| 0 <= k <= vect@.len() ==> init + seq_sum(vect@.take(k)) <= usize::MAX,
        decreases vect@.len() - i,
    {
        proof {
            assert(vect@.take(i + 1).drop_last() =~= vect@.take(i as int));
            assert(vect@.take(i + 1).last() == vect@[i as int]);
        }
        acc = acc + vect[i];
        r.push(acc);
        i = i + 1;
    }
    proof {
        assert(vect@.take(vect@.len() as int) =~= vect@);
    }
    r
}

/// Per-group node entries: each source paired with its encoded byte count.
pub open spec fn nodes_of(g: Seq<(u32, Seq<u32>)>) -> Seq<(u32, usize)> {
    g.map_values(|p: (u32, Seq<u32>)| (p.0, enc(p.0, p.1).len() as usize))
}

/// Each group's encoding is no longer than the whole blob.
proof fn lemma_groups_blob_part(g: Seq<(u32, Seq<u32>)>, j: int)
    requires
        0 <= j < g.len(),
    ensures
        enc(g[j].0, g[j].1).len() <= groups_blob(g).len(),
    decreases j,
{
    if j == 0 {
    } else {
        lemma_groups_blob_part(g.drop_first(), j - 1);
        assert(g.drop_first()[j - 1] == g[j]);
    }
}

proof fn lemma_groups_blob_append(g1: Seq<(u32, Seq<u32>)>, g2: Seq<(u32, Seq<u32>)>)
    ensures
        groups_blob(g1 + g2) == groups_blob(g1) + groups_blob(g2),
        groups_count(g1 + g2) == groups_count(g1) + groups_count(g2),
    decreases g1.len(),
{
    if g1.len() == 0 {
        assert(g1 + g2 =~= g2);
        assert(groups_blob(g1) + groups_blob(g2) =~= groups_blob(g2));
    } else {
        assert((g1 + g2).drop_first() =~= g1.drop_first() + g2);
        lemma_groups_blob_append(g1.drop_first(), g2);
        assert(groups_blob(g1 + g2) =~= groups_blob(g1) + groups_blob(g2));
    }
}

/// Group sequences over slices with disjoint, ordered source ranges merge.
proof fn lemma_groups_merge(
    a: Seq<Edge>,
    b: Seq<Edge>,
    g1: Seq<(u32, Seq<u32>)>,
    g2: Seq<(u32, Seq<u32>)>,
)
    requires
        groups_wf(a, g1),
        groups_wf(b, g2),
        forall|ea: Edge, eb: Edge|
            a.contains(ea) && b.contains(eb) ==> (#[trigger] ea.0) < (#[trigger] eb.0),
    ensures
        groups_wf(a + b, g1 + g2),
{
    let s = a + b;
    let g = g1 + g2;
    assert forall|e: Edge| #[trigger] s.contains(e) implies a.contains(e) || b.contains(e) by {
        let idx = choose|idx: int| 0 <= idx < s.len() && s[idx] == e;
        if idx < a.len() {
            assert(a[idx] == e);
        } else {
            assert(b[idx - a.len()] == e);
        }
    }
    assert forall|e: Edge| a.contains(e) || b.contains(e) implies #[trigger] s.contains(e) by {
        if a.contains(e) {
            let idx = choose|idx: int| 0 <= idx < a.len() && a[idx] == e;
            assert(s[idx] == e);
        } else {
            let idx = choose|idx: int| 0 <= idx < b.len() && b[idx] == e;
            assert(s[a.len() + idx] == e);
        }
    }
    // every source named in g1 occurs in a, and likewise for g2 in b
    assert forall|j: int| 0 <= j < g1.len() implies exists|v: u32|
        a.contains(Edge(#[trigger] g1[j].0, v)) by {
        let v = g1[j].1[0];
        assert(g1[j].1.contains(v));
    }
    assert forall|j: int| 0 <= j < g2.len() implies exists|v: u32|
        b.contains(Edge(#[trigger] g2[j].0, v)) by {
        let v = g2[j].1[0];
        assert(g2[j].1.contains(v));
    }
    assert forall|j1: int, j2: int| 0 <= j1 < g1.len() && 0 <= j2 < g2.len() implies g1[j1].0
        < g2[j2].0 by {
        let v1 = choose|v: u32| a.contains(Edge(g1[j1].0, v));
        let v2 = choose|v: u32| b.contains(Edge(g2[j2].0, v));
        assert(a.contains(Edge(g1[j1].0, v1)) && b.contains(Edge(g2[j2].0, v2)));
    }
    assert forall|j1: int, j2: int| 0 <= j1 < j2 < g.len() implies g[j1].0 < g[j2].0 by {
        if j2 < g1.len() {
            assert(g1[j1].0 < g1[j2].0);
        } else if j1 >= g1.len() {
            assert(g2[j1 - g1.len()].0 < g2[j2 - g1.len()].0);
        }
    }
    assert forall|j: int, v: u32| 0 <= j < g.len() implies (#[trigger] g[j].1.contains(v)
        <==> s.contains(Edge(g[j].0, v))) by {
        if j < g1.len() {
            assert(g[j] == g1[j]);
            if s.contains(Edge(g1[j].0, v)) && !a.contains(Edge(g1[j].0, v)) {
                assert(b.contains(Edge(g1[j].0, v)));
                let v1 = choose|w: u32| a.contains(Edge(g1[j].0, w));
                assert(a.contains(Edge(g1[j].0, v1)));
                assert(g1[j].0 < g1[j].0);
            }
        } else {
            assert(g[j] == g2[j - g1.len()]);
            if s.contains(Edge(g[j].0, v)) && !b.contains(Edge(g[j].0, v)) {
                assert(a.contains(Edge(g[j].0, v)));
                let v2 = choose|w: u32| b.contains(Edge(g[j].0, w));
                assert(b.contains(Edge(g[j].0, v2)));
                assert(g[j].0 < g[j].0);
            }
        }
    }
    assert forall|e: Edge| #[trigger] s.contains(e) implies exists|j: int|
        0 <= j < g.len() && g[j].0 == e.0 by {
        if a.contains(e) {
            let j = choose|j: int| 0 <= j < g1.len() && g1[j].0 == e.0;
            assert(g[j].0 == e.0);
        } else {
            assert(b.contains(e));
            let j = choose|j: int| 0 <= j < g2.len() && g2[j].0 == e.0;
            assert(g[g1.len() + j].0 == e.0);
        }
    }
}

/// In a run of edges with pairwise-equal adjacent sources, every source
/// equals the first.
proof fn lemma_const_sources(s: Seq<Edge>, lo: int, hi: int, k: int)
    requires
        forall|j: int| lo <= j < hi - 1 ==> s[j].0 == #[trigger] s[j + 1].0,
        lo <= k < hi <= s.len(),
        0 <= lo,
    ensures
        s[k].0 == s[lo].0,
    decreases k - lo,
{
    if k > lo {
        lemma_const_sources(s, lo, hi, k - 1);
        assert(s[k - 1].0 == s[(k - 1) + 1].0);
    }
}

/// Encodes one group: the edges of a single source, in target order.
fn encode_leaf(
    buf: &Vec<Edge>,
    lo: usize,
    hi: usize,
    nodes: &mut Vec<(u32, usize)>,
    blob: &mut Vec<u8>,
    cnt: &mut usize,
) -> (g: Ghost<Seq<(u32, Seq<u32>)>>)
    requires
        lo < hi <= buf@.len(),
        forall|i: int, j: int| lo <= i < j < hi ==> edge_le(#[trigger] buf@[i], #[trigger] buf@[j]),
        forall|i: int| lo <= i < hi ==> (#[trigger] buf@[i]).0 == buf@[lo as int].0,
        *old(cnt) <= old(blob)@.len(),
    ensures
        groups_wf(buf@.subrange(lo as int, hi as int), g@),
        g@.len() == 1,
        final(nodes)@ == old(nodes)@ + nodes_of(g@),
        final(blob)@ == old(blob)@ + groups_blob(g@),
        *final(cnt) == *old(cnt) + groups_count(g@),
        *final(cnt) <= final(blob)@.len(),
{
    let u = buf[lo].0;
    let mut targets: Vec<u32> = Vec::new();
    let mut i = lo;
    while i < hi
        invariant
            lo <= i <= hi <= buf@.len(),
            u == buf@[lo as int].0,
            forall|a: int, b: int| lo <= a < b < hi ==> edge_le(#[trigger] buf@[a], #[trigger] buf@[b]),
            forall|a: int| lo <= a < hi ==> (#[trigger] buf@[a]).0 == u,
            strictly_inc(targets@),
            i > lo ==> targets@.len() > 0 && targets@.last() == buf@[i - 1].1,
            i == lo ==> targets@.len() == 0,
            forall|v: u32|
                #[trigger] targets@.contains(v) <==> exists|a: int|
                    lo <= a < i && buf@[a] == Edge(u, v),
        decreases hi - i,
    {
        let t = buf[i].1;
        let ghost pre = targets@;
        let mut pushed = false;
        if targets.len() == 0 {
            targets.push(t);
            pushed = true;
        } else if targets[targets.len() - 1] != t {
            proof {
                assert(edge_le(buf@[i - 1], buf@[i as int]));
                assert(targets@.last() < t);
                assert forall|k: int| 0 <= k < pre.len() implies pre[k] < t by {
                    if k < pre.len() - 1 {
                        assert(pre[k] < pre[pre.len() - 1]);
                    }
                }
            }
            targets.push(t);
            pushed = true;
        }
        proof {
            assert(buf@[i as int] == Edge(u, t));
            if pushed {
                assert forall|v: u32| #[trigger] targets@.contains(v) implies exists|a: int|
                    lo <= a < i + 1 && buf@[a] == Edge(u, v) by {
                    if pre.contains(v) {
                        let a = choose|a: int| lo <= a < i && buf@[a] == Edge(u, v);
                        assert(buf@[a] == Edge(u, v));
                    } else {
                        let k = choose|k: int| 0 <= k < targets@.len() && targets@[k] == v;
                        assert(v == t);
                        assert(buf@[i as int] == Edge(u, v));
                    }
                }
                assert forall|v: u32|
                    (exists|a: int| lo <= a < i + 1 && buf@[a] == Edge(u, v)) implies #[trigger]
                    targets@.contains(v) by {
                    let a = choose|a: int| lo <= a < i + 1 && buf@[a] == Edge(u, v);
                    if a < i {
                        assert(pre.contains(v));
                        let k = choose|k: int| 0 <= k < pre.len() && pre[k] == v;
                        assert(targets@[k] == v);
                    } else {
                        assert(v == t);
                        assert(targets@.last() == t);
                    }
                }
            } else {
                assert(pre.len() > 0 && pre.last() == t);
                assert forall|v: u32|
                    (exists|a: int| lo <= a < i + 1 && buf@[a] == Edge(u, v)) implies #[trigger]
                    targets@.contains(v) by {
                    let a = choose|a: int| lo <= a < i + 1 && buf@[a] == Edge(u, v);
                    if a < i {
                        assert(targets@.contains(v));
                    } else {
                        assert(v == t);
                        assert(targets@.last() == t);
                    }
                }
                assert forall|v: u32| #[trigger] targets@.contains(v) implies exists|a: int|
                    lo <= a < i + 1 && buf@[a] == Edge(u, v) by {
                    let a = choose|a: int| lo <= a < i && buf@[a] == Edge(u, v);
                    assert(buf@[a] == Edge(u, v));
                }
            }
        }
        i = i + 1;
    }
    let before = blob.len();
    crate::encoder::encode(blob, u, &targets);
    let after = blob.len();
    let n = after - before;
    nodes.push((u, n));
    proof {
        crate::codec::lemma_enc_len_ge(u, targets@);
    }
    *cnt = *cnt + targets.len();
    let ghost g0: Seq<(u32, Seq<u32>)> = seq![(u, targets@)];
    proof {
        let sub = buf@.subrange(lo as int, hi as int);
        assert forall|v: u32| #[trigger] g0[0].1.contains(v) implies sub.contains(
            Edge(g0[0].0, v),
        ) by {
            let a = choose|a: int| lo <= a < hi && buf@[a] == Edge(u, v);
            assert(sub[a - lo] == Edge(u, v));
        }
        assert forall|v: u32| sub.contains(Edge(g0[0].0, v)) implies #[trigger] g0[0].1.contains(
            v,
        ) by {
            let b = choose|b: int| 0 <= b < sub.len() && sub[b] == Edge(u, v);
            assert(buf@[lo + b] == Edge(u, v));
        }
        assert forall|e: Edge| #[trigger] sub.contains(e) implies exists|j: int|
            0 <= j < g0.len() && g0[j].0 == e.0 by {
            let b = choose|b: int| 0 <= b < sub.len() && sub[b] == e;
            assert(buf@[lo + b] == e);
            assert(g0[0].0 == e.0);
        }
        assert(groups_wf(sub, g0));
        assert(g0.drop_first() =~= Seq::<(u32, Seq<u32>)>::empty());
        reveal_with_fuel(groups_blob, 2);
        reveal_with_fuel(groups_count, 2);
        assert(groups_blob(g0) =~= enc(u, targets@));
        assert(groups_count(g0) == targets@.len());
        assert(nodes@ =~= old(nodes)@ + nodes_of(g0));
    }
    Ghost(g0)
}

/// Recursive partitioner: isolates per-source groups by splitting at
/// group boundaries, then encodes each group.
fn rec_edgelist_to_csr(
    buf: &Vec<Edge>,
    lo: usize,
    hi: usize,
    nodes: &mut Vec<(u32, usize)>,
    blob: &mut Vec<u8>,
    cnt: &mut usize,
) -> (g: Ghost<Seq<(u32, Seq<u32>)>>)
    requires
        lo <= hi <= buf@.len(),
        forall|i: int, j: int| lo <= i < j < hi ==> edge_le(#[trigger] buf@[i], #[trigger] buf@[j]),
        *old(cnt) <= old(blob)@.len(),
    ensures
        groups_wf(buf@.subrange(lo as int, hi as int), g@),
        final(nodes)@ == old(nodes)@ + nodes_of(g@),
        final(blob)@ == old(blob)@ + groups_blob(g@),
        *final(cnt) == *old(cnt) + groups_count(g@),
        *final(cnt) <= final(blob)@.len(),
    decreases hi - lo,
{
    if lo == hi {
        let ghost g0: Seq<(u32, Seq<u32>)> = Seq::empty();
        proof {
            assert(buf@.subrange(lo as int, hi as int).len() == 0);
            assert(groups_wf(buf@.subrange(lo as int, hi as int), g0));
            assert(nodes@ =~= old(nodes)@ + nodes_of(g0));
            assert(blob@ =~= old(blob)@ + groups_blob(g0));
        }
        return Ghost(g0);
    }
    match find_index_edgelist(buf, lo, hi) {
        None => {
            proof {
                assert forall|i: int| lo <= i < hi implies (#[trigger] buf@[i]).0
                    == buf@[lo as int].0 by {
                    lemma_const_sources(buf@, lo as int, hi as int, i);
                }
            }
            encode_leaf(buf, lo, hi, nodes, blob, cnt)
        },
        Some(m) => {
            let ghost a = buf@.subrange(lo as int, m + 1);
            let ghost b = buf@.subrange(m + 1, hi as int);
            let Ghost(g1) = rec_edgelist_to_csr(buf, lo, m + 1, nodes, blob, cnt);
            let Ghost(g2) = rec_edgelist_to_csr(buf, m + 1, hi, nodes, blob, cnt);
            proof {
                assert(buf@.subrange(lo as int, hi as int) =~= a + b);
                assert(edge_le(buf@[m as int], buf@[m + 1]));
                assert(buf@[m as int].0 < buf@[m + 1].0);
                assert forall|ea: Edge, eb: Edge| a.contains(ea) && b.contains(eb) implies (
                #[trigger] ea.0) < (#[trigger] eb.0) by {
                    let ia = choose|ia: int| 0 <= ia < a.len() && a[ia] == ea;
                    let ib = choose|ib: int| 0 <= ib < b.len() && b[ib] == eb;
                    assert(buf@[lo + ia] == ea);
                    assert(buf@[m + 1 + ib] == eb);
                    if lo + ia < m {
                        assert(edge_le(buf@[lo + ia], buf@[m as int]));
                    }
                    if m + 1 < m + 1 + ib {
                        assert(edge_le(buf@[m + 1], buf@[m + 1 + ib]));
                    }
                }
                lemma_groups_merge(a, b, g1, g2);
                lemma_groups_blob_append(g1, g2);
                assert(nodes_of(g1 + g2) =~= nodes_of(g1) + nodes_of(g2));
                assert(nodes@ =~= old(nodes)@ + nodes_of(g1 + g2));
                assert(blob@ =~= old(blob)@ + groups_blob(g1 + g2));
            }
            Ghost(g1 + g2)
        },
    }
}

/// Concatenated encodings of the neighbour lists of vertices `i` and up.
pub open spec fn blob_from(nb: Seq<Seq<u32>>, i: int) -> Seq<u8>
    decreases nb.len() - i,
{
    if i < 0 || i >= nb.len() {
        Seq::<u8>::empty()
    } else {
        enc(i as u32, nb[i]) + blob_from(nb, i + 1)
    }
}

/// Total neighbour count of vertices `i` and up.
pub open spec fn count_from(nb: Seq<Seq<u32>>, i: int) -> int
    decreases nb.len() - i,
{
    if i < 0 || i >= nb.len() {
        0
    } else {
        nb[i].len() + count_from(nb, i + 1)
    }
}

/// Byte offset of vertex `i`'s encoding inside the blob.
pub open spec fn prefix_len(nb: Seq<Seq<u32>>, i: int) -> int
    decreases i,
{
    if i <= 0 {
        0
    } else {
        prefix_len(nb, i - 1) + enc((i - 1) as u32, nb[i - 1]).len()
    }
}

/// What the builder promises: `nb` is the per-vertex neighbour model of
/// the input edge list, and offsets, edge count and blob all follow it.
pub open spec fn builder_post(
    input: Seq<Edge>,
    nb: Seq<Seq<u32>>,
    offsets: Seq<usize>,
    count: int,
    blob: Seq<u8>,
) -> bool {
    &&& nb.len() <= 0x1_0000_0000
    &&& (input.len() == 0 <==> nb.len() == 0)
    &&& forall|u: int| 0 <= u < nb.len() ==> strictly_inc(#[trigger] nb[u])
    &&& forall|u: int, v: u32|
        0 <= u < nb.len() ==> (#[trigger] nb[u].contains(v) <==> input.contains(Edge(u as u32, v)))
    &&& forall|e: Edge| #[trigger] input.contains(e) ==> e.0 < nb.len() && e.1 < nb.len()
    &&& (nb.len() > 0 ==> exists|e: Edge|
        input.contains(e) && ((#[trigger] e.0) == nb.len() - 1 || e.1 == nb.len() - 1))
    &&& offsets.len() == (if nb.len() == 0 {
        0int
    } else {
        nb.len() + 1int
    })
    &&& forall|i: int| 0 <= i < offsets.len() ==> (#[trigger] offsets[i]) == prefix_len(nb, i)
    &&& blob == blob_from(nb, 0)
    &&& count == count_from(nb, 0)
}

/// The targets of source `u` in a group sequence, or empty.
pub open spec fn group_targets(g: Seq<(u32, Seq<u32>)>, u: int) -> Seq<u32> {
    if exists|j: int| 0 <= j < g.len() && (#[trigger] g[j].0) as int == u {
        g[choose|j: int| 0 <= j < g.len() && (#[trigger] g[j].0) as int == u].1
    } else {
        Seq::<u32>::empty()
    }
}

/// Offsets partition the blob: skipping a prefix of the whole blob
/// reaches the per-vertex suffix.
pub proof fn lemma_prefix_blob(nb: Seq<Seq<u32>>, i: int)
    requires
        0 <= i <= nb.len(),
    ensures
        prefix_len(nb, i) >= 0,
        prefix_len(nb, i) + blob_from(nb, i).len() == blob_from(nb, 0).len(),
        blob_from(nb, 0).skip(prefix_len(nb, i)) == blob_from(nb, i),
    decreases i,
{
    if i == 0 {
        assert(blob_from(nb, 0).skip(0) =~= blob_from(nb, 0));
    } else {
        lemma_prefix_blob(nb, i - 1);
        let e = enc((i - 1) as u32, nb[i - 1]);
        assert(blob_from(nb, i - 1) == e + blob_from(nb, i));
        assert(blob_from(nb, 0).skip(prefix_len(nb, i - 1)).skip(e.len() as int) =~= blob_from(
            nb,
            0,
        ).skip(prefix_len(nb, i)));
        assert((e + blob_from(nb, i)).skip(e.len() as int) =~= blob_from(nb, i));
    }
}

/// Extending the model with one more vertex leaves earlier offsets
/// untouched.
pub proof fn lemma_prefix_len_push(nb: Seq<Seq<u32>>, x: Seq<u32>, i: int)
    requires
        0 <= i <= nb.len(),
    ensures
        prefix_len(nb.push(x), i) == prefix_len(nb, i),
    decreases i,
{
    if i > 0 {
        lemma_prefix_len_push(nb, x, i - 1);
        assert(nb.push(x)[i - 1] == nb[i - 1]);
    }
}

/// Extending the model with one more vertex appends its encoding to the
/// blob and its length to the count.
pub proof fn lemma_blob_from_push(nb: Seq<Seq<u32>>, x: Seq<u32>, k: int)
    requires
        0 <= k <= nb.len(),
        nb.len() < 0x1_0000_0000,
    ensures
        blob_from(nb.push(x), k) == blob_from(nb, k) + enc(nb.len() as u32, x),
        count_from(nb.push(x), k) == count_from(nb, k) + x.len(),
    decreases nb.len() - k,
{
    if k == nb.len() {
        reveal_with_fuel(blob_from, 3);
        reveal_with_fuel(count_from, 3);
        assert(nb.push(x)[k] == x);
        assert(blob_from(nb.push(x), k) =~= blob_from(nb, k) + enc(nb.len() as u32, x));
    } else {
        assert(nb.push(x)[k] == nb[k]);
        lemma_blob_from_push(nb, x, k + 1);
        assert(blob_from(nb.push(x), k) =~= blob_from(nb, k) + enc(nb.len() as u32, x));
    }
}

/// The model blob and edge count of a vertex range equal the
/// concatenation over its groups.
proof fn lemma_model_from_groups(nb: Seq<Seq<u32>>, g: Seq<(u32, Seq<u32>)>, u: int, j: int)
    requires
        nb.len() <= 0x1_0000_0000,
        0 <= u <= nb.len(),
        0 <= j <= g.len(),
        forall|j1: int, j2: int| 0 <= j1 < j2 < g.len() ==> g[j1].0 < g[j2].0,
        forall|j2: int|
            0 <= j2 < g.len() ==> ((#[trigger] g[j2].0) as int) < nb.len() && nb[g[j2].0 as int]
                == g[j2].1,
        forall|j2: int| 0 <= j2 < j ==> ((#[trigger] g[j2].0) as int) < u,
        forall|j2: int| j <= j2 < g.len() ==> ((#[trigger] g[j2].0) as int) >= u,
        forall|w: int|
            u <= w < nb.len() && (#[trigger] nb[w]).len() > 0 ==> exists|j2: int|
                j <= j2 < g.len() && (#[trigger] g[j2].0) as int == w,
    ensures
        blob_from(nb, u) == groups_blob(g.skip(j)),
        count_from(nb, u) == groups_count(g.skip(j)),
    decreases nb.len() - u,
{
    if u == nb.len() {
        if j < g.len() {
            assert((g[j as int].0 as int) >= u);
            assert((g[j as int].0 as int) < nb.len());
        }
        assert(g.skip(j) =~= Seq::<(u32, Seq<u32>)>::empty());
    } else if j < g.len() && (g[j].0 as int) == u {
        assert(nb[u] == g[j].1);
        assert(g.skip(j)[0] == g[j]);
        assert(g.skip(j).drop_first() =~= g.skip(j + 1));
        assert forall|w: int|
            u + 1 <= w < nb.len() && (#[trigger] nb[w]).len() > 0 implies exists|j2: int|
            j + 1 <= j2 < g.len() && (#[trigger] g[j2].0) as int == w by {
            let j2 = choose|j2: int| j <= j2 < g.len() && (#[trigger] g[j2].0) as int == w;
            assert(j2 != j);
            assert(g[j2].0 as int == w);
        }
        assert forall|j2: int| j + 1 <= j2 < g.len() implies ((#[trigger] g[j2].0) as int) >= u
            + 1 by {
            assert(g[j].0 < g[j2].0);
        }
        lemma_model_from_groups(nb, g, u + 1, j + 1);
        assert((u as u32) == g[j].0);
        assert(blob_from(nb, u) =~= groups_blob(g.skip(j)));
    } else {
        assert(nb[u].len() == 0) by {
            if nb[u].len() > 0 {
                let j2 = choose|j2: int| j <= j2 < g.len() && (#[trigger] g[j2].0) as int == u;
                assert(j2 > j ==> g[j].0 < g[j2].0);
                assert(j2 == j ==> g[j].0 as int == u);
            }
        }
        assert(enc(u as u32, nb[u]) =~= Seq::<u8>::empty());
        assert forall|j2: int| j <= j2 < g.len() implies ((#[trigger] g[j2].0) as int) >= u + 1 by {
            assert(g[j2].0 as int != u);
        }
        lemma_model_from_groups(nb, g, u + 1, j);
        assert(blob_from(nb, u) =~= blob_from(nb, u + 1));
    }
}

/// Prefix sums of the per-vertex byte counts are the model offsets.
proof fn lemma_sum_prefix(nnzs: Seq<usize>, nb: Seq<Seq<u32>>, i: int)
    requires
        nnzs.len() == nb.len(),
        forall|w: int| 0 <= w < nb.len() ==> (#[trigger] nnzs[w]) == enc(w as u32, nb[w]).len(),
        0 <= i <= nnzs.len(),
    ensures
        seq_sum(nnzs.take(i)) == prefix_len(nb, i),
    decreases i,
{
    if i > 0 {
        lemma_sum_prefix(nnzs, nb, i - 1);
        assert(nnzs.take(i).drop_last() =~= nnzs.take(i - 1));
        assert(nnzs.take(i).last() == nnzs[i - 1]);
    }
}

/// Searches for a group boundary: an index `i` with
/// `buf[i].0 != buf[i + 1].0` inside `[lo, hi)`, probing windows that
/// widen by two around the midpoint before scanning the whole range.
fn find_index_edgelist(buf: &Vec<Edge>, lo: usize, hi: usize) -> (r: Option<usize>)
    requires
        lo <= hi <= buf@.len(),
    ensures
        match r {
            Some(i) => lo <= i && i + 1 < hi && buf@[i as int].0 != buf@[i + 1].0,
            None => forall|k: int| lo <= k < hi - 1 ==> buf@[k].0 == #[trigger] buf@[k + 1].0,
        },
{
    let len = hi - lo;
    if len < 2 {
        return None;
    }
    let mid = lo + len / 2;
    let mut off: usize = 2;
    while off <= len / 2
        invariant
            lo <= mid < hi <= buf@.len(),
            mid == lo + (hi - lo) / 2,
            hi - lo == len,
            2 <= len,
            2 <= off <= len / 2 + 2,
        decreases len / 2 + 2 - off,
    {
        let start = if mid - lo >= off {
            mid - off
        } else {
            lo
        };
        let end = if hi - mid >= off {
            mid + off
        } else {
            hi
        };
        let stop = end - 1;
        let mut k = start;
        while k < stop
            invariant
                lo <= start <= k,
                stop < end <= hi <= buf@.len(),
            decreases stop - k,
        {
            if buf[k].0 != buf[k + 1].0 {
                return Some(k);
            }
            k = k + 1;
        }
        off = off + 2;
    }
    let stop = hi - 1;
    let mut k = lo;
    while k < stop
        invariant
            lo <= k,
            stop == hi - 1,
            lo < hi <= buf@.len(),
            forall|j: int| lo <= j < k ==> buf@[j].0 == #[trigger] buf@[j + 1].0,
        decreases stop - k,
    {
        if buf[k].0 != buf[k + 1].0 {
            return Some(k);
        }
        k = k + 1;
    }
    None
}

/// Builds the compressed CSR parts from an edge buffer: byte offsets,
/// deduplicated edge count, and the concatenated encoded neighbour
/// lists.  The output depends only on the multiset of input edges.
#[verifier::rlimit(100)]
pub fn edgelist_to_csr(edgelist: &mut Vec<Edge>) -> (r: (Vec<usize>, usize, Vec<u8>))
    ensures
        final(edgelist)@.to_multiset() == old(edgelist)@.to_multiset(),
        forall|i: int, j: int|
            0 <= i < j < final(edgelist)@.len() ==> edge_le(
                #[trigger] final(edgelist)@[i],
                #[trigger] final(edgelist)@[j],
            ),
        exists|nb: Seq<Seq<u32>>|
            #[trigger] builder_post(old(edgelist)@, nb, r.0@, r.1 as int, r.2@),
{
    par_sort_edges(edgelist);
    proof {
        broadcast use vstd::seq_lib::group_to_multiset_ensures;

        assert forall|i: int, j: int| 0 <= i < j < edgelist@.len() implies edge_le(
            #[trigger] edgelist@[i],
            #[trigger] edgelist@[j],
        ) by {
            lemma_edge_key_order(edgelist@[i], edgelist@[j]);
        }
        assert(edgelist@.len() == old(edgelist)@.len()) by {
            assert(edgelist@.to_multiset().len() == edgelist@.len());
            assert(old(edgelist)@.to_multiset().len() == old(edgelist)@.len());
        }
        assert forall|e: Edge| #[trigger]
            edgelist@.contains(e) <==> old(edgelist)@.contains(e) by {
            assert(edgelist@.contains(e) <==> edgelist@.to_multiset().count(e) > 0);
            assert(old(edgelist)@.contains(e) <==> old(edgelist)@.to_multiset().count(e) > 0);
        }
    }
    let n = edgelist.len();
    if n == 0 {
        let v_off: Vec<usize> = Vec::new();
        let v_blob: Vec<u8> = Vec::new();
        let r = (v_off, 0usize, v_blob);
        proof {
            let nb0: Seq<Seq<u32>> = Seq::empty();
            assert(r.0@ =~= Seq::<usize>::empty());
            assert(r.2@ =~= Seq::<u8>::empty());
            assert(builder_post(old(edgelist)@, nb0, r.0@, r.1 as int, r.2@));
        }
        return r;
    }
    let mut m: u32 = 0;
    let mut i: usize = 0;
    while i < n
        invariant
            i <= n == edgelist@.len(),
            forall|k: int| 0 <= k < i ==> (#[trigger] edgelist@[k]).0 <= m && edgelist@[k].1 <= m,
            i > 0 ==> exists|k: int|
                0 <= k < i && ((#[trigger] edgelist@[k]).0 == m || edgelist@[k].1 == m),
            i == 0 ==> m == 0,
        decreases n - i,
    {
        let ghost m0 = m;
        if edgelist[i].0 > m {
            m = edgelist[i].0;
        }
        if edgelist[i].1 > m {
            m = edgelist[i].1;
        }
        proof {
            if edgelist@[i as int].0 == m || edgelist@[i as int].1 == m {
                assert(exists|k: int|
                    0 <= k < i + 1 && ((#[trigger] edgelist@[k]).0 == m || edgelist@[k].1 == m));
            } else {
                assert(m == m0 && i > 0);
                let k0 = choose|k: int|
                    0 <= k < i && ((#[trigger] edgelist@[k]).0 == m0 || edgelist@[k].1 == m0);
                assert(0 <= k0 < i + 1 && (edgelist@[k0].0 == m || edgelist@[k0].1 == m));
            }
        }
        i = i + 1;
    }
    let mut nodes: Vec<(u32, usize)> = Vec::new();
    let mut blob: Vec<u8> = Vec::new();
    let mut cnt: usize = 0;
    let Ghost(g) = rec_edgelist_to_csr(edgelist, 0, n, &mut nodes, &mut blob, &mut cnt);
    let ghost s = edgelist@;
    let ghost order = m as int + 1;
    let ghost nb = Seq::<Seq<u32>>::new(order as nat, |u: int| group_targets(g, u));
    proof {
        assert(s.subrange(0, n as int) =~= s);
        assert(nodes@ =~= nodes_of(g));
        assert(blob@ =~= groups_blob(g));
        // every group source is a source of some edge, hence below the order
        assert forall|j: int| 0 <= j < g.len() implies ((#[trigger] g[j].0) as int) < order
            && nb[g[j].0 as int] == g[j].1 by {
            let v = g[j].1[0];
            assert(g[j].1.contains(v));
            assert(s.contains(Edge(g[j].0, v)));
            let idx = choose|idx: int| 0 <= idx < s.len() && s[idx] == Edge(g[j].0, v);
            assert(s[idx].0 <= m);
            assert(nb[g[j].0 as int] == group_targets(g, g[j].0 as int));
            let j2 = choose|j2: int|
                0 <= j2 < g.len() && (#[trigger] g[j2].0) as int == g[j].0 as int;
            if j2 < j {
                assert(g[j2].0 < g[j].0);
            }
            if j < j2 {
                assert(g[j].0 < g[j2].0);
            }
        }
        // membership of the model
        assert forall|u: int, v: u32| 0 <= u < nb.len() implies (#[trigger] nb[u].contains(v)
            <==> s.contains(Edge(u as u32, v))) by {
            if exists|j: int| 0 <= j < g.len() && (#[trigger] g[j].0) as int == u {
                let j = choose|j: int| 0 <= j < g.len() && (#[trigger] g[j].0) as int == u;
                assert(nb[u] == g[j].1);
                assert(g[j].1.contains(v) <==> s.contains(Edge(g[j].0, v)));
            } else {
                assert(nb[u] =~= Seq::<u32>::empty());
                if s.contains(Edge(u as u32, v)) {
                    let j = choose|j: int|
                        0 <= j < g.len() && g[j].0 == Edge(u as u32, v).0;
                    assert((g[j].0 as int) == u);
                }
            }
        }
        assert forall|u: int| 0 <= u < nb.len() implies strictly_inc(#[trigger] nb[u]) by {
            if exists|j: int| 0 <= j < g.len() && (#[trigger] g[j].0) as int == u {
                let j = choose|j: int| 0 <= j < g.len() && (#[trigger] g[j].0) as int == u;
                assert(nb[u] == g[j].1);
            } else {
                assert(nb[u] =~= Seq::<u32>::empty());
            }
        }
    }
    let blob_len_now = blob.len();
    proof {
        assert(blob_len_now == groups_blob(g).len());
        assert forall|j2: int| 0 <= j2 < g.len() implies enc(
            #[trigger] g[j2].0,
            g[j2].1,
        ).len() <= usize::MAX by {
            lemma_groups_blob_part(g, j2);
        }
    }
    let mut nnzs: Vec<usize> = Vec::new();
    let mut j: usize = 0;
    let mut u: u64 = 0;
    let mu = m as u64;
    while u <= mu
        invariant
            u <= mu + 1,
            mu == m,
            order == m as int + 1,
            nb.len() == order,
            nb == Seq::<Seq<u32>>::new(order as nat, |u2: int| group_targets(g, u2)),
            j <= nodes@.len(),
            nodes@ == nodes_of(g),
            nnzs@.len() == u,
            forall|j1: int, j2: int| 0 <= j1 < j2 < g.len() ==> g[j1].0 < g[j2].0,
            forall|j2: int|
                0 <= j2 < g.len() ==> ((#[trigger] g[j2].0) as int) < nb.len() && nb[g[j2].0 as int]
                    == g[j2].1,
            forall|j2: int| 0 <= j2 < g.len() ==> enc(#[trigger] g[j2].0, g[j2].1).len()
                <= usize::MAX,
            forall|j2: int| 0 <= j2 < j ==> ((#[trigger] g[j2].0) as int) < u,
            forall|j2: int| j <= j2 < g.len() ==> ((#[trigger] g[j2].0) as int) >= u,
            forall|w: int| 0 <= w < u ==> (#[trigger] nnzs@[w]) == enc(w as u32, nb[w]).len(),
        decreases mu + 1 - u,
    {
        if j < nodes.len() && nodes[j].0 as u64 == u {
            nnzs.push(nodes[j].1);
            j = j + 1;
            proof {
                let jj = j - 1;
                assert(nodes_of(g)[jj] == (g[jj].0, enc(g[jj].0, g[jj].1).len() as usize));
                assert((g[jj].0 as int) == u);
                assert(nb[u as int] == g[jj].1);
                assert(nnzs@[u as int] == enc(u as u32, nb[u as int]).len());
            }
        } else {
            nnzs.push(0);
            proof {
                assert(nb[u as int] == group_targets(g, u as int));
                if exists|j2: int| 0 <= j2 < g.len() && ((#[trigger] g[j2].0) as int) == u as int {
                    let j2 = choose|j2: int|
                        0 <= j2 < g.len() && ((#[trigger] g[j2].0) as int) == u as int;
                    if j2 < j {
                        assert((g[j2].0 as int) < u);
                    } else {
                        assert(j < g.len());
                        assert((g[j as int].0 as int) >= u);
                        if j2 == j {
                            assert(nodes@[j as int] == nodes_of(g)[j as int]);
                            assert(nodes@[j as int].0 == g[j as int].0);
                        } else {
                            assert(g[j as int].0 < g[j2].0);
                            assert((g[j as int].0 as int) > u || (g[j as int].0 as int) == u);
                            if (g[j as int].0 as int) == u {
                                assert(nodes@[j as int].0 == g[j as int].0);
                            }
                        }
                    }
                }
                assert(nb[u as int] =~= Seq::<u32>::empty());
                assert(enc(u as u32, nb[u as int]) =~= Seq::<u8>::empty());
                assert(nnzs@[u as int] == enc(u as u32, nb[u as int]).len());
            }
        }
        u = u + 1;
    }
    let total = blob.len();
    proof {
        assert(nb.len() == nnzs@.len());
        assert(g.skip(0) =~= g);
        assert forall|w: int| 0 <= w < nb.len() && (#[trigger] nb[w]).len() > 0 implies exists|
            j2: int,
        | 0 <= j2 < g.len() && (#[trigger] g[j2].0) as int == w by {
            assert(nb[w] == group_targets(g, w));
        }
        lemma_model_from_groups(nb, g, 0, 0);
        assert(blob@ == blob_from(nb, 0));
        assert(cnt == count_from(nb, 0));
        assert forall|i2: int| 0 <= i2 <= nnzs@.len() implies 0 + seq_sum(nnzs@.take(i2))
            <= usize::MAX by {
            lemma_sum_prefix(nnzs@, nb, i2);
            lemma_prefix_blob(nb, i2);
            assert(total == blob@.len());
        }
        lemma_sum_prefix(nnzs@, nb, nnzs@.len() as int);
        assert(nnzs@.take(nnzs@.len() as int) =~= nnzs@);
    }
    let offsets = exclusive_sum(0, nnzs);
    proof {
        assert forall|i2: int| 0 <= i2 < offsets@.len() implies (#[trigger] offsets@[i2])
            == prefix_len(nb, i2) by {
            lemma_sum_prefix(nnzs@, nb, i2);
        }
        let input = old(edgelist)@;
        let k0 = choose|k: int|
            0 <= k < s.len() && ((#[trigger] s[k]).0 == m || s[k].1 == m);
        assert(input.contains(s[k0])) by {
            assert(s.contains(s[k0]));
        }
        assert forall|e: Edge| #[trigger] input.contains(e) implies e.0 < nb.len() && e.1
            < nb.len() by {
            assert(s.contains(e));
            let idx = choose|idx: int| 0 <= idx < s.len() && s[idx] == e;
            assert(s[idx].0 <= m && s[idx].1 <= m);
        }
        assert(builder_post(input, nb, offsets@, cnt as int, blob@));
    }
    let r = (offsets, cnt, blob);
    proof {
        assert(builder_post(old(edgelist)@, nb, r.0@, r.1 as int, r.2@));
    }
    r
}

} // verus!
