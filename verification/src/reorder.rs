//! Vertex reordering by local connectivity.
//!
//! The vertex range is cut into exponentially growing chunks; within a
//! chunk, vertices are ranked by how many of their neighbours fall into
//! the same chunk, highest score first.

use vstd::prelude::*;

use crate::csr::CSR;
use crate::slice::ExponentialChunks;

verus! {

/// How many neighbours of `v` lie inside `[s, e)`.
pub open spec fn score_spec(g: CSR, v: u32, s: int, e: int) -> int {
    g.nbrs_of(v as int).filter(|w: u32| s <= w < e).len() as int
}

/// End of the chunk that starts at `start` with nominal length `k`.
pub open spec fn sched_end(len: int, k: int, start: int) -> int {
    if 1 <= k && k < len - start {
        start + k
    } else {
        len
    }
}

/// Nominal length of the chunk after one starting at `start` with
/// length `k`: doubled, saturated at `usize::MAX`, once the range is
/// exhausted unchanged.
pub open spec fn sched_next_k(len: int, k: int, start: int) -> int {
    if sched_end(len, k, start) < len {
        if 2 * k > usize::MAX {
            usize::MAX as int
        } else {
            2 * k
        }
    } else {
        k
    }
}

/// Start and nominal length of chunk `j` of the exponential schedule
/// over `[0, len)` with initial chunk `k0`.
pub open spec fn sched(len: int, k0: int, j: int) -> (int, int)
    decreases j,
{
    if j <= 0 {
        (0, k0)
    } else {
        let p = sched(len, k0, j - 1);
        if p.0 >= len {
            p
        } else {
            (sched_end(len, p.1, p.0), sched_next_k(len, p.1, p.0))
        }
    }
}

/// Slots `[s, e)` of `r` hold ids of `[s, e)` ranked by non-increasing
/// in-chunk connectivity.
pub open spec fn chunk_ranked(g: CSR, r: Seq<u32>, s: int, e: int) -> bool {
    &&& forall|t: int| s <= t < e ==> (s <= (#[trigger] r[t]) as int && ((r[t]) as int) < e)
    &&& forall|t1: int, t2: int|
        s <= t1 <= t2 < e ==> score_spec(g, #[trigger] r[t1], s, e) >= score_spec(
            g,
            #[trigger] r[t2],
            s,
            e,
        )
}

proof fn lemma_sched_nonneg(len: int, k0: int, j: int)
    requires
        len >= 0,
        0 <= j,
    ensures
        sched(len, k0, j).0 >= 0,
    decreases j,
{
    if j > 0 {
        lemma_sched_nonneg(len, k0, j - 1);
    }
}

proof fn lemma_sched_stuck(len: int, k0: int, j1: int, j2: int)
    requires
        0 <= j1 <= j2,
        sched(len, k0, j1).0 >= len,
    ensures
        sched(len, k0, j2) == sched(len, k0, j1),
    decreases j2 - j1,
{
    if j1 < j2 {
        lemma_sched_stuck(len, k0, j1, j2 - 1);
    }
}

/// Counts the neighbours of `v` that fall inside `[s, e)`.
fn score_of(g: &CSR, v: u32, s: usize, e: usize) -> (r: usize)
    requires
        g.wf(),
    ensures
        r == score_spec(*g, v, s as int, e as int),
{
    let nbrs = g.adj(v);
    let ghost pred = |w: u32| (s as int) <= w < (e as int);
    let mut cnt: usize = 0;
    let mut j: usize = 0;
    proof {
        assert(nbrs@.take(0).filter(pred) =~= Seq::<u32>::empty());
    }
    while j < nbrs.len()
        invariant
            j <= nbrs@.len(),
            pred == (|w: u32| (s as int) <= w < (e as int)),
            cnt == nbrs@.take(j as int).filter(pred).len(),
            cnt <= j,
        decreases nbrs@.len() - j,
    {
        proof {
            assert(nbrs@.take(j + 1).drop_last() =~= nbrs@.take(j as int));
            assert(nbrs@.take(j + 1).last() == nbrs@[j as int]);
            assert(nbrs@.take(j + 1) =~= nbrs@.take(j as int).push(nbrs@[j as int]));
            nbrs@.take(j as int).lemma_filter_push(nbrs@[j as int], pred);
        }
        let w = nbrs[j];
        if w as usize >= s && (w as usize) < e {
            proof {
                assert(pred(nbrs@[j as int]));
                assert(nbrs@.take(j + 1).filter(pred) =~= nbrs@.take(j as int).filter(pred).push(
                    nbrs@[j as int],
                ));
            }
            cnt = cnt + 1;
        } else {
            proof {
                assert(!pred(nbrs@[j as int]));
                assert(nbrs@.take(j + 1).filter(pred) =~= nbrs@.take(j as int).filter(pred));
            }
        }
        j = j + 1;
    }
    proof {
        assert(nbrs@.take(nbrs@.len() as int) =~= nbrs@);
    }
    cnt
}

/// Inserting an element anywhere adds exactly it to the multiset.
proof fn lemma_insert_multiset(s: Seq<(usize, u32)>, i: int, a: (usize, u32))
    requires
        0 <= i <= s.len(),
    ensures
        s.insert(i, a).to_multiset() == s.to_multiset().insert(a),
{
    broadcast use vstd::seq_lib::group_to_multiset_ensures;

    assert(s.insert(i, a) =~= s.take(i).push(a) + s.skip(i));
    vstd::seq_lib::lemma_multiset_commutative(s.take(i).push(a), s.skip(i));
    vstd::seq_lib::lemma_multiset_commutative(s.take(i), s.skip(i));
    assert(s.take(i) + s.skip(i) =~= s);
    assert(s.take(i).push(a).to_multiset() =~= s.take(i).to_multiset().insert(a));
    assert(s.insert(i, a).to_multiset() =~= s.to_multiset().insert(a));
}

/// Sorts score-id pairs by non-increasing score, keeping the elements.
fn sort_desc(v: Vec<(usize, u32)>) -> (r: Vec<(usize, u32)>)
    ensures
        r@.to_multiset() == v@.to_multiset(),
        r@.len() == v@.len(),
        forall|i: int, j: int| 0 <= i <= j < r@.len() ==> (#[trigger] r@[i]).0 >= (
        #[trigger] r@[j]).0,
{
    let ghost orig = v@;
    let mut rest = v;
    let mut out: Vec<(usize, u32)> = Vec::new();
    proof {
        broadcast use vstd::seq_lib::group_to_multiset_ensures;

        assert(rest@ =~= orig.skip(0));
        assert(out@.to_multiset().add(rest@.to_multiset()) =~= orig.to_multiset());
    }
    while rest.len() > 0
        invariant
            out@.len() + rest@.len() == orig.len(),
            out@.to_multiset().add(rest@.to_multiset()) == orig.to_multiset(),
            forall|i: int, j: int| 0 <= i <= j < out@.len() ==> (#[trigger] out@[i]).0 >= (
            #[trigger] out@[j]).0,
        decreases rest@.len(),
    {
        let ghost rest0 = rest@;
        let x = match rest.pop() {
            Some(x) => x,
            None => {
                proof {
                    assert(false);
                }
                (0, 0)
            },
        };
        proof {
            broadcast use vstd::seq_lib::group_to_multiset_ensures;

            assert(rest0.drop_last() =~= rest0.take(rest0.len() - 1));
            assert(rest0 =~= rest@.push(x));
            assert(rest0.to_multiset() =~= rest@.to_multiset().insert(x));
        }
        // find the first position whose score is below x's
        let mut p: usize = 0;
        while p < out.len() && out[p].0 >= x.0
            invariant
                p <= out@.len(),
                forall|t: int| 0 <= t < p ==> (#[trigger] out@[t]).0 >= x.0,
            decreases out@.len() - p,
        {
            p = p + 1;
        }
        let ghost out0 = out@;
        out.insert(p, x);
        proof {
            broadcast use vstd::seq_lib::group_to_multiset_ensures;

            lemma_insert_multiset(out0, p as int, x);
            assert forall|i: int, j: int| 0 <= i <= j < out@.len() implies (#[trigger] out@[i]).0
                >= (#[trigger] out@[j]).0 by {
                let oi = if i < p { out0[i] } else if i == p { x } else { out0[i - 1] };
                assert(out@[i] == oi);
                let oj = if j < p { out0[j] } else if j == p { x } else { out0[j - 1] };
                assert(out@[j] == oj);
                if p < out0.len() {
                    assert(out0[p as int].0 < x.0);
                }
            }
        }
    }
    proof {
        broadcast use vstd::seq_lib::group_to_multiset_ensures;

        assert(rest@ =~= Seq::<(usize, u32)>::empty());
        assert(out@.to_multiset() =~= orig.to_multiset());
        assert(out@.len() == out@.to_multiset().len());
        assert(orig.len() == orig.to_multiset().len());
    }
    out
}

/// A permutation of `0 .. num_nodes` in which each exponential chunk is
/// ranked by descending in-chunk connectivity.
pub fn reordering(graph: &CSR, k: usize, num_nodes: u32) -> (r: Vec<u32>)
    requires
        graph.wf(),
    ensures
        r@.len() == num_nodes,
        forall|t: int| 0 <= t < r@.len() ==> ((#[trigger] r@[t]) as int) < num_nodes,
        forall|t1: int, t2: int| 0 <= t1 < t2 < r@.len() ==> r@[t1] != r@[t2],
        forall|j: int|
            0 <= j && #[trigger] sched(num_nodes as int, k as int, j).0 < num_nodes
                ==> chunk_ranked(
                *graph,
                r@,
                sched(num_nodes as int, k as int, j).0,
                sched_end(
                    num_nodes as int,
                    sched(num_nodes as int, k as int, j).1,
                    sched(num_nodes as int, k as int, j).0,
                ),
            ),
{
    let n = num_nodes as usize;
    let mut out: Vec<u32> = Vec::new();
    let mut chunks = ExponentialChunks::new(n, k);
    let ghost nn = num_nodes as int;
    let ghost kk = k as int;
    let ghost mut done: int = 0;
    while chunks.start < chunks.len
        invariant
            graph.wf(),
            chunks.len == n,
            n == num_nodes,
            nn == num_nodes as int,
            kk == k as int,
            chunks.start <= n,
            out@.len() == chunks.start,
            forall|t: int| 0 <= t < out@.len() ==> ((#[trigger] out@[t]) as int) < chunks.start,
            forall|t1: int, t2: int| 0 <= t1 < t2 < out@.len() ==> out@[t1] != out@[t2],
            done >= 0,
            chunks.start == sched(nn, kk, done).0,
            chunks.k == sched(nn, kk, done).1,
            forall|j: int|
                0 <= j < done ==> #[trigger] sched(nn, kk, j).0 < nn && sched_end(
                    nn,
                    sched(nn, kk, j).1,
                    sched(nn, kk, j).0,
                ) <= chunks.start,
            forall|j: int|
                0 <= j < done ==> chunk_ranked(
                    *graph,
                    out@,
                    #[trigger] sched(nn, kk, j).0,
                    sched_end(nn, sched(nn, kk, j).1, sched(nn, kk, j).0),
                ),
        decreases chunks.len - chunks.start,
    {
        let ghost start0 = chunks.start as int;
        let ghost k0cur = chunks.k as int;
        let c = match chunks.next() {
            Some(c) => c,
            None => {
                proof {
                    assert(false);
                }
                (0, 0)
            },
        };
        let (s, e) = c;
        proof {
            assert(s == start0);
            assert(e as int == sched_end(nn, k0cur, start0));
            assert(chunks.start == e);
            assert(sched(nn, kk, done + 1).0 == e as int);
            assert(sched(nn, kk, done + 1).1 == chunks.k as int);
        }
        let mut scored: Vec<(usize, u32)> = Vec::new();
        let mut v: usize = s;
        while v < e
            invariant
                graph.wf(),
                s <= v <= e <= n,
                n == num_nodes,
                scored@.len() == v - s,
                forall|t: int| 0 <= t < scored@.len() ==> ((#[trigger] scored@[t]).1 as int) == s
                    + t,
                forall|t: int|
                    0 <= t < scored@.len() ==> ((#[trigger] scored@[t]).0 as int) == score_spec(
                        *graph,
                        scored@[t].1,
                        s as int,
                        e as int,
                    ),
            decreases e - v,
        {
            let sc = score_of(graph, v as u32, s, e);
            scored.push((sc, v as u32));
            v = v + 1;
        }
        let ranked = sort_desc(scored);
        proof {
            broadcast use vstd::seq_lib::group_to_multiset_ensures;

            assert forall|t: int| 0 <= t < ranked@.len() implies s <= ((#[trigger] ranked@[
            t]).1 as int) < e by {
                assert(ranked@.to_multiset().contains(ranked@[t]));
                assert(scored@.to_multiset().contains(ranked@[t]));
                assert(scored@.contains(ranked@[t]));
                let q = choose|q: int| 0 <= q < scored@.len() && scored@[q] == ranked@[t];
                assert((scored@[q].1 as int) == s + q);
            }
            assert forall|t: int| 0 <= t < ranked@.len() implies ((#[trigger] ranked@[
            t]).0 as int) == score_spec(*graph, ranked@[t].1, s as int, e as int) by {
                assert(ranked@.to_multiset().contains(ranked@[t]));
                assert(scored@.to_multiset().contains(ranked@[t]));
                assert(scored@.contains(ranked@[t]));
                let q = choose|q: int| 0 <= q < scored@.len() && scored@[q] == ranked@[t];
                assert((scored@[q].0 as int) == score_spec(*graph, scored@[q].1, s as int, e as int));
            }
            assert forall|t1: int, t2: int| 0 <= t1 < t2 < ranked@.len() implies (#[trigger] ranked@[
            t1]).1 != (#[trigger] ranked@[t2]).1 by {
                if ranked@[t1].1 == ranked@[t2].1 {
                    assert(ranked@.to_multiset().contains(ranked@[t1]));
                    assert(scored@.contains(ranked@[t1]));
                    assert(ranked@.to_multiset().contains(ranked@[t2]));
                    assert(scored@.contains(ranked@[t2]));
                    let qa = choose|q: int| 0 <= q < scored@.len() && scored@[q] == ranked@[t1];
                    let qb = choose|q: int| 0 <= q < scored@.len() && scored@[q] == ranked@[t2];
                    assert((scored@[qa].1 as int) == s + qa);
                    assert((scored@[qb].1 as int) == s + qb);
                    assert(qa == qb);
                    assert(ranked@[t1] == ranked@[t2]);
                    let dup = ranked@[t1];
                    assert(ranked@.remove(t1).to_multiset() =~= ranked@.to_multiset().remove(dup));
                    assert(ranked@.remove(t1)[t2 - 1] == dup);
                    assert(ranked@.remove(t1).contains(dup));
                    assert(ranked@.remove(t1).to_multiset().contains(dup));
                    assert(scored@.to_multiset().count(dup) >= 2);
                    assert(scored@.contains(dup));
                    let q1 = choose|q: int| 0 <= q < scored@.len() && scored@[q] == dup;
                    assert(scored@.remove(q1).to_multiset() =~= scored@.to_multiset().remove(dup));
                    assert(scored@.remove(q1).to_multiset().contains(dup));
                    assert(scored@.remove(q1).contains(dup));
                    let q2 = choose|q: int|
                        0 <= q < scored@.remove(q1).len() && scored@.remove(q1)[q] == dup;
                    if q2 < q1 {
                        assert(scored@[q2] == dup);
                        assert((scored@[q2].1 as int) == s + q2);
                    } else {
                        assert(scored@[q2 + 1] == dup);
                        assert((scored@[q2 + 1].1 as int) == s + q2 + 1);
                    }
                }
            }
        }
        let ghost out0 = out@;
        let mut t: usize = 0;
        while t < ranked.len()
            invariant
                t <= ranked@.len(),
                out@.len() == out0.len() + t,
                s + ranked@.len() == e,
                e <= n,
                out0.len() == s,
                forall|q: int| 0 <= q < out0.len() ==> ((#[trigger] out0[q]) as int) < s,
                forall|q: int| 0 <= q < ranked@.len() ==> s <= ((#[trigger] ranked@[q]).1 as int)
                    < e,
                forall|q1: int, q2: int| 0 <= q1 < q2 < ranked@.len() ==> (#[trigger] ranked@[
                    q1]).1 != (#[trigger] ranked@[q2]).1,
                forall|q1: int, q2: int| 0 <= q1 <= q2 < ranked@.len() ==> (#[trigger] ranked@[
                    q1]).0 >= (#[trigger] ranked@[q2]).0,
                forall|q: int| 0 <= q < ranked@.len() ==> ((#[trigger] ranked@[q]).0 as int)
                    == score_spec(*graph, ranked@[q].1, s as int, e as int),
                forall|q: int| 0 <= q < out0.len() ==> out@[q] == out0[q],
                forall|q: int| 0 <= q < t ==> out@[out0.len() + q] == ranked@[q].1,
                forall|q: int| 0 <= q < out@.len() ==> ((#[trigger] out@[q]) as int) < e,
                forall|q1: int, q2: int| 0 <= q1 < q2 < out@.len() ==> out@[q1] != out@[q2],
            decreases ranked@.len() - t,
        {
            let pair = ranked[t];
            proof {
                assert forall|q1: int| 0 <= q1 < out@.len() implies out@[q1] != pair.1 by {
                    if q1 < out0.len() {
                        assert((out0[q1] as int) < s);
                        assert(s <= (ranked@[t as int].1 as int));
                    } else {
                        assert(out@[q1] == ranked@[q1 - out0.len()].1);
                        assert(ranked@[q1 - out0.len()].1 != ranked@[t as int].1);
                    }
                }
            }
            out.push(pair.1);
            t = t + 1;
        }
        proof {
            assert(out@.len() == e);
            assert forall|t2: int| s <= t2 < e implies (s <= ((#[trigger] out@[t2]) as int) && ((
            out@[t2]) as int) < e) by {
                assert(out@[out0.len() + (t2 - s)] == ranked@[t2 - s].1);
            }
            assert forall|t1: int, t2: int| s <= t1 <= t2 < e implies score_spec(
                *graph,
                #[trigger] out@[t1],
                s as int,
                e as int,
            ) >= score_spec(*graph, #[trigger] out@[t2], s as int, e as int) by {
                assert(out@[out0.len() + (t1 - s)] == ranked@[t1 - s].1);
                assert(out@[out0.len() + (t2 - s)] == ranked@[t2 - s].1);
                assert(ranked@[t1 - s].0 >= ranked@[t2 - s].0);
                assert((ranked@[t1 - s].0 as int) == score_spec(
                    *graph,
                    ranked@[t1 - s].1,
                    s as int,
                    e as int,
                ));
                assert((ranked@[t2 - s].0 as int) == score_spec(
                    *graph,
                    ranked@[t2 - s].1,
                    s as int,
                    e as int,
                ));
            }
            assert(chunk_ranked(*graph, out@, s as int, e as int));
            assert forall|j: int| 0 <= j < done + 1 implies chunk_ranked(
                *graph,
                out@,
                #[trigger] sched(nn, kk, j).0,
                sched_end(nn, sched(nn, kk, j).1, sched(nn, kk, j).0),
            ) by {
                if j < done {
                    let sj = sched(nn, kk, j).0;
                    let ej = sched_end(nn, sched(nn, kk, j).1, sj);
                    assert(ej <= s);
                    lemma_sched_nonneg(nn, kk, j);
                    assert forall|t2: int| sj <= t2 < ej implies out@[t2] == out0[t2] by {}
                    assert forall|t2: int| sj <= t2 < ej implies (sj <= ((#[trigger] out@[
                    t2]) as int) && ((out@[t2]) as int) < ej) by {
                        assert(out@[t2] == out0[t2]);
                    }
                    assert forall|t1: int, t2: int| sj <= t1 <= t2 < ej implies score_spec(
                        *graph,
                        #[trigger] out@[t1],
                        sj,
                        ej,
                    ) >= score_spec(*graph, #[trigger] out@[t2], sj, ej) by {
                        assert(out@[t1] == out0[t1] && out@[t2] == out0[t2]);
                    }
                } else {
                    assert(sched(nn, kk, j).0 == s as int);
                    assert(sched_end(nn, sched(nn, kk, j).1, sched(nn, kk, j).0) == e as int);
                }
            }
            assert forall|j: int|
                0 <= j < done + 1 implies #[trigger] sched(nn, kk, j).0 < nn && sched_end(
                nn,
                sched(nn, kk, j).1,
                sched(nn, kk, j).0,
            ) <= chunks.start by {
                if j < done {
                    assert(sched_end(nn, sched(nn, kk, j).1, sched(nn, kk, j).0) <= s as int);
                }
            }
            done = done + 1;
        }
    }
    proof {
        assert(chunks.start == n);
        assert forall|j: int|
            0 <= j && #[trigger] sched(nn, kk, j).0 < nn implies chunk_ranked(
            *graph,
            out@,
            sched(nn, kk, j).0,
            sched_end(nn, sched(nn, kk, j).1, sched(nn, kk, j).0),
        ) by {
            if j >= done {
                lemma_sched_stuck(nn, kk, done, j);
            }
        }
    }
    out
}

} // verus!
