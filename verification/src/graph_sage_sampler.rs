//! Layered neighbourhood sampler for mini-batch training.
//!
//! Each layer draws up to `k` neighbours of every frontier vertex by
//! uniform reservoir sampling, then renumbers the layer's vertices:
//! inputs first, in order, then newly seen samples in first-seen order.

use vstd::prelude::*;

use crate::builder::seq_sum;
use crate::codec::strictly_inc;
use crate::csr::CSR;

verus! {

/// One sampled bipartite layer: per-edge local destination and source
/// ids, and the (frontier, input) sizes.
pub struct Adj {
    pub src: Vec<u32>,
    pub dst: Vec<u32>,
    pub size: (usize, usize),
}

/// A layer is well formed when its edge lists agree in length and every
/// local id is below the corresponding side of `size`.
pub open spec fn adj_wf(a: Adj) -> bool {
    &&& a.src@.len() == a.dst@.len()
    &&& a.size.1 <= a.size.0
    &&& forall|t: int|
        0 <= t < a.src@.len() ==> ((#[trigger] a.src@[t]) as int) < a.size.0 && (a.dst@[t] as int)
            < a.size.1
}

/// Relies on rand's `Rng::gen_range` over the thread-local generator:
/// some value below the bound.
#[verifier::external_body]
fn random_below(n: usize) -> (r: usize)
    requires
        n > 0,
    ensures
        r < n,
{
    rand::Rng::gen_range(&mut rand::thread_rng(), 0..n)
}

/// Whether `r` was drawn from `items` without replacement: each entry
/// comes from its own stream position.
pub open spec fn drawn_from(items: Seq<u32>, r: Seq<u32>, pos: Seq<int>) -> bool {
    &&& pos.len() == r.len()
    &&& forall|t: int| 0 <= t < pos.len() ==> 0 <= #[trigger] pos[t] < items.len()
    &&& forall|t1: int, t2: int| 0 <= t1 < t2 < pos.len() ==> pos[t1] != pos[t2]
    &&& forall|t: int| 0 <= t < r.len() ==> #[trigger] r[t] == items[pos[t]]
}

/// Draws a uniform reservoir sample of up to `k` of the given items.
///
/// *Reservoir bounds.*  The result has `min(k, len)` entries drawn from
/// pairwise distinct stream positions (sampling without replacement);
/// when `k` covers the whole list, the list comes back unchanged.
pub fn reservoir_sample(items: &Vec<u32>, k: usize) -> (r: Vec<u32>)
    ensures
        r@.len() == (if k <= items@.len() {
            k as int
        } else {
            items@.len() as int
        }),
        forall|t: int| 0 <= t < r@.len() ==> items@.contains(#[trigger] r@[t]),
        exists|pos: Seq<int>| #[trigger] drawn_from(items@, r@, pos),
        k >= items@.len() ==> r@ == items@,
{
    let mut r: Vec<u32> = Vec::new();
    let ghost mut pos: Seq<int> = Seq::empty();
    let mut i: usize = 0;
    while i < items.len() && i < k
        invariant
            i <= items@.len(),
            i <= k,
            r@.len() == i,
            i < k || i == k,
            (i == items@.len() || i == k) || (i < items@.len() && i < k),
            forall|t: int| 0 <= t < r@.len() ==> items@.contains(#[trigger] r@[t]),
            pos == Seq::new(i as nat, |t: int| t),
            r@ == items@.take(i as int),
        decreases items@.len() - i,
    {
        proof {
            assert(items@.contains(items@[i as int]));
        }
        r.push(items[i]);
        proof {
            pos = pos.push(i as int);
            assert(pos =~= Seq::new((i + 1) as nat, |t: int| t));
            assert(r@ =~= items@.take(i + 1));
        }
        i = i + 1;
    }
    while i < items.len()
        invariant
            i <= items@.len(),
            r@.len() == (if k <= items@.len() {
                k as int
            } else {
                items@.len() as int
            }),
            i >= k || i == items@.len(),
            forall|t: int| 0 <= t < r@.len() ==> items@.contains(#[trigger] r@[t]),
            pos.len() == r@.len(),
            k >= items@.len() ==> r@ == items@.take(items@.len() as int),
            forall|t: int| 0 <= t < pos.len() ==> 0 <= #[trigger] pos[t] < i,
            forall|t1: int, t2: int| 0 <= t1 < t2 < pos.len() ==> pos[t1] != pos[t2],
            forall|t: int| 0 <= t < r@.len() ==> #[trigger] r@[t] == items@[pos[t]],
        decreases items@.len() - i,
    {
        let j = random_below(i + 1);
        if j < k {
            proof {
                assert(items@.contains(items@[i as int]));
            }
            r.set(j, items[i]);
            proof {
                pos = pos.update(j as int, i as int);
            }
        }
        i = i + 1;
    }
    proof {
        if k >= items@.len() {
            assert(r@ =~= items@);
        }
        assert(drawn_from(items@, r@, pos));
    }
    r
}

/// Entries drawn without replacement from a strictly increasing list
/// are pairwise distinct.
pub proof fn lemma_drawn_distinct(items: Seq<u32>, r: Seq<u32>, pos: Seq<int>)
    requires
        strictly_inc(items),
        drawn_from(items, r, pos),
    ensures
        forall|t1: int, t2: int| 0 <= t1 < t2 < r.len() ==> r[t1] != r[t2],
{
    assert forall|t1: int, t2: int| 0 <= t1 < t2 < r.len() implies r[t1] != r[t2] by {
        assert(pos[t1] != pos[t2]);
        if pos[t1] < pos[t2] {
            assert(items[pos[t1]] < items[pos[t2]]);
        } else {
            assert(items[pos[t2]] < items[pos[t1]]);
        }
    }
}

/// The value bound to `key`, taking the latest binding.
pub open spec fn assoc_spec(m: Seq<(u32, u32)>, key: u32) -> Option<u32>
    decreases m.len(),
{
    if m.len() == 0 {
        None
    } else if m.last().0 == key {
        Some(m.last().1)
    } else {
        assoc_spec(m.drop_last(), key)
    }
}

/// Looks `key` up in the binding list, latest binding first.
fn assoc_get(m: &Vec<(u32, u32)>, key: u32) -> (r: Option<u32>)
    ensures
        r == assoc_spec(m@, key),
{
    let mut i: usize = m.len();
    proof {
        assert(m@.take(m@.len() as int) =~= m@);
    }
    while i > 0
        invariant
            i <= m@.len(),
            assoc_spec(m@, key) == assoc_spec(m@.take(i as int), key),
        decreases i,
    {
        i = i - 1;
        let p = m[i];
        proof {
            assert(m@.take(i + 1).last() == m@[i as int]);
            assert(m@.take(i + 1).drop_last() =~= m@.take(i as int));
        }
        if p.0 == key {
            return Some(p.1);
        }
    }
    proof {
        assert(m@.take(0) =~= Seq::<(u32, u32)>::empty());
    }
    None
}

/// Byte offset of row `i` inside the concatenated sample output.
pub open spec fn row_start(counts: Seq<usize>, i: int) -> int {
    seq_sum(counts.take(i))
}

proof fn lemma_seq_sum_step(v: Seq<usize>, i: int)
    requires
        0 <= i < v.len(),
    ensures
        seq_sum(v.take(i + 1)) == seq_sum(v.take(i)) + v[i],
{
    assert(v.take(i + 1).drop_last() =~= v.take(i));
    assert(v.take(i + 1).last() == v[i]);
}

proof fn lemma_seq_sum_le(v: Seq<usize>, i: int, j: int)
    requires
        0 <= i <= j <= v.len(),
    ensures
        seq_sum(v.take(i)) <= seq_sum(v.take(j)),
    decreases j - i,
{
    if i < j {
        lemma_seq_sum_le(v, i, j - 1);
        lemma_seq_sum_step(v, j - 1);
    }
}

/// A binding list is consistent with a frontier when every bound id
/// names the frontier slot that holds its key.
pub open spec fn bindings_ok(m: Seq<(u32, u32)>, f: Seq<u32>) -> bool {
    forall|t: int|
        0 <= t < m.len() ==> (((#[trigger] m[t]).1 as int) < f.len() && f[m[t].1 as int] == m[t].0)
}

/// A looked-up binding really is in the list.
proof fn lemma_assoc_binding(m: Seq<(u32, u32)>, key: u32)
    ensures
        assoc_spec(m, key) matches Some(id) ==> exists|t: int|
            0 <= t < m.len() && (#[trigger] m[t]) == (key, id),
        assoc_spec(m, key) is None ==> forall|t: int| 0 <= t < m.len() ==> (#[trigger] m[t]).0
            != key,
    decreases m.len(),
{
    if m.len() > 0 {
        lemma_assoc_binding(m.drop_last(), key);
        if m.last().0 == key {
            assert(m[m.len() - 1] == (key, m.last().1));
        } else {
            match assoc_spec(m, key) {
                Some(idv) => {
                    let t = choose|t: int|
                        0 <= t < m.drop_last().len() && (#[trigger] m.drop_last()[t]) == (
                        key,
                        idv,
                    );
                    assert(m[t] == (key, idv));
                },
                None => {},
            }
            assert forall|t: int| assoc_spec(m, key) is None && 0 <= t < m.len() implies (
            #[trigger] m[t]).0 != key by {
                if t < m.len() - 1 {
                    assert(m.drop_last()[t].0 != key);
                }
            }
        }
    }
}

/// Appending one binding changes lookups of that key only.
proof fn lemma_assoc_push(m: Seq<(u32, u32)>, p: (u32, u32), key: u32)
    ensures
        assoc_spec(m.push(p), key) == (if p.0 == key {
            Some(p.1)
        } else {
            assoc_spec(m, key)
        }),
{
    assert(m.push(p).drop_last() =~= m);
    assert(m.push(p).last() == p);
}

/// Whether an input vertex is bound to a local id below the input count.
pub open spec fn input_binding_ok(m: Seq<(u32, u32)>, inputs: Seq<u32>, i: int) -> bool {
    match assoc_spec(m, inputs[i]) {
        Some(val) => (val as int) < inputs.len(),
        None => false,
    }
}

/// Whether the frontier holds `v` past its first `n` slots.
pub open spec fn tail_has(f: Seq<u32>, n: int, v: u32) -> bool {
    exists|t: int| n <= t < f.len() && f[t] == v
}

/// Index of the first occurrence of `v`.
pub open spec fn first_occ(s: Seq<u32>, v: u32) -> int
    decreases s.len(),
{
    if s.len() == 0 {
        0
    } else if s[0] == v {
        0
    } else {
        1 + first_occ(s.drop_first(), v)
    }
}

proof fn lemma_first_occ_at(s: Seq<u32>, v: u32, j: int)
    requires
        0 <= j < s.len(),
        s[j] == v,
        forall|j2: int| 0 <= j2 < j ==> s[j2] != v,
    ensures
        first_occ(s, v) == j,
    decreases j,
{
    if j > 0 {
        assert(s[0] != v);
        assert(s.drop_first()[j - 1] == v);
        assert forall|j2: int| 0 <= j2 < j - 1 implies s.drop_first()[j2] != v by {
            assert(s[j2 + 1] != v);
        }
        lemma_first_occ_at(s.drop_first(), v, j - 1);
    }
}

/// Renumbers one sampled layer.
///
/// Inputs receive consecutive local ids in input order; each sampled
/// output not yet seen receives the next id.  Returns the frontier (the
/// vertex behind each local id) and the per-edge local destination and
/// source ids.
fn reindex(inputs: &Vec<u32>, outputs: &Vec<u32>, output_counts: &Vec<usize>) -> (r: (
    Vec<u32>,
    Vec<u32>,
    Vec<u32>,
))
    requires
        output_counts@.len() == inputs@.len(),
        seq_sum(output_counts@) == outputs@.len(),
        inputs@.len() + outputs@.len() <= 0xFFFF_FFFF,
    ensures
        inputs@.len() <= r.0@.len() <= inputs@.len() + outputs@.len(),
        r.0@.take(inputs@.len() as int) == inputs@,
        r.1@.len() == outputs@.len(),
        r.2@.len() == outputs@.len(),
        forall|t: int| 0 <= t < outputs@.len() ==> ((#[trigger] r.1@[t]) as int) < inputs@.len(),
        forall|t: int|
            0 <= t < outputs@.len() ==> ((#[trigger] r.2@[t]) as int) < r.0@.len() && r.0@[r.2@[
                t] as int] == outputs@[t],
        forall|i: int, t: int|
            0 <= i < inputs@.len() && #[trigger] row_start(output_counts@, i) <= t < row_start(
                output_counts@,
                i + 1,
            ) && 0 <= t < outputs@.len() ==> r.0@[(#[trigger] r.1@[t]) as int] == inputs@[i],
        forall|t: int|
            inputs@.len() <= t < r.0@.len() ==> outputs@.contains(#[trigger] r.0@[t])
                && !inputs@.contains(r.0@[t]),
        forall|t1: int, t2: int|
            inputs@.len() <= t1 < t2 < r.0@.len() ==> #[trigger] r.0@[t1] != #[trigger] r.0@[t2]
                && first_occ(outputs@, r.0@[t1]) < first_occ(outputs@, r.0@[t2]),
        forall|j: int|
            0 <= j < outputs@.len() && !inputs@.contains(#[trigger] outputs@[j]) ==> tail_has(
                r.0@,
                inputs@.len() as int,
                outputs@[j],
            ),
{
    let mut map: Vec<(u32, u32)> = Vec::new();
    let mut frontier: Vec<u32> = Vec::new();
    let mut i: usize = 0;
    while i < inputs.len()
        invariant
            i <= inputs@.len(),
            inputs@.len() + outputs@.len() <= 0xFFFF_FFFF,
            frontier@ == inputs@.take(i as int),
            map@.len() == i,
            forall|t: int| 0 <= t < i ==> (#[trigger] map@[t]) == (inputs@[t], t as u32),
        decreases inputs@.len() - i,
    {
        map.push((inputs[i], i as u32));
        frontier.push(inputs[i]);
        proof {
            assert(frontier@ =~= inputs@.take(i + 1));
        }
        i = i + 1;
    }
    proof {
        assert(inputs@.take(inputs@.len() as int) =~= inputs@);
        assert forall|t: int| 0 <= t < inputs@.len() implies input_binding_ok(
            map@,
            inputs@,
            t,
        ) by {
            lemma_assoc_binding(map@, inputs@[t]);
            if assoc_spec(map@, inputs@[t]) is None {
                assert(map@[t].0 == inputs@[t]);
            }
            match assoc_spec(map@, inputs@[t]) {
                Some(idv) => {
                    let tt = choose|tt: int|
                        0 <= tt < map@.len() && (#[trigger] map@[tt]) == (inputs@[t], idv);
                    assert(idv == tt as u32);
                },
                None => {},
            }
        }
    }
    let ghost n = inputs@.len() as int;
    proof {
        // before any output is processed, a key is bound exactly when it
        // is an input
        assert forall|v: u32| (#[trigger] assoc_spec(map@, v)) is Some <==> inputs@.contains(v)
            || tail_has(frontier@, n, v) by {
            lemma_assoc_binding(map@, v);
            match assoc_spec(map@, v) {
                Some(idv) => {
                    let tt = choose|tt: int| 0 <= tt < map@.len() && (#[trigger] map@[tt]) == (
                    v,
                    idv,
                    );
                    assert(map@[tt] == (inputs@[tt], tt as u32));
                    assert(inputs@[tt] == v);
                },
                None => {
                    if inputs@.contains(v) {
                        let tt = choose|tt: int| 0 <= tt < inputs@.len() && inputs@[tt] == v;
                        assert(input_binding_ok(map@, inputs@, tt));
                    }
                },
            }
        }
    }
    let mut j: usize = 0;
    while j < outputs.len()
        invariant
            j <= outputs@.len(),
            n == inputs@.len(),
            inputs@.len() + outputs@.len() <= 0xFFFF_FFFF,
            inputs@.len() <= frontier@.len() <= inputs@.len() + j,
            map@.len() == frontier@.len(),
            frontier@.take(inputs@.len() as int) == inputs@,
            bindings_ok(map@, frontier@),
            forall|t: int| 0 <= t < inputs@.len() ==> input_binding_ok(map@, inputs@, t),
            forall|t: int| 0 <= t < j ==> assoc_spec(map@, #[trigger] outputs@[t]) is Some,
            forall|v: u32|
                (#[trigger] assoc_spec(map@, v)) is Some <==> inputs@.contains(v) || tail_has(
                    frontier@,
                    n,
                    v,
                ),
            forall|t: int|
                n <= t < frontier@.len() ==> !inputs@.contains(#[trigger] frontier@[t])
                    && outputs@.take(j as int).contains(frontier@[t]) && 0 <= first_occ(
                    outputs@,
                    frontier@[t],
                ) < j,
            forall|t1: int, t2: int|
                n <= t1 < t2 < frontier@.len() ==> first_occ(outputs@, #[trigger] frontier@[t1])
                    < first_occ(outputs@, #[trigger] frontier@[t2]),
            forall|j2: int|
                0 <= j2 < j && !inputs@.contains(#[trigger] outputs@[j2]) ==> tail_has(
                    frontier@,
                    n,
                    outputs@[j2],
                ),
        decreases outputs@.len() - j,
    {
        let key = outputs[j];
        match assoc_get(&map, key) {
            Some(_) => {
                proof {
                    assert(assoc_spec(map@, outputs@[j as int]) is Some);
                    assert forall|t: int| n <= t < frontier@.len() implies !inputs@.contains(
                        #[trigger] frontier@[t],
                    ) && outputs@.take(j + 1).contains(frontier@[t]) && 0 <= first_occ(
                        outputs@,
                        frontier@[t],
                    ) < j + 1 by {
                        let j2 = choose|j2: int|
                            0 <= j2 < j && outputs@.take(j as int)[j2] == frontier@[t];
                        assert(outputs@.take(j + 1)[j2] == frontier@[t]);
                    }
                }
            },
            None => {
                let ghost m0 = map@;
                let ghost f0 = frontier@;
                map.push((key, frontier.len() as u32));
                frontier.push(key);
                proof {
                    assert(!inputs@.contains(key) && !tail_has(f0, n, key)) by {
                        assert(assoc_spec(m0, key) is None);
                    }
                    assert forall|t: int| 0 <= t < map@.len() implies (((#[trigger] map@[
                    t]).1 as int) < frontier@.len() && frontier@[map@[t].1 as int] == map@[
                        t].0) by {
                        if t < m0.len() {
                            assert(map@[t] == m0[t]);
                            assert(frontier@[m0[t].1 as int] == f0[m0[t].1 as int]);
                        } else {
                            assert(map@[t] == (key, f0.len() as u32));
                        }
                    }
                    assert(frontier@.take(inputs@.len() as int) =~= f0.take(
                        inputs@.len() as int,
                    ));
                    assert forall|t: int| 0 <= t < inputs@.len() implies input_binding_ok(
                        map@,
                        inputs@,
                        t,
                    ) by {
                        lemma_assoc_push(m0, (key, f0.len() as u32), inputs@[t]);
                        assert(input_binding_ok(m0, inputs@, t));
                        assert(key != inputs@[t]) by {
                            if key == inputs@[t] {
                                assert(inputs@.contains(key));
                            }
                        }
                    }
                    assert forall|t: int| 0 <= t <= j implies assoc_spec(
                        map@,
                        #[trigger] outputs@[t],
                    ) is Some by {
                        lemma_assoc_push(m0, (key, f0.len() as u32), outputs@[t]);
                    }
                    // the new key occurs in the outputs for the first time here
                    assert forall|j2: int| 0 <= j2 < j implies outputs@[j2] != key by {
                        if outputs@[j2] == key {
                            assert(tail_has(f0, n, outputs@[j2]));
                        }
                    }
                    lemma_first_occ_at(outputs@, key, j as int);
                    assert forall|t: int| n <= t < frontier@.len() implies !inputs@.contains(
                        #[trigger] frontier@[t],
                    ) && outputs@.take(j + 1).contains(frontier@[t]) && 0 <= first_occ(
                        outputs@,
                        frontier@[t],
                    ) < j + 1 by {
                        if t < f0.len() {
                            assert(frontier@[t] == f0[t]);
                            let j2 = choose|j2: int|
                                0 <= j2 < j && outputs@.take(j as int)[j2] == f0[t];
                            assert(outputs@.take(j + 1)[j2] == f0[t]);
                        } else {
                            assert(frontier@[t] == key);
                            assert(outputs@.take(j + 1)[j as int] == key);
                        }
                    }
                    assert forall|t1: int, t2: int| n <= t1 < t2 < frontier@.len() implies
                        first_occ(outputs@, #[trigger] frontier@[t1]) < first_occ(
                        outputs@,
                        #[trigger] frontier@[t2],
                    ) by {
                        if t2 < f0.len() {
                            assert(frontier@[t1] == f0[t1] && frontier@[t2] == f0[t2]);
                        } else {
                            assert(frontier@[t2] == key);
                            assert(frontier@[t1] == f0[t1]);
                            assert(first_occ(outputs@, f0[t1]) < j);
                        }
                    }
                    assert forall|v: u32|
                        (#[trigger] assoc_spec(map@, v)) is Some <==> inputs@.contains(v)
                            || tail_has(frontier@, n, v) by {
                        lemma_assoc_push(m0, (key, f0.len() as u32), v);
                        if v == key {
                            assert(frontier@[f0.len() as int] == key);
                            assert(tail_has(frontier@, n, v));
                        } else {
                            if tail_has(frontier@, n, v) {
                                let t = choose|t: int|
                                    n <= t < frontier@.len() && frontier@[t] == v;
                                assert(t < f0.len());
                                assert(f0[t] == v);
                                assert(tail_has(f0, n, v));
                            }
                            if tail_has(f0, n, v) {
                                let t = choose|t: int| n <= t < f0.len() && f0[t] == v;
                                assert(frontier@[t] == v);
                                assert(tail_has(frontier@, n, v));
                            }
                        }
                    }
                    assert forall|j2: int|
                        0 <= j2 <= j && !inputs@.contains(#[trigger] outputs@[j2]) implies
                        tail_has(frontier@, n, outputs@[j2]) by {
                        if j2 < j {
                            let t = choose|t: int| n <= t < f0.len() && f0[t] == outputs@[j2];
                            assert(frontier@[t] == outputs@[j2]);
                        } else {
                            assert(frontier@[f0.len() as int] == key);
                        }
                    }
                }
            },
        }
        proof {
            assert(assoc_spec(map@, outputs@[j as int]) is Some);
            if !inputs@.contains(outputs@[j as int]) {
                assert(tail_has(frontier@, n, outputs@[j as int]));
            }
        }
        j = j + 1;
    }
    proof {
        assert(outputs@.take(outputs@.len() as int) =~= outputs@);
        assert forall|t: int| n <= t < frontier@.len() implies outputs@.contains(
            #[trigger] frontier@[t],
        ) by {
            let j2 = choose|j2: int|
                0 <= j2 < outputs@.len() && outputs@.take(outputs@.len() as int)[j2]
                    == frontier@[t];
            assert(outputs@[j2] == frontier@[t]);
        }
        assert forall|t1: int, t2: int| n <= t1 < t2 < frontier@.len() implies #[trigger]
            frontier@[t1] != #[trigger] frontier@[t2] by {
            assert(first_occ(outputs@, frontier@[t1]) < first_occ(outputs@, frontier@[t2]));
        }
    }
    let mut row_idx: Vec<u32> = Vec::new();
    let mut col_idx: Vec<u32> = Vec::new();
    let mut cnt: usize = 0;
    let mut r: usize = 0;
    let total = outputs.len();
    proof {
        assert(output_counts@.take(0) =~= Seq::<usize>::empty());
    }
    while r < inputs.len()
        invariant
            r <= inputs@.len() == output_counts@.len(),
            inputs@.len() <= frontier@.len(),
            frontier@.take(inputs@.len() as int) == inputs@,
            bindings_ok(map@, frontier@),
            forall|t: int| 0 <= t < inputs@.len() ==> input_binding_ok(map@, inputs@, t),
            forall|t: int| 0 <= t < outputs@.len() ==> assoc_spec(map@, #[trigger] outputs@[t])
                is Some,
            seq_sum(output_counts@) == outputs@.len(),
            total == outputs@.len(),
            cnt == row_start(output_counts@, r as int),
            0 <= cnt <= outputs@.len(),
            row_idx@.len() == cnt,
            col_idx@.len() == cnt,
            forall|t: int| 0 <= t < cnt ==> ((#[trigger] row_idx@[t]) as int) < inputs@.len(),
            forall|t: int|
                0 <= t < cnt ==> ((#[trigger] col_idx@[t]) as int) < frontier@.len() && frontier@[
                    col_idx@[t] as int] == outputs@[t],
            forall|i2: int, t: int|
                0 <= i2 < r && #[trigger] row_start(output_counts@, i2) <= t < row_start(
                    output_counts@,
                    i2 + 1,
                ) && 0 <= t < cnt ==> frontier@[(#[trigger] row_idx@[t]) as int] == inputs@[i2],
        decreases inputs@.len() - r,
    {
        let dst_id = match assoc_get(&map, inputs[r]) {
            Some(val) => val,
            None => {
                proof {
                    assert(input_binding_ok(map@, inputs@, r as int));
                }
                0
            },
        };
        proof {
            assert((dst_id as int) < inputs@.len()) by {
                assert(input_binding_ok(map@, inputs@, r as int));
            }
            lemma_assoc_binding(map@, inputs@[r as int]);
            let tt = choose|tt: int|
                0 <= tt < map@.len() && (#[trigger] map@[tt]) == (inputs@[r as int], dst_id);
            assert(frontier@[dst_id as int] == inputs@[r as int]);
            lemma_seq_sum_step(output_counts@, r as int);
            lemma_seq_sum_le(output_counts@, r + 1, output_counts@.len() as int);
            assert(output_counts@.take(output_counts@.len() as int) =~= output_counts@);
        }
        let mut c: usize = 0;
        let k_row = output_counts[r];
        while c < k_row
            invariant
                c <= k_row,
                r < inputs@.len() == output_counts@.len(),
                k_row == output_counts@[r as int],
                inputs@.len() <= frontier@.len(),
                bindings_ok(map@, frontier@),
                forall|t: int|
                    0 <= t < outputs@.len() ==> assoc_spec(map@, #[trigger] outputs@[t]) is Some,
                cnt == row_start(output_counts@, r as int) + c,
                row_start(output_counts@, r as int) + k_row == row_start(
                    output_counts@,
                    r + 1,
                ),
                row_start(output_counts@, r + 1) <= outputs@.len(),
                total == outputs@.len(),
                0 <= row_start(output_counts@, r as int),
                (dst_id as int) < inputs@.len(),
                frontier@[dst_id as int] == inputs@[r as int],
                row_idx@.len() == cnt,
                col_idx@.len() == cnt,
                forall|t: int| 0 <= t < cnt ==> ((#[trigger] row_idx@[t]) as int) < inputs@.len(),
                forall|t: int|
                    0 <= t < cnt ==> ((#[trigger] col_idx@[t]) as int) < frontier@.len()
                        && frontier@[col_idx@[t] as int] == outputs@[t],
                forall|i2: int, t: int|
                    0 <= i2 < r && #[trigger] row_start(output_counts@, i2) <= t < row_start(
                        output_counts@,
                        i2 + 1,
                    ) && 0 <= t < cnt ==> frontier@[(#[trigger] row_idx@[t]) as int] == inputs@[
                        i2],
                forall|t: int|
                    row_start(output_counts@, r as int) <= t < cnt ==> frontier@[(
                    #[trigger] row_idx@[t]) as int] == inputs@[r as int],
            decreases k_row - c,
        {
            let src_id = match assoc_get(&map, outputs[cnt]) {
                Some(val) => val,
                None => {
                    proof {
                        assert(assoc_spec(map@, outputs@[cnt as int]) is Some);
                    }
                    0
                },
            };
            proof {
                lemma_assoc_binding(map@, outputs@[cnt as int]);
                let tt = choose|tt: int|
                    0 <= tt < map@.len() && (#[trigger] map@[tt]) == (outputs@[cnt as int], src_id);
                assert((src_id as int) < frontier@.len() && frontier@[src_id as int] == outputs@[
                    cnt as int]);
            }
            proof {
                assert forall|i2: int| 0 <= i2 < r implies #[trigger] row_start(
                    output_counts@,
                    i2 + 1,
                ) <= row_start(output_counts@, r as int) by {
                    lemma_seq_sum_le(output_counts@, i2 + 1, r as int);
                }
            }
            row_idx.push(dst_id);
            col_idx.push(src_id);
            cnt = cnt + 1;
            c = c + 1;
        }
        r = r + 1;
    }
    proof {
        assert(cnt == outputs@.len()) by {
            assert(output_counts@.take(output_counts@.len() as int) =~= output_counts@);
        }
    }
    (frontier, row_idx, col_idx)
}

/// Number of samples owed for row `i`: the fan-out capped by the degree.
pub open spec fn row_demand(g: CSR, inputs: Seq<u32>, k: int, i: int) -> int {
    if k <= g.nbrs_of(inputs[i] as int).len() {
        k
    } else {
        g.nbrs_of(inputs[i] as int).len() as int
    }
}

/// Total number of samples owed for the rows below `i`.
pub open spec fn demand(g: CSR, inputs: Seq<u32>, k: int, i: int) -> int
    decreases i,
{
    if i <= 0 {
        0
    } else {
        demand(g, inputs, k, i - 1) + row_demand(g, inputs, k, i - 1)
    }
}

proof fn lemma_demand_eq(g: CSR, inputs: Seq<u32>, k: int, counts: Seq<usize>, i: int)
    requires
        counts.len() == inputs.len(),
        forall|t: int|
            0 <= t < counts.len() ==> (#[trigger] counts[t]) == row_demand(g, inputs, k, t),
        0 <= i <= counts.len(),
    ensures
        row_start(counts, i) == demand(g, inputs, k, i),
    decreases i,
{
    if i > 0 {
        lemma_demand_eq(g, inputs, k, counts, i - 1);
        lemma_seq_sum_step(counts, i - 1);
    } else {
        assert(counts.take(0) =~= Seq::<usize>::empty());
    }
}

proof fn lemma_demand_total(g: CSR, inputs: Seq<u32>, k: int, cnt: Seq<usize>)
    requires
        cnt.len() == inputs.len(),
        forall|t: int| 0 <= t < cnt.len() ==> (#[trigger] cnt[t]) == row_demand(g, inputs, k, t),
    ensures
        seq_sum(cnt) == demand(g, inputs, k, inputs.len() as int),
{
    lemma_demand_eq(g, inputs, k, cnt, cnt.len() as int);
    assert(cnt.take(cnt.len() as int) =~= cnt);
}

/// How one layer relates its input frontier, fan-out, emitted `Adj` and
/// next frontier: every row `i` contributes exactly
/// `min(k, degree(inputs[i]))` edges, each pairing the local id of
/// `inputs[i]` with the local id of one of its sampled neighbours.  A
/// layer too large for 32-bit local ids is left empty.
pub open spec fn layer_rel(g: CSR, inputs: Seq<u32>, k: int, a: Adj, frontier: Seq<u32>) -> bool {
    if inputs.len() + demand(g, inputs, k, inputs.len() as int) <= 0xFFFF_FFFF {
        &&& a.size.1 == inputs.len()
        &&& a.size.0 == frontier.len()
        &&& inputs.len() <= frontier.len()
        &&& frontier.take(inputs.len() as int) == inputs
        &&& a.dst@.len() == demand(g, inputs, k, inputs.len() as int)
        &&& a.src@.len() == a.dst@.len()
        &&& forall|i: int, t: int|
            0 <= i < inputs.len() && #[trigger] demand(g, inputs, k, i) <= t < demand(
                g,
                inputs,
                k,
                i + 1,
            ) && 0 <= t < a.dst@.len() ==> (((#[trigger] a.dst@[t]) as int) < inputs.len()
                && frontier[a.dst@[t] as int] == inputs[i] && ((a.src@[t] as int) < frontier.len())
                && g.nbrs_of(inputs[i] as int).contains(frontier[a.src@[t] as int]))
        &&& forall|t: int|
            inputs.len() <= t < frontier.len() ==> (!inputs.contains(#[trigger] frontier[t])
                && exists|t2: int| 0 <= t2 < a.src@.len() && ((#[trigger] a.src@[t2]) as int) == t)
        &&& forall|t1: int, t2: int|
            inputs.len() <= t1 < t2 < frontier.len() ==> #[trigger] frontier[t1] != #[trigger] frontier[t2]
    } else {
        &&& a.src@.len() == 0
        &&& a.dst@.len() == 0
        &&& a.size.0 == inputs.len()
        &&& a.size.1 == inputs.len()
        &&& frontier == inputs
    }
}

proof fn lemma_layer_rel_full(
    g: CSR,
    inputs: Seq<u32>,
    k: int,
    cnt: Seq<usize>,
    out: Seq<u32>,
    frontier: Seq<u32>,
    a: Adj,
)
    requires
        a.size.1 == inputs.len(),
        a.size.0 == frontier.len(),
        cnt.len() == inputs.len(),
        forall|t: int| 0 <= t < cnt.len() ==> (#[trigger] cnt[t]) == row_demand(g, inputs, k, t),
        seq_sum(cnt) == out.len(),
        forall|i: int, t: int|
            0 <= i < inputs.len() && #[trigger] row_start(cnt, i) <= t < row_start(cnt, i + 1) && 0
                <= t < out.len() ==> g.nbrs_of(inputs[i] as int).contains(#[trigger] out[t]),
        inputs.len() <= frontier.len(),
        frontier.take(inputs.len() as int) == inputs,
        a.dst@.len() == out.len(),
        a.src@.len() == out.len(),
        forall|t: int| 0 <= t < out.len() ==> ((#[trigger] a.dst@[t]) as int) < inputs.len(),
        forall|t: int|
            0 <= t < out.len() ==> ((#[trigger] a.src@[t]) as int) < frontier.len() && frontier[
                a.src@[t] as int] == out[t],
        forall|i: int, t: int|
            0 <= i < inputs.len() && #[trigger] row_start(cnt, i) <= t < row_start(cnt, i + 1) && 0
                <= t < out.len() ==> frontier[(#[trigger] a.dst@[t]) as int] == inputs[i],
        forall|t: int|
            inputs.len() <= t < frontier.len() ==> out.contains(#[trigger] frontier[t])
                && !inputs.contains(frontier[t]),
        forall|t1: int, t2: int|
            inputs.len() <= t1 < t2 < frontier.len() ==> #[trigger] frontier[t1]
                != #[trigger] frontier[t2],
        inputs.len() + out.len() <= 0xFFFF_FFFF,
    ensures
        layer_rel(g, inputs, k, a, frontier),
{
    assert forall|i2: int| 0 <= i2 <= cnt.len() implies #[trigger] row_start(cnt, i2) == demand(
        g,
        inputs,
        k,
        i2,
    ) by {
        lemma_demand_eq(g, inputs, k, cnt, i2);
    }
    lemma_demand_total(g, inputs, k, cnt);
    assert(a.dst@.len() == demand(g, inputs, k, inputs.len() as int));
    assert forall|i2: int, t: int|
        0 <= i2 < inputs.len() && #[trigger] demand(g, inputs, k, i2) <= t < demand(
            g,
            inputs,
            k,
            i2 + 1,
        ) && 0 <= t < a.dst@.len() implies (((#[trigger] a.dst@[t]) as int) < inputs.len()
        && frontier[a.dst@[t] as int] == inputs[i2] && ((a.src@[t] as int) < frontier.len())
        && g.nbrs_of(inputs[i2] as int).contains(frontier[a.src@[t] as int])) by {
        assert(row_start(cnt, i2) == demand(g, inputs, k, i2));
        assert(row_start(cnt, i2 + 1) == demand(g, inputs, k, i2 + 1));
        assert(frontier[a.src@[t] as int] == out[t]);
        assert(g.nbrs_of(inputs[i2] as int).contains(out[t]));
    }
    assert forall|t: int|
        inputs.len() <= t < frontier.len() implies (!inputs.contains(#[trigger] frontier[t])
        && exists|t2: int| 0 <= t2 < a.src@.len() && ((#[trigger] a.src@[t2]) as int) == t) by {
        let v = frontier[t];
        assert(out.contains(v));
        let j2 = choose|j2: int| 0 <= j2 < out.len() && out[j2] == v;
        assert(frontier[a.src@[j2] as int] == out[j2]);
        let slot = a.src@[j2] as int;
        assert(frontier[slot] == v);
        assert(slot >= inputs.len()) by {
            if slot < inputs.len() {
                assert(frontier.take(inputs.len() as int)[slot] == inputs[slot]);
                assert(inputs.contains(v));
            }
        }
        assert(slot == t) by {
            if slot != t {
                assert(frontier[slot] != frontier[t]);
            }
        }
    }
    assert(layer_rel(g, inputs, k, a, frontier));
}

/// What `sample` returns: a chain of frontiers starting at the seeds
/// and ending at the returned nodes, with the layers (listed deepest
/// hop first) each related to their frontier pair by `layer_rel`.
pub open spec fn sample_post(
    g: CSR,
    sizes: Seq<usize>,
    seeds: Seq<u32>,
    fronts: Seq<Seq<u32>>,
    nodes: Seq<u32>,
    adjs: Seq<Adj>,
) -> bool {
    &&& fronts.len() == sizes.len() + 1
    &&& fronts[0] == seeds
    &&& fronts.last() == nodes
    &&& adjs.len() == sizes.len()
    &&& forall|l: int|
        0 <= l < sizes.len() ==> layer_rel(
            g,
            fronts[l],
            sizes[l] as int,
            #[trigger] adjs[sizes.len() - 1 - l],
            fronts[l + 1],
        )
}

/// Reservoir-samples a fixed fan-out of neighbours per hop and
/// renumbers each layer for message passing.
pub struct GraphSageSampler<'a> {
    csr: &'a CSR,
    sizes: Vec<usize>,
}

impl<'a> GraphSageSampler<'a> {
    /// The fan-out schedule.
    pub closed spec fn sizes_view(self) -> Seq<usize> {
        self.sizes@
    }

    /// The sampled graph.
    pub closed spec fn graph(self) -> CSR {
        *self.csr
    }

    pub open spec fn wf(self) -> bool {
        self.graph().wf()
    }

    /// A sampler over `csr` with the given per-hop fan-outs.
    pub fn new(csr: &'a CSR, sizes: Vec<usize>) -> (r: GraphSageSampler<'a>)
        requires
            csr.wf(),
        ensures
            r.wf(),
            r.sizes_view() == sizes@,
            r.graph() == *csr,
    {
        GraphSageSampler { csr, sizes }
    }

    /// Samples up to `k` neighbours of every input vertex.
    ///
    /// Row `i` of the output holds `min(k, degree(inputs[i]))`
    /// neighbours of `inputs[i]`, concatenated in input order.
    fn sample_kernel(&self, inputs: &Vec<u32>, k: usize) -> (r: (Vec<u32>, Vec<usize>))
        requires
            self.wf(),
        ensures
            r.1@.len() == inputs@.len(),
            forall|i: int|
                0 <= i < inputs@.len() ==> (#[trigger] r.1@[i]) == (if k <= self.graph().nbrs_of(
                    inputs@[i] as int,
                ).len() {
                    k as int
                } else {
                    self.graph().nbrs_of(inputs@[i] as int).len() as int
                }),
            seq_sum(r.1@) == r.0@.len(),
            forall|i: int, t: int|
                0 <= i < inputs@.len() && #[trigger] row_start(r.1@, i) <= t < row_start(r.1@, i + 1)
                    && 0 <= t < r.0@.len() ==> self.graph().nbrs_of(inputs@[i] as int).contains(
                    #[trigger] r.0@[t],
                ),
            forall|i: int, t1: int, t2: int|
                0 <= i < inputs@.len() && #[trigger] row_start(r.1@, i) <= t1 < t2 < row_start(
                    r.1@,
                    i + 1,
                ) && 0 <= t1 && t2 < r.0@.len() ==> #[trigger] r.0@[t1] != #[trigger] r.0@[t2],
    {
        let mut outs: Vec<u32> = Vec::new();
        let mut counts: Vec<usize> = Vec::new();
        let mut i: usize = 0;
        proof {
            assert(counts@.take(0) =~= Seq::<usize>::empty());
        }
        while i < inputs.len()
            invariant
                self.wf(),
                i <= inputs@.len(),
                counts@.len() == i,
                forall|t: int|
                    0 <= t < i ==> (#[trigger] counts@[t]) == (if k <= self.graph().nbrs_of(
                        inputs@[t] as int,
                    ).len() {
                        k as int
                    } else {
                        self.graph().nbrs_of(inputs@[t] as int).len() as int
                    }),
                seq_sum(counts@) == outs@.len(),
                forall|i2: int, t: int|
                    0 <= i2 < i && #[trigger] row_start(counts@, i2) <= t < row_start(
                        counts@,
                        i2 + 1,
                    ) && 0 <= t < outs@.len() ==> self.graph().nbrs_of(inputs@[i2] as int).contains(
                        #[trigger] outs@[t],
                    ),
                forall|i2: int, t1: int, t2: int|
                    0 <= i2 < i && #[trigger] row_start(counts@, i2) <= t1 < t2 < row_start(
                        counts@,
                        i2 + 1,
                    ) && 0 <= t1 && t2 < outs@.len() ==> #[trigger] outs@[t1] != #[trigger] outs@[
                        t2],
            decreases inputs@.len() - i,
        {
            let nbrs = self.csr.adj(inputs[i]);
            let ns = reservoir_sample(&nbrs, k);
            proof {
                assert(strictly_inc(nbrs@)) by {
                    if !(0 <= inputs@[i as int] as int && (inputs@[i as int] as int)
                        < self.graph().order_spec()) {
                        assert(nbrs@ =~= Seq::<u32>::empty());
                    }
                }
                let pos = choose|pos: Seq<int>| #[trigger] drawn_from(nbrs@, ns@, pos);
                lemma_drawn_distinct(nbrs@, ns@, pos);
            }
            let ghost outs0 = outs@;
            let ghost counts0 = counts@;
            let mut t: usize = 0;
            while t < ns.len()
                invariant
                    t <= ns@.len(),
                    outs@ == outs0 + ns@.take(t as int),
                    nbrs@ == self.graph().nbrs_of(inputs@[i as int] as int),
                    forall|q: int| 0 <= q < ns@.len() ==> nbrs@.contains(#[trigger] ns@[q]),
                decreases ns@.len() - t,
            {
                outs.push(ns[t]);
                proof {
                    assert(outs@ =~= outs0 + ns@.take(t + 1));
                }
                t = t + 1;
            }
            proof {
                assert(ns@.take(ns@.len() as int) =~= ns@);
            }
            counts.push(ns.len());
            proof {
                assert(counts@.take(i as int) =~= counts0);
                assert(counts@.take(i + 1) =~= counts@);
                lemma_seq_sum_step(counts@, i as int);
                assert(seq_sum(counts@) == outs@.len());
                assert forall|i2: int, t2: int|
                    0 <= i2 < i + 1 && #[trigger] row_start(counts@, i2) <= t2 < row_start(
                        counts@,
                        i2 + 1,
                    ) && 0 <= t2 < outs@.len() implies self.graph().nbrs_of(
                    inputs@[i2] as int,
                ).contains(#[trigger] outs@[t2]) by {
                    assert(counts@.take(i2) =~= counts0.take(i2));
                    if i2 < i {
                        assert(counts@.take(i2 + 1) =~= counts0.take(i2 + 1));
                        assert(row_start(counts0, i2) <= t2 < row_start(counts0, i2 + 1));
                        lemma_seq_sum_le(counts0, i2 + 1, counts0.len() as int);
                        assert(counts0.take(counts0.len() as int) =~= counts0);
                        assert(outs@[t2] == outs0[t2]);
                    } else {
                        assert(row_start(counts@, i2) == outs0.len());
                        assert(outs@[t2] == ns@[t2 - outs0.len()]);
                        assert(nbrs@.contains(ns@[t2 - outs0.len()]));
                    }
                }
                assert forall|i2: int, t1: int, t2: int|
                    0 <= i2 < i + 1 && #[trigger] row_start(counts@, i2) <= t1 < t2 < row_start(
                        counts@,
                        i2 + 1,
                    ) && 0 <= t1 && t2 < outs@.len() implies #[trigger] outs@[t1] != #[trigger] outs@[
                    t2] by {
                    assert(counts@.take(i2) =~= counts0.take(i2));
                    if i2 < i {
                        assert(counts@.take(i2 + 1) =~= counts0.take(i2 + 1));
                        assert(row_start(counts0, i2) <= t1 < t2 < row_start(counts0, i2 + 1));
                        lemma_seq_sum_le(counts0, i2 + 1, counts0.len() as int);
                        assert(counts0.take(counts0.len() as int) =~= counts0);
                        assert(outs@[t1] == outs0[t1] && outs@[t2] == outs0[t2]);
                    } else {
                        assert(row_start(counts@, i2) == outs0.len());
                        assert(outs@[t1] == ns@[t1 - outs0.len()]);
                        assert(outs@[t2] == ns@[t2 - outs0.len()]);
                    }
                }
            }
            i = i + 1;
        }
        (outs, counts)
    }

    /// Runs one sampling layer per fan-out, renumbering each layer, and
    /// returns the final frontier, the batch size, and the layers from
    /// the deepest hop inward.
    #[verifier::rlimit(100)]
    pub fn sample(&self, input_nodes: &Vec<u32>) -> (r: (Vec<u32>, usize, Vec<Adj>))
        requires
            self.wf(),
        ensures
            r.1 == input_nodes@.len(),
            r.2@.len() == self.sizes_view().len(),
            r.0@.len() >= input_nodes@.len(),
            r.0@.take(input_nodes@.len() as int) == input_nodes@,
            forall|l: int| 0 <= l < r.2@.len() ==> adj_wf(#[trigger] r.2@[l]),
            r.2@.len() > 0 ==> r.2@[r.2@.len() - 1].size.1 == input_nodes@.len(),
            r.2@.len() > 0 ==> r.2@[0].size.0 == r.0@.len(),
            forall|l: int|
                0 <= l && l + 1 < r.2@.len() ==> (#[trigger] r.2@[l]).size.1 == r.2@[l
                    + 1].size.0,
            exists|fronts: Seq<Seq<u32>>|
                #[trigger] sample_post(
                    self.graph(),
                    self.sizes_view(),
                    input_nodes@,
                    fronts,
                    r.0@,
                    r.2@,
                ),
    {
        let batch_size = input_nodes.len();
        let mut nodes: Vec<u32> = Vec::new();
        let mut i: usize = 0;
        while i < input_nodes.len()
            invariant
                i <= input_nodes@.len(),
                nodes@ == input_nodes@.take(i as int),
            decreases input_nodes@.len() - i,
        {
            nodes.push(input_nodes[i]);
            proof {
                assert(nodes@ =~= input_nodes@.take(i + 1));
            }
            i = i + 1;
        }
        proof {
            assert(input_nodes@.take(input_nodes@.len() as int) =~= input_nodes@);
            assert(nodes@.take(input_nodes@.len() as int) =~= input_nodes@);
        }
        let mut adjs: Vec<Adj> = Vec::new();
        let ghost mut fronts: Seq<Seq<u32>> = seq![input_nodes@];
        let mut l: usize = 0;
        while l < self.sizes.len()
            invariant
                self.wf(),
                l <= self.sizes_view().len(),
                adjs@.len() == l,
                nodes@.len() >= input_nodes@.len(),
                nodes@.take(input_nodes@.len() as int) == input_nodes@,
                forall|l2: int| 0 <= l2 < l ==> adj_wf(#[trigger] adjs@[l2]),
                l > 0 ==> adjs@[l - 1].size.0 == nodes@.len(),
                l == 0 ==> nodes@.len() == input_nodes@.len(),
                adjs@.len() > 0 ==> adjs@[0].size.1 == input_nodes@.len(),
                forall|i: int|
                    0 <= i && i + 1 < l ==> (#[trigger] adjs@[i]).size.0 == adjs@[i + 1].size.1,
                fronts.len() == l + 1,
                fronts[0] == input_nodes@,
                fronts[fronts.len() - 1] == nodes@,
                forall|l2: int|
                    0 <= l2 < l ==> layer_rel(
                        self.graph(),
                        fronts[l2],
                        self.sizes_view()[l2] as int,
                        #[trigger] adjs@[l2],
                        fronts[l2 + 1],
                    ),
            decreases self.sizes_view().len() - l,
        {
            let k = self.sizes[l];
            let (out, cnt) = self.sample_kernel(&nodes, k);
            let ghost pre = adjs@;
            let ghost head_nodes = nodes@;
            let ghost fronts0 = fronts;
            proof {
                lemma_demand_total(self.graph(), head_nodes, k as int, cnt@);
                assert(out@.len() == demand(
                    self.graph(),
                    head_nodes,
                    k as int,
                    head_nodes.len() as int,
                ));
            }
            let lim: usize = 0xFFFF_FFFF;
            if nodes.len() > lim || out.len() > lim - nodes.len() {
                // a layer this large cannot be renumbered with 32-bit
                // local ids; keep the frontier and emit an empty layer
                let size = (nodes.len(), nodes.len());
                adjs.push(Adj { src: Vec::new(), dst: Vec::new(), size });
                proof {
                    fronts = fronts.push(nodes@);
                    assert(head_nodes.len() + demand(
                        self.graph(),
                        head_nodes,
                        k as int,
                        head_nodes.len() as int,
                    ) > 0xFFFF_FFFF);
                    assert(layer_rel(self.graph(), head_nodes, k as int, adjs@[l as int], nodes@));
                }
            } else {
                let (frontier, dst, src) = reindex(&nodes, &out, &cnt);
                let size = (frontier.len(), nodes.len());
                proof {
                    assert(frontier@.take(nodes@.len() as int).take(input_nodes@.len() as int)
                        =~= frontier@.take(input_nodes@.len() as int));
                }
                adjs.push(Adj { src, dst, size });
                proof {
                    assert(adj_wf(adjs@[l as int]));
                    fronts = fronts.push(frontier@);
                    lemma_layer_rel_full(
                        self.graph(),
                        head_nodes,
                        k as int,
                        cnt@,
                        out@,
                        frontier@,
                        adjs@[l as int],
                    );
                }
                nodes = frontier;
            }
            proof {
                assert forall|l2: int| 0 <= l2 < l + 1 implies adj_wf(#[trigger] adjs@[l2]) by {
                    if l2 < l {
                        assert(adjs@[l2] == pre[l2]);
                        assert(adj_wf(pre[l2]));
                    }
                }
                assert(adjs@[l as int].size.1 == head_nodes.len());
                assert(adjs@[l as int].size.0 == nodes@.len());
                assert forall|i: int| 0 <= i && i + 1 < l + 1 implies (#[trigger] adjs@[i]).size.0
                    == adjs@[i + 1].size.1 by {
                    if i + 1 < l {
                        assert(adjs@[i] == pre[i] && adjs@[i + 1] == pre[i + 1]);
                    } else {
                        assert(adjs@[i] == pre[i]);
                        assert(pre[i].size.0 == head_nodes.len());
                    }
                }
                if l == 0 {
                    assert(adjs@[0].size.1 == input_nodes@.len());
                } else {
                    assert(adjs@[0] == pre[0]);
                }
                assert(fronts[fronts.len() - 1] == nodes@);
                assert forall|l2: int| 0 <= l2 < l + 1 implies layer_rel(
                    self.graph(),
                    fronts[l2],
                    self.sizes_view()[l2] as int,
                    #[trigger] adjs@[l2],
                    fronts[l2 + 1],
                ) by {
                    if l2 < l {
                        assert(adjs@[l2] == pre[l2]);
                        assert(fronts[l2] == fronts0[l2] && fronts[l2 + 1] == fronts0[l2 + 1]);
                    } else {
                        assert(fronts[l2] == head_nodes && fronts[l2 + 1] == nodes@);
                    }
                }
            }
            l = l + 1;
        }
        let mut rev: Vec<Adj> = Vec::new();
        let ghost fwd = adjs@;
        while adjs.len() > 0
            invariant
                rev@.len() + adjs@.len() == fwd.len(),
                adjs@ == fwd.take(adjs@.len() as int),
                forall|l2: int| 0 <= l2 < rev@.len() ==> #[trigger] rev@[l2] == fwd[fwd.len() - 1
                    - l2],
                forall|l2: int| 0 <= l2 < fwd.len() ==> adj_wf(#[trigger] fwd[l2]),
                fwd.len() > 0 ==> fwd[0].size.1 == input_nodes@.len(),
                fwd.len() > 0 ==> fwd[fwd.len() - 1].size.0 == nodes@.len(),
                forall|i: int| 0 <= i && i + 1 < fwd.len() ==> (#[trigger] fwd[i]).size.0 == fwd[
                    i + 1].size.1,
                nodes@.len() >= input_nodes@.len(),
                nodes@.take(input_nodes@.len() as int) == input_nodes@,
            decreases adjs@.len(),
        {
            let ghost pre = adjs@;
            let a = match adjs.pop() {
                Some(a) => a,
                None => {
                    proof {
                        assert(false);
                    }
                    Adj { src: Vec::new(), dst: Vec::new(), size: (0, 0) }
                },
            };
            proof {
                assert(a == pre.last());
                assert(pre.last() == fwd[pre.len() - 1]);
                assert(adjs@ =~= fwd.take(adjs@.len() as int));
            }
            rev.push(a);
        }
        proof {
            if fwd.len() > 0 {
                assert(rev@[fwd.len() - 1] == fwd[0]);
                assert(rev@[0] == fwd[fwd.len() - 1]);
            }
            assert forall|l2: int| 0 <= l2 && l2 + 1 < rev@.len() implies (#[trigger] rev@[
            l2]).size.1 == rev@[l2 + 1].size.0 by {
                assert(rev@[l2] == fwd[fwd.len() - 1 - l2]);
                assert(rev@[l2 + 1] == fwd[fwd.len() - 2 - l2]);
                assert(fwd[fwd.len() - 2 - l2].size.0 == fwd[fwd.len() - 1 - l2].size.1);
            }
            let sizes = self.sizes_view();
            assert forall|l2: int| 0 <= l2 < sizes.len() implies layer_rel(
                self.graph(),
                fronts[l2],
                sizes[l2] as int,
                #[trigger] rev@[sizes.len() - 1 - l2],
                fronts[l2 + 1],
            ) by {
                assert(rev@[sizes.len() - 1 - l2] == fwd[fwd.len() - 1 - (sizes.len() - 1 - l2)]);
                assert(fwd.len() == sizes.len());
                assert(rev@[sizes.len() - 1 - l2] == fwd[l2]);
            }
            assert(sample_post(
                self.graph(),
                self.sizes_view(),
                input_nodes@,
                fronts,
                nodes@,
                rev@,
            ));
        }
        let r = (nodes, batch_size, rev);
        proof {
            assert(sample_post(
                self.graph(),
                self.sizes_view(),
                input_nodes@,
                fronts,
                r.0@,
                r.2@,
            ));
        }
        r
    }
}

} // verus!
