//! Mathematical model of the byte-run-length neighbour codec.
//!
//! A neighbour list is a strictly increasing sequence of `u32` targets.
//! Its encoding is a *gap head* for the first target (a signed
//! variable-length delta from the source vertex) followed by *run
//! groups*: runs of up to 64 consecutive deltas that share a byte
//! width, each run preceded by a one-byte header and stored big-endian.

use vstd::prelude::*;

verus! {

/// A well-formed neighbour list: strictly increasing targets.
pub open spec fn strictly_inc(l: Seq<u32>) -> bool {
    forall|i: int, j: int| 0 <= i < j < l.len() ==> l[i] < l[j]
}

/// Absolute difference of source and first target.
pub open spec fn gap_of(source: u32, v: u32) -> nat {
    if v >= source {
        (v - source) as nat
    } else {
        (source - v) as nat
    }
}

/// Continuation bytes of the gap head: little-endian 7-bit chunks,
/// the high bit set on every byte that has a successor.
pub open spec fn tail7(x: nat) -> Seq<u8>
    decreases x,
{
    if x < 128 {
        seq![x as u8]
    } else {
        seq![(x % 128 + 128) as u8] + tail7(x / 128)
    }
}

/// Gap-head bytes for the first target `v` of a list with source `source`.
/// Byte 0 holds the low 6 bits of the gap, a sign flag (0x40) and a
/// continuation flag (0x80); the remaining gap bits follow in `tail7` form.
pub open spec fn head_bytes(source: u32, v: u32) -> Seq<u8> {
    let d = gap_of(source, v);
    let b0 = d % 64 + (if v < source { 64 as nat } else { 0 }) + (if d >= 64 { 128 as nat } else { 0 });
    seq![b0 as u8] + (if d >= 64 { tail7(d / 64) } else { Seq::<u8>::empty() })
}

/// Exclusive upper bound of the deltas stored with byte width `w`.
pub open spec fn bound_of(w: nat) -> int {
    if w == 1 { 0x100 } else if w == 2 { 0x1_0000 } else if w == 3 { 0x100_0000 } else { 0x1_0000_0000 }
}

/// Byte width (1 to 4) of a delta.
pub open spec fn width_of(d: u32) -> nat {
    if d < 0x100 { 1 } else if d < 0x1_0000 { 2 } else if d < 0x100_0000 { 3 } else { 4 }
}

/// Number of leading deltas of `ds` with width `w`, capped at `cap`.
pub open spec fn run_ext(ds: Seq<u32>, w: nat, cap: nat) -> nat
    decreases cap,
{
    if cap == 0 || ds.len() == 0 || width_of(ds[0]) != w {
        0
    } else {
        1 + run_ext(ds.drop_first(), w, (cap - 1) as nat)
    }
}

/// Header byte of a run group: low 2 bits `width - 1`, high 6 bits
/// `run length - 1`.
pub open spec fn header_byte(w: nat, r: nat) -> u8 {
    ((w - 1) + 4 * (r - 1)) as u8
}

/// Big-endian bytes of `d` in width `w`.
pub open spec fn be_bytes(d: nat, w: nat) -> Seq<u8>
    decreases w,
{
    if w == 0 {
        Seq::<u8>::empty()
    } else {
        be_bytes(d / 256, (w - 1) as nat) + seq![(d % 256) as u8]
    }
}

/// Value of a big-endian byte string.
pub open spec fn be_val(b: Seq<u8>) -> nat
    decreases b.len(),
{
    if b.len() == 0 {
        0
    } else {
        be_val(b.drop_last()) * 256 + (b.last() as nat)
    }
}

/// Payload of a run group: each delta in `ds` stored big-endian in `w` bytes.
pub open spec fn payload_bytes(ds: Seq<u32>, w: nat) -> Seq<u8>
    decreases ds.len(),
{
    if ds.len() == 0 {
        Seq::<u8>::empty()
    } else {
        be_bytes(ds[0] as nat, w) + payload_bytes(ds.drop_first(), w)
    }
}

/// Run-group bytes of a delta sequence: greedy runs of up to 64 deltas
/// sharing the width of the run's first delta.
pub open spec fn groups_bytes(ds: Seq<u32>) -> Seq<u8>
    decreases ds.len(),
    via groups_bytes_decreases
{
    if ds.len() == 0 {
        Seq::<u8>::empty()
    } else {
        let w = width_of(ds[0]);
        let r = 1 + run_ext(ds.drop_first(), w, 63);
        seq![header_byte(w, r)] + payload_bytes(ds.take(r as int), w) + groups_bytes(ds.skip(r as int))
    }
}

#[via_fn]
proof fn groups_bytes_decreases(ds: Seq<u32>) {
    if ds.len() != 0 {
        let w = width_of(ds[0]);
        lemma_run_ext_le(ds.drop_first(), w, 63);
    }
}

/// `run_ext` never exceeds its cap nor the sequence length.
pub proof fn lemma_run_ext_le(ds: Seq<u32>, w: nat, cap: nat)
    ensures
        run_ext(ds, w, cap) <= cap,
        run_ext(ds, w, cap) <= ds.len(),
    decreases cap,
{
    if !(cap == 0 || ds.len() == 0 || width_of(ds[0]) != w) {
        lemma_run_ext_le(ds.drop_first(), w, (cap - 1) as nat);
    }
}

/// Every delta inside the run has the run's width; the first delta past
/// the run (if the cap was not reached) has a different width.
pub proof fn lemma_run_ext_chars(ds: Seq<u32>, w: nat, cap: nat)
    ensures
        forall|k: int| 0 <= k < run_ext(ds, w, cap) ==> width_of(ds[k]) == w,
        run_ext(ds, w, cap) < cap && run_ext(ds, w, cap) < ds.len()
            ==> width_of(ds[run_ext(ds, w, cap) as int]) != w,
    decreases cap,
{
    lemma_run_ext_le(ds, w, cap);
    if !(cap == 0 || ds.len() == 0 || width_of(ds[0]) != w) {
        lemma_run_ext_chars(ds.drop_first(), w, (cap - 1) as nat);
        let r = run_ext(ds, w, cap);
        assert forall|k: int| 0 <= k < r implies width_of(ds[k]) == w by {
            if k > 0 {
                assert(width_of(ds.drop_first()[k - 1]) == w);
            }
        }
    }
}

/// `run_ext` equals any count with the same characterisation.
pub proof fn lemma_run_ext_eq(ds: Seq<u32>, w: nat, cap: nat, n: nat)
    requires
        n <= cap,
        n <= ds.len(),
        forall|k: int| 0 <= k < n ==> width_of(ds[k]) == w,
        n < cap && n < ds.len() ==> width_of(ds[n as int]) != w,
    ensures
        run_ext(ds, w, cap) == n,
    decreases cap,
{
    if cap == 0 || ds.len() == 0 || width_of(ds[0]) != w {
        assert(n == 0);
    } else {
        assert(width_of(ds[0]) == w);
        if n == 0 {
            assert(width_of(ds[0]) != w);
        } else {
            assert forall|k: int| 0 <= k < n - 1 implies width_of(ds.drop_first()[k]) == w by {
                assert(width_of(ds[k + 1]) == w);
            }
            lemma_run_ext_eq(ds.drop_first(), w, (cap - 1) as nat, (n - 1) as nat);
        }
    }
}

/// Deltas of a neighbour list: `ds[i] == l[i+1] - l[i]`.
pub open spec fn diffs_of(l: Seq<u32>) -> Seq<u32> {
    if l.len() == 0 {
        Seq::<u32>::empty()
    } else {
        Seq::new((l.len() - 1) as nat, |i: int| (l[i + 1] - l[i]) as u32)
    }
}

/// The full encoding of a neighbour list.
pub open spec fn enc(source: u32, l: Seq<u32>) -> Seq<u8> {
    if l.len() == 0 {
        Seq::<u8>::empty()
    } else {
        head_bytes(source, l[0]) + groups_bytes(diffs_of(l))
    }
}

/// Whether a byte string is the encoding of some neighbour list.
pub open spec fn is_encoding(source: u32, b: Seq<u8>) -> bool {
    exists|l: Seq<u32>| strictly_inc(l) && enc(source, l) == b
}

/// Lengths of the encoding pieces.
pub proof fn lemma_be_bytes_len(d: nat, w: nat)
    ensures
        be_bytes(d, w).len() == w,
    decreases w,
{
    if w > 0 {
        lemma_be_bytes_len(d / 256, (w - 1) as nat);
    }
}

pub proof fn lemma_payload_len(ds: Seq<u32>, w: nat)
    ensures
        payload_bytes(ds, w).len() == ds.len() * w,
    decreases ds.len(),
{
    if ds.len() > 0 {
        lemma_be_bytes_len(ds[0] as nat, w);
        lemma_payload_len(ds.drop_first(), w);
        assert(ds.len() * w == (ds.len() - 1) * w + w) by (nonlinear_arith);
    }
}

/// Big-endian encoding round-trips through `be_val` for deltas in range.
pub proof fn lemma_be_val_inverse(d: nat, w: nat)
    requires
        d < bound_of(w),
        1 <= w <= 4,
    ensures
        be_val(be_bytes(d, w)) == d,
    decreases w,
{
    lemma_be_bytes_len(d, w);
    let b = be_bytes(d, w);
    assert(b.drop_last() =~= be_bytes(d / 256, (w - 1) as nat));
    if w == 1 {
        assert(be_val(b) == be_val(b.drop_last()) * 256 + d % 256);
        assert(be_val(be_bytes(d / 256, 0)) == 0);
    } else {
        assert(d / 256 < bound_of((w - 1) as nat));
        lemma_be_val_inverse(d / 256, (w - 1) as nat);
    }
}

/// Appending payload sequences.
pub proof fn lemma_payload_append(a: Seq<u32>, b: Seq<u32>, w: nat)
    ensures
        payload_bytes(a + b, w) == payload_bytes(a, w) + payload_bytes(b, w),
    decreases a.len(),
{
    if a.len() == 0 {
        assert(a + b =~= b);
        assert(payload_bytes(a, w) + payload_bytes(b, w) =~= payload_bytes(b, w));
    } else {
        assert((a + b).drop_first() =~= a.drop_first() + b);
        lemma_payload_append(a.drop_first(), b, w);
        assert(payload_bytes(a + b, w) =~= payload_bytes(a, w) + payload_bytes(b, w));
    }
}

/// Run groups never compress below one byte per delta.
pub proof fn lemma_groups_len_ge(ds: Seq<u32>)
    ensures
        groups_bytes(ds).len() >= ds.len(),
    decreases ds.len(),
{
    if ds.len() != 0 {
        let w = width_of(ds[0]);
        let r = 1 + run_ext(ds.drop_first(), w, 63);
        lemma_run_ext_le(ds.drop_first(), w, 63);
        lemma_payload_len(ds.take(r as int), w);
        lemma_groups_len_ge(ds.skip(r as int));
        assert(r * w >= r * 1) by (nonlinear_arith)
            requires w >= 1, r >= 0;
    }
}

/// An encoding is at least as long as the list it encodes.
pub proof fn lemma_enc_len_ge(source: u32, l: Seq<u32>)
    ensures
        enc(source, l).len() >= l.len(),
{
    if l.len() > 0 {
        lemma_groups_len_ge(diffs_of(l));
    }
}

/// A delta is in range of its width.
pub proof fn lemma_width_bound(d: u32)
    ensures
        (d as nat) < bound_of(width_of(d)),
        1 <= width_of(d) <= 4,
{
}

/// Splits a run group off a byte suffix: `b[i..]` is a header byte, a
/// payload, and the remaining groups.
pub proof fn lemma_split_group(b: Seq<u8>, i: int, h: u8, p: Seq<u8>, rest: Seq<u8>)
    requires
        0 <= i <= b.len(),
        b.skip(i) == seq![h] + p + rest,
    ensures
        b.len() == i + 1 + p.len() + rest.len(),
        b[i] == h,
        b.subrange(i + 1, i + 1 + p.len() as int) == p,
        b.skip(i + 1 + p.len() as int) == rest,
{
    let whole = seq![h] + p + rest;
    assert(b.skip(i).len() == b.len() - i);
    assert(whole.len() == 1 + p.len() + rest.len());
    assert(b.len() == i + 1 + p.len() + rest.len());
    assert(b[i] == h) by {
        assert(b.skip(i)[0] == b[i]);
        assert(whole[0] == h);
    }
    assert forall|j: int| 0 <= j < p.len() implies b.subrange(
        i + 1,
        i + 1 + p.len() as int,
    )[j] == p[j] by {
        assert(whole[1 + j] == p[j]);
        assert(b.skip(i)[1 + j] == b[i + 1 + j]);
        assert(b.subrange(i + 1, i + 1 + p.len() as int)[j] == b[i + 1 + j]);
    }
    assert(b.subrange(i + 1, i + 1 + p.len() as int) =~= p);
    assert forall|j: int| 0 <= j < rest.len() implies b.skip(i + 1 + p.len() as int)[j]
        == rest[j] by {
        assert(whole[1 + p.len() + j] == rest[j]);
        assert(b.skip(i)[1 + p.len() + j] == b[i + 1 + p.len() + j]);
        assert(b.skip(i + 1 + p.len() as int)[j] == b[i + 1 + p.len() + j]);
    }
    assert(b.skip(i + 1 + p.len() as int) =~= rest);
}

/// The continuation-byte encoding is a prefix code.
proof fn lemma_tail7_prefix(x: nat, y: nat, a: Seq<u8>, b: Seq<u8>)
    requires
        tail7(x) + a == tail7(y) + b,
    ensures
        x == y,
        a == b,
    decreases x,
{
    let ta = tail7(x) + a;
    assert(ta[0] == tail7(x)[0]);
    assert(ta[0] == tail7(y)[0]);
    if x < 128 {
        assert(tail7(y)[0] < 128);
        assert(y < 128);
        assert(x == y);
        assert(a =~= b) by {
            assert forall|j: int| 0 <= j < a.len() implies a[j] == b[j] by {
                assert(ta[1 + j] == a[j]);
                assert((tail7(y) + b)[1 + j] == b[j]);
            }
            assert(ta.len() == (tail7(y) + b).len());
        }
    } else {
        assert(tail7(x)[0] >= 128);
        assert(y >= 128);
        assert(x % 128 == y % 128);
        assert(tail7(x / 128) + a =~= ta.skip(1));
        assert(tail7(y / 128) + b =~= (tail7(y) + b).skip(1));
        lemma_tail7_prefix(x / 128, y / 128, a, b);
        assert(x == x % 128 + 128 * (x / 128));
        assert(y == y % 128 + 128 * (y / 128));
    }
}

/// The gap head is a prefix code: equal byte strings that start with the
/// heads of two first targets force the targets to agree.
proof fn lemma_head_prefix(source: u32, v1: u32, v2: u32, a: Seq<u8>, b: Seq<u8>)
    requires
        head_bytes(source, v1) + a == head_bytes(source, v2) + b,
    ensures
        v1 == v2,
        a == b,
{
    let d1 = gap_of(source, v1);
    let d2 = gap_of(source, v2);
    let h1 = head_bytes(source, v1);
    let h2 = head_bytes(source, v2);
    let c1 = h1 + a;
    let c2 = h2 + b;
    assert(c1[0] == h1[0]);
    assert(c2[0] == h2[0]);
    let b1v = d1 % 64 + (if v1 < source { 64 as nat } else { 0 }) + (if d1 >= 64 { 128 as nat } else { 0 });
    let b2v = d2 % 64 + (if v2 < source { 64 as nat } else { 0 }) + (if d2 >= 64 { 128 as nat } else { 0 });
    assert(b1v <= 255 && b2v <= 255);
    assert(h1[0] as nat == b1v);
    assert(h2[0] as nat == b2v);
    assert(b1v == b2v);
    assert(d1 % 64 == d2 % 64 && (v1 < source) == (v2 < source) && (d1 >= 64) == (d2 >= 64));
    if d1 >= 64 {
        assert(tail7(d1 / 64) + a =~= c1.skip(1));
        assert(tail7(d2 / 64) + b =~= c2.skip(1));
        lemma_tail7_prefix(d1 / 64, d2 / 64, a, b);
        assert(d1 == d1 % 64 + 64 * (d1 / 64));
        assert(d2 == d2 % 64 + 64 * (d2 / 64));
    } else {
        assert(d1 == d2);
        assert(a =~= b) by {
            assert forall|j: int| 0 <= j < a.len() implies a[j] == b[j] by {
                assert(c1[1 + j] == a[j]);
                assert(c2[1 + j] == b[j]);
            }
            assert(c1.len() == c2.len());
        }
    }
    assert(d1 == d2);
    if v1 < source {
        assert(v1 == source - d1 && v2 == source - d2);
    } else {
        assert(v1 == source + d1 && v2 == source + d2);
    }
}

/// Equal payloads of equal width and length carry equal deltas.
proof fn lemma_payload_inj(d1: Seq<u32>, d2: Seq<u32>, w: nat)
    requires
        1 <= w <= 4,
        d1.len() == d2.len(),
        forall|k: int| 0 <= k < d1.len() ==> (d1[k] as nat) < bound_of(w),
        forall|k: int| 0 <= k < d2.len() ==> (d2[k] as nat) < bound_of(w),
        payload_bytes(d1, w) == payload_bytes(d2, w),
    ensures
        d1 == d2,
    decreases d1.len(),
{
    if d1.len() == 0 {
        assert(d1 =~= d2);
    } else {
        let p1 = payload_bytes(d1, w);
        let p2 = payload_bytes(d2, w);
        lemma_be_bytes_len(d1[0] as nat, w);
        lemma_be_bytes_len(d2[0] as nat, w);
        assert(be_bytes(d1[0] as nat, w) =~= p1.subrange(0, w as int));
        assert(be_bytes(d2[0] as nat, w) =~= p2.subrange(0, w as int));
        lemma_be_val_inverse(d1[0] as nat, w);
        lemma_be_val_inverse(d2[0] as nat, w);
        assert(d1[0] == d2[0]);
        assert(payload_bytes(d1.drop_first(), w) =~= p1.skip(w as int));
        assert(payload_bytes(d2.drop_first(), w) =~= p2.skip(w as int));
        assert forall|k: int| 0 <= k < d1.drop_first().len() implies (d1.drop_first()[k] as nat)
            < bound_of(w) by {
            assert(d1[k + 1] == d1.drop_first()[k]);
        }
        assert forall|k: int| 0 <= k < d2.drop_first().len() implies (d2.drop_first()[k] as nat)
            < bound_of(w) by {
            assert(d2[k + 1] == d2.drop_first()[k]);
        }
        lemma_payload_inj(d1.drop_first(), d2.drop_first(), w);
        assert forall|j: int| 0 <= j < d1.len() implies d1[j] == d2[j] by {
            if j > 0 {
                assert(d1.drop_first()[j - 1] == d2.drop_first()[j - 1]);
            }
        }
        assert(d1 =~= d2);
    }
}

/// Run-group encoding is injective on delta sequences.
proof fn lemma_groups_inj(d1: Seq<u32>, d2: Seq<u32>)
    requires
        groups_bytes(d1) == groups_bytes(d2),
    ensures
        d1 == d2,
    decreases d1.len(),
{
    if d1.len() == 0 || d2.len() == 0 {
        lemma_groups_len_ge(d1);
        lemma_groups_len_ge(d2);
        assert(d1.len() == 0 && d2.len() == 0) by {
            if d1.len() > 0 {
                assert(groups_bytes(d1).len() > 0);
            }
            if d2.len() > 0 {
                assert(groups_bytes(d2).len() > 0);
            }
        }
        assert(d1 =~= d2);
    } else {
        let g = groups_bytes(d1);
        let w1 = width_of(d1[0]);
        let r1 = 1 + run_ext(d1.drop_first(), w1, 63);
        let w2 = width_of(d2[0]);
        let r2 = 1 + run_ext(d2.drop_first(), w2, 63);
        let p1 = payload_bytes(d1.take(r1 as int), w1);
        let p2 = payload_bytes(d2.take(r2 as int), w2);
        lemma_run_ext_le(d1.drop_first(), w1, 63);
        lemma_run_ext_le(d2.drop_first(), w2, 63);
        lemma_run_ext_chars(d1.drop_first(), w1, 63);
        lemma_run_ext_chars(d2.drop_first(), w2, 63);
        assert(g[0] == header_byte(w1, r1));
        assert(g[0] == header_byte(w2, r2));
        assert((w1 - 1) + 4 * (r1 - 1) <= 255 && (w2 - 1) + 4 * (r2 - 1) <= 255);
        assert(w1 == w2 && r1 == r2);
        lemma_payload_len(d1.take(r1 as int), w1);
        lemma_payload_len(d2.take(r2 as int), w2);
        assert(p1.len() == p2.len());
        assert(g.skip(0) =~= g);
        lemma_split_group(g, 0, header_byte(w1, r1), p1, groups_bytes(d1.skip(r1 as int)));
        lemma_split_group(g, 0, header_byte(w2, r2), p2, groups_bytes(d2.skip(r2 as int)));
        assert(p1 == p2);
        assert(groups_bytes(d1.skip(r1 as int)) == groups_bytes(d2.skip(r2 as int)));
        assert forall|k: int| 0 <= k < d1.take(r1 as int).len() implies (d1.take(
            r1 as int,
        )[k] as nat) < bound_of(w1) by {
            if k == 0 {
                lemma_width_bound(d1[0]);
            } else {
                assert(width_of(d1.drop_first()[k - 1]) == w1);
                lemma_width_bound(d1[k]);
            }
        }
        assert forall|k: int| 0 <= k < d2.take(r2 as int).len() implies (d2.take(
            r2 as int,
        )[k] as nat) < bound_of(w2) by {
            if k == 0 {
                lemma_width_bound(d2[0]);
            } else {
                assert(width_of(d2.drop_first()[k - 1]) == w2);
                lemma_width_bound(d2[k]);
            }
        }
        lemma_payload_inj(d1.take(r1 as int), d2.take(r2 as int), w1);
        lemma_groups_inj(d1.skip(r1 as int), d2.skip(r2 as int));
        assert(d1 =~= d1.take(r1 as int) + d1.skip(r1 as int));
        assert(d2 =~= d2.take(r2 as int) + d2.skip(r2 as int));
        assert(d1 =~= d2);
    }
}

/// Neighbour lists agree once their first elements and deltas agree.
proof fn lemma_list_from_diffs(l1: Seq<u32>, l2: Seq<u32>, i: int)
    requires
        strictly_inc(l1),
        strictly_inc(l2),
        l1.len() == l2.len(),
        l1.len() > 0,
        l1[0] == l2[0],
        diffs_of(l1) == diffs_of(l2),
        0 <= i < l1.len(),
    ensures
        l1[i] == l2[i],
    decreases i,
{
    if i > 0 {
        lemma_list_from_diffs(l1, l2, i - 1);
        assert(diffs_of(l1)[i - 1] == diffs_of(l2)[i - 1]);
        assert(l1[i - 1] < l1[i]);
        assert(l2[i - 1] < l2[i]);
        let a = l1[i] - l1[i - 1];
        let b = l2[i] - l2[i - 1];
        assert(0 < a < 0x1_0000_0000 && 0 < b < 0x1_0000_0000);
        assert(diffs_of(l1)[i - 1] == a as u32);
        assert(diffs_of(l2)[i - 1] == b as u32);
        assert(a == a as u32 && b == b as u32);
        assert(a == b);
    }
}

/// *Codec round-trip.*  The encoding of a strictly increasing neighbour
/// list is unique to that list, so whatever decoding returns for
/// `enc(source, l)` under the decoder's contract is `l` itself, and the
/// count of `enc(source, l)` is `l.len()`.
pub proof fn lemma_enc_injective(source: u32, l1: Seq<u32>, l2: Seq<u32>)
    requires
        strictly_inc(l1),
        strictly_inc(l2),
        enc(source, l1) == enc(source, l2),
    ensures
        l1 == l2,
{
    if l1.len() == 0 || l2.len() == 0 {
        assert(l1.len() == 0 && l2.len() == 0) by {
            if l1.len() > 0 {
                assert(enc(source, l1).len() >= head_bytes(source, l1[0]).len());
            }
            if l2.len() > 0 {
                assert(enc(source, l2).len() >= head_bytes(source, l2[0]).len());
            }
        }
        assert(l1 =~= l2);
    } else {
        lemma_head_prefix(
            source,
            l1[0],
            l2[0],
            groups_bytes(diffs_of(l1)),
            groups_bytes(diffs_of(l2)),
        );
        lemma_groups_inj(diffs_of(l1), diffs_of(l2));
        assert(diffs_of(l1).len() == diffs_of(l2).len());
        assert(l1.len() == l2.len());
        assert forall|i: int| 0 <= i < l1.len() implies l1[i] == l2[i] by {
            lemma_list_from_diffs(l1, l2, i);
        }
        assert(l1 =~= l2);
    }
}

/// *Gap-head sign.*  For a single-target list, the encoding is the gap
/// head alone, and its first byte carries the sign flag exactly when
/// the target lies below the source.
pub proof fn lemma_gap_head_sign(source: u32, v: u32)
    ensures
        enc(source, seq![v]) == head_bytes(source, v),
        ((enc(source, seq![v])[0] as int) / 64 % 2 == 1) <==> v < source,
{
    let l = seq![v];
    assert(diffs_of(l) =~= Seq::<u32>::empty());
    assert(enc(source, l) =~= head_bytes(source, v));
    let d = gap_of(source, v);
    let b0 = d % 64 + (if v < source {
        64 as nat
    } else {
        0
    }) + (if d >= 64 {
        128 as nat
    } else {
        0
    });
    assert(b0 <= 255);
    assert(head_bytes(source, v)[0] as nat == b0);
    if v < source {
        assert(d > 0);
    }
}

/// *Width classification.*  Encoding the 64 consecutive targets
/// `source + 1 .. source + 64` yields a one-byte gap head, then exactly
/// one run group: a header declaring 63 width-1 deltas and 63 payload
/// bytes that all hold the delta 1.
pub proof fn lemma_width_classification(source: u32)
    requires
        source + 64 <= u32::MAX,
    ensures
        ({
            let l = Seq::new(64, |i: int| (source + 1 + i) as u32);
            let b = enc(source, l);
            &&& b.len() == 65
            &&& b[0] == 1u8
            &&& b[1] == header_byte(1, 63)
            &&& forall|j: int| 2 <= j < 65 ==> b[j] == 1u8
        }),
{
    let l = Seq::new(64, |i: int| (source + 1 + i) as u32);
    let ds = diffs_of(l);
    assert(ds.len() == 63);
    assert forall|i: int| 0 <= i < 63 implies ds[i] == 1u32 by {
        assert(l[i + 1] == (source + 2 + i) as u32);
        assert(l[i] == (source + 1 + i) as u32);
    }
    assert(head_bytes(source, l[0]) =~= seq![1u8]) by {
        assert(gap_of(source, l[0]) == 1);
    }
    assert(width_of(ds[0]) == 1);
    assert forall|k: int| 0 <= k < 62 implies width_of(ds.drop_first()[k]) == 1 by {
        assert(ds.drop_first()[k] == ds[k + 1]);
    }
    lemma_run_ext_eq(ds.drop_first(), 1, 63, 62);
    let r = 1 + run_ext(ds.drop_first(), 1, 63);
    assert(r == 63);
    assert(ds.skip(63) =~= Seq::<u32>::empty());
    let pay = payload_bytes(ds.take(63), 1);
    lemma_payload_len(ds.take(63), 1);
    assert(pay.len() == 63);
    assert forall|j: int| 0 <= j < 63 implies pay[j] == 1u8 by {
        crate::codec::lemma_payload_ones(ds.take(63), j);
    }
    let b = enc(source, l);
    assert(groups_bytes(ds) == seq![header_byte(1, 63)] + payload_bytes(ds.take(63), 1)
        + groups_bytes(ds.skip(63)));
    assert(groups_bytes(ds.skip(63)) =~= Seq::<u8>::empty());
    assert(b =~= seq![1u8] + (seq![header_byte(1, 63)] + pay + Seq::<u8>::empty()));
    assert(b.len() == 65);
    assert(b[0] == 1u8);
    assert(b[1] == header_byte(1, 63));
    assert forall|j: int| 2 <= j < 65 implies b[j] == 1u8 by {
        assert(b[j] == pay[j - 2]);
    }
}

/// In a payload of width-1 deltas that all equal 1, every byte is 1.
proof fn lemma_payload_ones(ds: Seq<u32>, j: int)
    requires
        forall|i: int| 0 <= i < ds.len() ==> ds[i] == 1u32,
        0 <= j < ds.len(),
    ensures
        payload_bytes(ds, 1).len() == ds.len(),
        payload_bytes(ds, 1)[j] == 1u8,
    decreases j,
{
    lemma_payload_len(ds, 1);
    reveal_with_fuel(be_bytes, 2);
    assert(be_bytes(ds[0] as nat, 1) =~= seq![1u8]);
    if j == 0 {
        assert(payload_bytes(ds, 1)[0] == 1u8);
    } else {
        assert forall|i: int| 0 <= i < ds.drop_first().len() implies ds.drop_first()[i]
            == 1u32 by {
            assert(ds.drop_first()[i] == ds[i + 1]);
        }
        lemma_payload_ones(ds.drop_first(), j - 1);
        assert(payload_bytes(ds, 1)[j] == payload_bytes(ds.drop_first(), 1)[j - 1]);
    }
}

} // verus!
