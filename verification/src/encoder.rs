//! Executable encoder for the byte-run-length neighbour codec.

use vstd::prelude::*;

use crate::codec::{
    bound_of, diffs_of, enc, groups_bytes, head_bytes, header_byte, lemma_payload_append,
    lemma_run_ext_eq, payload_bytes, be_bytes, strictly_inc, tail7, width_of,
};

verus! {

/// Appends the gap-head continuation bytes for `x`.
fn push_tail7(bytes: &mut Vec<u8>, x: u32)
    ensures
        final(bytes)@ == old(bytes)@ + tail7(x as nat),
    decreases x,
{
    if x < 128 {
        bytes.push(x as u8);
        assert(bytes@ =~= old(bytes)@ + tail7(x as nat));
    } else {
        bytes.push((x % 128 + 128) as u8);
        push_tail7(bytes, x / 128);
        assert(bytes@ =~= old(bytes)@ + tail7(x as nat));
    }
}

/// Appends the gap head for first target `v` relative to `source`.
fn push_head(bytes: &mut Vec<u8>, source: u32, v: u32)
    ensures
        final(bytes)@ == old(bytes)@ + head_bytes(source, v),
{
    let d: u32 = if v >= source {
        v - source
    } else {
        source - v
    };
    let mut b0: u8 = (d % 64) as u8;
    if v < source {
        b0 = b0 + 64;
    }
    if d >= 64 {
        b0 = b0 + 128;
    }
    bytes.push(b0);
    if d >= 64 {
        push_tail7(bytes, d / 64);
    }
    assert(bytes@ =~= old(bytes)@ + head_bytes(source, v));
}

/// Byte width of a delta.
fn width_u32(d: u32) -> (r: usize)
    ensures
        r == width_of(d),
{
    if d < 0x100 {
        1
    } else if d < 0x1_0000 {
        2
    } else if d < 0x100_0000 {
        3
    } else {
        4
    }
}

/// Appends `d` big-endian in `w` bytes.
fn push_be(bytes: &mut Vec<u8>, d: u32, w: usize)
    requires
        1 <= w <= 4,
        (d as nat) < bound_of(w as nat),
    ensures
        final(bytes)@ == old(bytes)@ + be_bytes(d as nat, w as nat),
{
    if w == 1 {
        bytes.push(d as u8);
        proof {
            reveal_with_fuel(be_bytes, 5);
            assert(bytes@ =~= old(bytes)@ + be_bytes(d as nat, 1));
        }
    } else if w == 2 {
        bytes.push((d / 0x100) as u8);
        bytes.push((d % 0x100) as u8);
        proof {
            reveal_with_fuel(be_bytes, 5);
            assert(d / 0x100 < 0x100) by (nonlinear_arith)
                requires d < 0x1_0000;
            assert(bytes@ =~= old(bytes)@ + be_bytes(d as nat, 2));
        }
    } else if w == 3 {
        bytes.push((d / 0x1_0000) as u8);
        bytes.push((d / 0x100 % 0x100) as u8);
        bytes.push((d % 0x100) as u8);
        proof {
            reveal_with_fuel(be_bytes, 5);
            assert(d / 0x1_0000 < 0x100) by (nonlinear_arith)
                requires d < 0x100_0000;
            assert(d as nat / 0x100 / 0x100 == d as nat / 0x1_0000) by (nonlinear_arith);
            assert(bytes@ =~= old(bytes)@ + be_bytes(d as nat, 3));
        }
    } else {
        bytes.push((d / 0x100_0000) as u8);
        bytes.push((d / 0x1_0000 % 0x100) as u8);
        bytes.push((d / 0x100 % 0x100) as u8);
        bytes.push((d % 0x100) as u8);
        proof {
            reveal_with_fuel(be_bytes, 5);
            assert(d / 0x100_0000 < 0x100) by (nonlinear_arith)
                requires d < 0x1_0000_0000;
            assert(d as nat / 0x100 / 0x100 == d as nat / 0x1_0000) by (nonlinear_arith);
            assert(d as nat / 0x1_0000 / 0x100 == d as nat / 0x100_0000) by (nonlinear_arith);
            assert(bytes@ =~= old(bytes)@ + be_bytes(d as nat, 4));
        }
    }
}

/// Appends the run groups of the delta suffix `ds[start..]`.
fn push_groups(bytes: &mut Vec<u8>, ds: &Vec<u32>, start: usize)
    requires
        start <= ds@.len(),
    ensures
        final(bytes)@ == old(bytes)@ + groups_bytes(ds@.skip(start as int)),
    decreases ds@.len() - start,
{
    let ghost base = bytes@;
    if start == ds.len() {
        assert(bytes@ =~= base + groups_bytes(ds@.skip(start as int)));
        return;
    }
    let d0 = ds[start];
    let w = width_u32(d0);
    let mut j = start + 1;
    while j < ds.len() && j - start < 64 && width_u32(ds[j]) == w
        invariant
            start < j <= ds@.len(),
            j - start <= 64,
            w == width_of(ds@[start as int]),
            forall|k: int| start <= k < j ==> width_of(ds@[k]) == w,
        decreases ds@.len() - j,
    {
        j = j + 1;
    }
    let run = j - start;
    let ghost tail = ds@.skip(start as int);
    proof {
        assert forall|k: int| 0 <= k < run - 1 implies width_of(tail.drop_first()[k]) == width_of(d0) by {
            assert(width_of(ds@[start + 1 + k]) == w);
        }
        if run - 1 < 63 && run - 1 < tail.drop_first().len() {
            assert(tail.drop_first()[run - 1] == ds@[j as int]);
        }
        lemma_run_ext_eq(tail.drop_first(), width_of(d0), 63, (run - 1) as nat);
    }
    bytes.push(((w - 1) + 4 * (run - 1)) as u8);
    assert(bytes@ =~= base + seq![header_byte(w as nat, run as nat)]);
    let ghost base2 = bytes@;
    let mut t = start;
    while t < j
        invariant
            start <= t <= j <= ds@.len(),
            w == width_of(ds@[start as int]),
            1 <= w <= 4,
            forall|k: int| start <= k < j ==> width_of(ds@[k]) == w,
            bytes@ == base2 + payload_bytes(ds@.subrange(start as int, t as int), w as nat),
        decreases j - t,
    {
        proof {
            assert(width_of(ds@[t as int]) == w);
        }
        push_be(bytes, ds[t], w);
        proof {
            let pre = ds@.subrange(start as int, t as int);
            lemma_payload_append(pre, seq![ds@[t as int]], w as nat);
            reveal_with_fuel(payload_bytes, 2);
            assert(pre + seq![ds@[t as int]] =~= ds@.subrange(start as int, t + 1));
            assert(payload_bytes(seq![ds@[t as int]], w as nat)
                =~= be_bytes(ds@[t as int] as nat, w as nat));
        }
        t = t + 1;
    }
    push_groups(bytes, ds, j);
    proof {
        assert(tail.take(run as int) =~= ds@.subrange(start as int, j as int));
        assert(tail.skip(run as int) =~= ds@.skip(j as int));
        assert(groups_bytes(tail) == seq![header_byte(w as nat, run as nat)]
            + payload_bytes(tail.take(run as int), w as nat) + groups_bytes(tail.skip(run as int)));
        assert(bytes@ =~= base + groups_bytes(tail));
    }
}

/// Encodes a strictly increasing neighbour list of `source` onto `bytes`.
///
/// The appended bytes are exactly the model encoding `enc`.
pub fn encode(bytes: &mut Vec<u8>, source: u32, targets: &Vec<u32>)
    requires
        strictly_inc(targets@),
    ensures
        final(bytes)@ == old(bytes)@ + enc(source, targets@),
{
    let ghost base = bytes@;
    if targets.len() == 0 {
        assert(bytes@ =~= base + enc(source, targets@));
        return;
    }
    push_head(bytes, source, targets[0]);
    let mut ds: Vec<u32> = Vec::new();
    let mut i: usize = 1;
    while i < targets.len()
        invariant
            1 <= i <= targets@.len(),
            strictly_inc(targets@),
            ds@ == diffs_of(targets@).take(i - 1),
        decreases targets@.len() - i,
    {
        proof {
            assert(targets@[i - 1] < targets@[i as int]);
        }
        ds.push(targets[i] - targets[i - 1]);
        proof {
            assert(ds@ =~= diffs_of(targets@).take(i as int));
        }
        i = i + 1;
    }
    assert(ds@ =~= diffs_of(targets@));
    push_groups(bytes, &ds, 0);
    proof {
        assert(ds@.skip(0) =~= ds@);
        assert(bytes@ =~= base + enc(source, targets@));
    }
}

} // verus!
