//! Executable decoder for the byte-run-length neighbour codec.
//!
//! `decode_map` returns the neighbour list whose encoding is the given
//! byte string; `count` returns its length while walking only the run
//! headers.  Both are proved against the model encoding `enc`.

use vstd::prelude::*;

use crate::codec::{
    be_bytes, be_val, bound_of, diffs_of, enc, gap_of, groups_bytes, head_bytes, header_byte,
    is_encoding, lemma_be_val_inverse, lemma_enc_injective, lemma_payload_len, lemma_run_ext_le,
    lemma_split_group, payload_bytes, run_ext, strictly_inc, tail7, width_of,
};

verus! {

/// Values of big-endian byte strings of at most four bytes fit in `u32`.
proof fn lemma_be_val_bound(b: Seq<u8>)
    requires
        b.len() <= 4,
    ensures
        b.len() == 0 ==> be_val(b) == 0,
        b.len() >= 1 ==> be_val(b) < bound_of(b.len() as nat),
    decreases b.len(),
{
    if b.len() > 0 {
        lemma_be_val_bound(b.drop_last());
    }
}

/// Each delta of a payload occupies its own `w`-byte segment.
proof fn lemma_payload_index(ds: Seq<u32>, w: nat, t: int)
    requires
        0 <= t < ds.len(),
        1 <= w,
    ensures
        payload_bytes(ds, w).len() == ds.len() * w,
        payload_bytes(ds, w).subrange(t * w, (t + 1) * w) == be_bytes(ds[t] as nat, w),
    decreases t,
{
    lemma_payload_len(ds, w);
    crate::codec::lemma_be_bytes_len(ds[0] as nat, w);
    lemma_payload_len(ds.drop_first(), w);
    assert((t + 1) * w <= ds.len() * w) by (nonlinear_arith)
        requires t + 1 <= ds.len(), w >= 0;
    assert(t * w >= 0) by (nonlinear_arith)
        requires t >= 0, w >= 0;
    if t == 0 {
        assert(t * w == 0) by (nonlinear_arith)
            requires t == 0;
        assert((t + 1) * w == w) by (nonlinear_arith)
            requires t == 0;
        assert(payload_bytes(ds, w).subrange(0, w as int) =~= be_bytes(ds[0] as nat, w));
    } else {
        lemma_payload_index(ds.drop_first(), w, t - 1);
        assert(t * w - w == (t - 1) * w) by (nonlinear_arith);
        assert((t + 1) * w - w == t * w) by (nonlinear_arith);
        assert(t * w >= w) by (nonlinear_arith)
            requires t >= 1, w >= 0;
        assert(payload_bytes(ds, w).subrange(t * w, (t + 1) * w) =~= payload_bytes(
            ds.drop_first(),
            w,
        ).subrange((t - 1) * w, t * w));
    }
}

/// Parses the little-endian 7-bit continuation bytes `tail7(x)` found at
/// position `i`.
fn parse_tail7(bytes: &[u8], i: usize, Ghost(x): Ghost<nat>) -> (r: (u32, usize))
    requires
        x < 0x1_0000_0000,
        i + tail7(x).len() <= bytes@.len(),
        bytes@.subrange(i as int, i + tail7(x).len()) == tail7(x),
    ensures
        r.0 as nat == x,
        r.1 == i + tail7(x).len(),
    decreases x,
{
    let b = bytes[i];
    proof {
        assert(bytes@[i as int] == tail7(x)[0]);
    }
    if b < 128 {
        assert(x < 128);
        (b as u32, i + 1)
    } else {
        assert(x >= 128);
        proof {
            assert(tail7(x).drop_first() =~= tail7(x / 128));
            assert(bytes@.subrange(i + 1, i + 1 + tail7(x / 128).len()) =~= tail7(x / 128));
        }
        let (hi, end) = parse_tail7(bytes, i + 1, Ghost(x / 128));
        proof {
            assert(x % 128 + 128 * (x / 128) == x);
        }
        ((b - 128) as u32 + 128 * hi, end)
    }
}

/// Parses the gap head of a non-empty encoded list: returns the first
/// target and the number of head bytes.
fn parse_head(source: u32, bytes: &[u8], Ghost(l): Ghost<Seq<u32>>) -> (r: (u32, usize))
    requires
        strictly_inc(l),
        l.len() > 0,
        bytes@ == enc(source, l),
    ensures
        r.0 == l[0],
        1 <= r.1 <= bytes@.len(),
        bytes@.skip(r.1 as int) == groups_bytes(diffs_of(l)),
{
    let ghost v = l[0];
    let ghost d_spec = gap_of(source, v);
    let ghost hb = head_bytes(source, v);
    let ghost gs = groups_bytes(diffs_of(l));
    proof {
        assert(bytes@ == hb + gs);
        assert(hb[0] == bytes@[0]);
        assert(d_spec % 64 + (if v < source { 64 as nat } else { 0 }) + (if d_spec >= 64 {
            128 as nat
        } else {
            0
        }) <= 255);
    }
    let b0 = bytes[0];
    proof {
        assert(b0 as nat == d_spec % 64 + (if v < source { 64 as nat } else { 0 }) + (
        if d_spec >= 64 {
            128 as nat
        } else {
            0
        }));
    }
    let low = b0 % 64;
    let neg = (b0 / 64) % 2 == 1;
    proof {
        assert(low as nat == d_spec % 64);
        assert(neg == (v < source));
        assert((b0 >= 128) == (d_spec >= 64));
    }
    let (d, i): (u32, usize) = if b0 >= 128 {
        proof {
            assert(hb =~= seq![hb[0]] + tail7(d_spec / 64));
            assert(bytes@.subrange(1, 1 + tail7(d_spec / 64).len() as int) =~= tail7(d_spec / 64));
            assert(d_spec <= 0xFFFF_FFFF);
        }
        let (hi, end) = parse_tail7(bytes, 1, Ghost(d_spec / 64));
        proof {
            assert(d_spec % 64 + 64 * (d_spec / 64) == d_spec);
        }
        (low as u32 + 64 * hi, end)
    } else {
        proof {
            assert(d_spec < 64);
        }
        (low as u32, 1)
    };
    proof {
        assert(d as nat == d_spec);
        assert(hb.len() == i);
        assert(bytes@.skip(i as int) =~= gs);
    }
    let v0 = if neg {
        source - d
    } else {
        source + d
    };
    (v0, i)
}

/// Parses `w` big-endian bytes at `pos`, known to encode the delta `d`.
fn parse_be(bytes: &[u8], pos: usize, w: usize, Ghost(d): Ghost<u32>) -> (r: u32)
    requires
        1 <= w <= 4,
        (d as nat) < bound_of(w as nat),
        pos + w <= bytes@.len(),
        bytes@.subrange(pos as int, (pos + w) as int) == be_bytes(d as nat, w as nat),
    ensures
        r == d,
{
    let ghost seg = be_bytes(d as nat, w as nat);
    proof {
        crate::codec::lemma_be_bytes_len(d as nat, w as nat);
        lemma_be_val_inverse(d as nat, w as nat);
    }
    let n = bytes.len();
    let mut acc: u32 = 0;
    let mut bj: usize = 0;
    while bj < w
        invariant
            bj <= w <= 4,
            n == bytes@.len(),
            pos + w <= n,
            seg == be_bytes(d as nat, w as nat),
            seg.len() == w,
            bytes@.subrange(pos as int, (pos + w) as int) == seg,
            acc as nat == be_val(seg.take(bj as int)),
        decreases w - bj,
    {
        proof {
            lemma_be_val_bound(seg.take(bj as int));
            lemma_be_val_bound(seg.take(bj + 1));
            assert(seg.take(bj + 1).drop_last() =~= seg.take(bj as int));
            assert(bytes@[pos + bj] == seg[bj as int]);
        }
        acc = acc * 256 + (bytes[pos + bj] as u32);
        bj = bj + 1;
    }
    proof {
        assert(seg.take(w as int) =~= seg);
    }
    acc
}

/// Decodes the encoding of a neighbour list of `source`, relative to the
/// ghost list `l` it encodes.
fn decode_list(source: u32, bytes: &[u8], Ghost(l): Ghost<Seq<u32>>) -> (r: Vec<u32>)
    requires
        strictly_inc(l),
        bytes@ == enc(source, l),
    ensures
        r@ == l,
{
    let mut out: Vec<u32> = Vec::new();
    if bytes.len() == 0 {
        proof {
            if l.len() > 0 {
                assert(bytes@.len() >= head_bytes(source, l[0]).len());
            }
            assert(out@ =~= l);
        }
        return out;
    }
    assert(l.len() > 0);
    let n = bytes.len();
    proof {
        crate::codec::lemma_enc_len_ge(source, l);
    }
    let (v0, mut i) = parse_head(source, bytes, Ghost(l));
    out.push(v0);
    let mut prev = v0;
    let mut k: usize = 1;
    proof {
        assert(out@ =~= l.take(1));
        assert(diffs_of(l).skip(0) =~= diffs_of(l));
    }
    while i < n
        invariant
            strictly_inc(l),
            n == bytes@.len(),
            1 <= k <= l.len(),
            l.len() <= bytes@.len(),
            out@ == l.take(k as int),
            prev == l[k - 1],
            i <= bytes@.len(),
            bytes@.skip(i as int) == groups_bytes(diffs_of(l).skip(k - 1)),
        decreases bytes@.len() - i,
    {
        let ghost ds = diffs_of(l).skip(k - 1);
        proof {
            if ds.len() == 0 {
                assert(groups_bytes(ds).len() == 0);
                assert(bytes@.skip(i as int).len() > 0);
            }
            assert(ds.len() > 0);
        }
        let ghost w_s = width_of(ds[0]);
        let ghost r_s = 1 + run_ext(ds.drop_first(), w_s, 63);
        let ghost pay = payload_bytes(ds.take(r_s as int), w_s);
        proof {
            lemma_run_ext_le(ds.drop_first(), w_s, 63);
            assert(1 <= w_s <= 4);
            assert(1 <= r_s <= 64);
            assert(r_s <= ds.len());
            assert(groups_bytes(ds) == seq![header_byte(w_s, r_s)] + pay + groups_bytes(
                ds.skip(r_s as int),
            ));
            assert(bytes@.skip(i as int)[0] == header_byte(w_s, r_s));
            assert((w_s - 1) + 4 * (r_s - 1) <= 255);
            assert(bytes@[i as int] == header_byte(w_s, r_s));
            assert(bytes@[i as int] as nat == (w_s - 1) + 4 * (r_s - 1));
        }
        let header = bytes[i];
        let w = (header % 4) as usize + 1;
        let run = (header / 4) as usize + 1;
        proof {
            assert(header as nat == (w_s - 1) + 4 * (r_s - 1));
            assert(w as nat == w_s);
            assert(run as nat == r_s);
            lemma_payload_len(ds.take(r_s as int), w_s);
            assert(pay.len() == r_s * w_s);
            assert(r_s * w_s <= 64 * 4) by (nonlinear_arith)
                requires 1 <= r_s <= 64, 1 <= w_s <= 4;
            lemma_split_group(
                bytes@,
                i as int,
                header_byte(w_s, r_s),
                pay,
                groups_bytes(ds.skip(r_s as int)),
            );
            assert(i + 1 + pay.len() <= bytes@.len());
            assert(k + r_s <= l.len()) by {
                assert(ds.len() == diffs_of(l).len() - (k - 1));
            }
        }
        let base = i + 1;
        let mut t: usize = 0;
        while t < run
            invariant
                strictly_inc(l),
                1 <= k,
                k + run <= l.len(),
                l.len() <= bytes@.len(),
                n == bytes@.len(),
                t <= run,
                w == w_s,
                1 <= w <= 4,
                run == r_s,
                pay.len() == r_s * w_s,
                base + pay.len() <= bytes@.len(),
                ds == diffs_of(l).skip(k - 1),
                ds.len() > 0,
                w_s == width_of(ds[0]),
                r_s == 1 + run_ext(ds.drop_first(), w_s, 63),
                r_s <= ds.len(),
                pay == payload_bytes(ds.take(r_s as int), w_s),
                bytes@.subrange(base as int, base + pay.len() as int) == pay,
                out@ == l.take(k + t),
                prev == l[k + t - 1],
            decreases run - t,
        {
            proof {
                lemma_payload_index(ds.take(r_s as int), w_s, t as int);
                assert(ds.take(r_s as int)[t as int] == ds[t as int]);
                crate::codec::lemma_run_ext_chars(ds.drop_first(), w_s, 63);
                assert(width_of(ds[t as int]) == w_s) by {
                    if t > 0 {
                        assert(ds.drop_first()[t - 1] == ds[t as int]);
                    }
                }
                crate::codec::lemma_width_bound(ds[t as int]);
                assert((t + 1) * w <= run * w) by (nonlinear_arith)
                    requires t + 1 <= run, w >= 1;
                assert(t * w <= run * w) by (nonlinear_arith)
                    requires t <= run, w >= 0;
                assert(t * w >= 0) by (nonlinear_arith)
                    requires t >= 0, w >= 0;
                assert(base + (t + 1) * w == (base + t * w) + w) by (nonlinear_arith);
                assert(bytes@.subrange(base + t * w, base + (t + 1) * w) =~= pay.subrange(
                    (t * w) as int,
                    ((t + 1) * w) as int,
                ));
                assert(pay.subrange((t * w) as int, ((t + 1) * w) as int) == be_bytes(
                    ds[t as int] as nat,
                    w_s,
                ));
            }
            let delta = parse_be(bytes, base + t * w, w, Ghost(ds[t as int]));
            proof {
                assert(ds[t as int] == diffs_of(l)[k - 1 + t]);
                assert(l[k + t - 1] < l[k + t]);
                assert(ds[t as int] == (l[k + t] - l[k + t - 1]) as u32);
            }
            let next = prev + delta;
            out.push(next);
            proof {
                assert(out@ =~= l.take(k + t + 1));
            }
            prev = next;
            t = t + 1;
        }
        proof {
            assert(run * w == r_s * w_s) by (nonlinear_arith)
                requires run == r_s, w == w_s;
            lemma_split_group(
                bytes@,
                i as int,
                header_byte(w_s, r_s),
                pay,
                groups_bytes(ds.skip(r_s as int)),
            );
        }
        i = base + run * w;
        k = k + run;
        proof {
            assert(ds.skip(r_s as int) =~= diffs_of(l).skip(k - 1));
        }
    }
    proof {
        let ds = diffs_of(l).skip(k - 1);
        if ds.len() > 0 {
            assert(groups_bytes(ds).len() > 0);
        }
        assert(k - 1 == diffs_of(l).len());
        assert(out@ =~= l);
    }
    out
}

/// Counts the targets of an encoded neighbour list of `source`, walking
/// only the gap head and the run-group headers.
pub fn count(source: u32, bytes: &[u8]) -> (r: usize)
    requires
        is_encoding(source, bytes@),
    ensures
        forall|l: Seq<u32>| strictly_inc(l) && enc(source, l) == bytes@ ==> r == l.len(),
{
    let ghost l = choose|l: Seq<u32>| strictly_inc(l) && enc(source, l) == bytes@;
    let n = bytes.len();
    if n == 0 {
        proof {
            assert forall|l2: Seq<u32>|
                strictly_inc(l2) && enc(source, l2) == bytes@ implies l2.len() == 0 by {
                if l2.len() > 0 {
                    assert(enc(source, l2).len() >= head_bytes(source, l2[0]).len());
                }
            }
        }
        return 0;
    }
    proof {
        if l.len() == 0 {
            assert(enc(source, l).len() == 0);
        }
        crate::codec::lemma_enc_len_ge(source, l);
    }
    let (_first, mut i) = parse_head(source, bytes, Ghost(l));
    let mut acc: usize = 1;
    proof {
        assert(diffs_of(l).skip(0) =~= diffs_of(l));
    }
    while i < n
        invariant
            strictly_inc(l),
            n == bytes@.len(),
            1 <= acc <= l.len(),
            l.len() <= bytes@.len(),
            i <= bytes@.len(),
            bytes@.skip(i as int) == groups_bytes(diffs_of(l).skip(acc - 1)),
        decreases bytes@.len() - i,
    {
        let ghost ds = diffs_of(l).skip(acc - 1);
        proof {
            if ds.len() == 0 {
                assert(groups_bytes(ds).len() == 0);
                assert(bytes@.skip(i as int).len() > 0);
            }
            assert(ds.len() > 0);
        }
        let ghost w_s = width_of(ds[0]);
        let ghost r_s = 1 + run_ext(ds.drop_first(), w_s, 63);
        let ghost pay = payload_bytes(ds.take(r_s as int), w_s);
        proof {
            lemma_run_ext_le(ds.drop_first(), w_s, 63);
            assert(1 <= w_s <= 4);
            assert(1 <= r_s <= 64);
            assert(r_s <= ds.len());
            assert(groups_bytes(ds) == seq![header_byte(w_s, r_s)] + pay + groups_bytes(
                ds.skip(r_s as int),
            ));
            lemma_split_group(
                bytes@,
                i as int,
                header_byte(w_s, r_s),
                pay,
                groups_bytes(ds.skip(r_s as int)),
            );
            assert((w_s - 1) + 4 * (r_s - 1) <= 255);
            assert(bytes@[i as int] as nat == (w_s - 1) + 4 * (r_s - 1));
            lemma_payload_len(ds.take(r_s as int), w_s);
            assert(pay.len() == r_s * w_s);
            assert(r_s * w_s <= 64 * 4) by (nonlinear_arith)
                requires 1 <= r_s <= 64, 1 <= w_s <= 4;
            assert(acc + r_s <= l.len()) by {
                assert(ds.len() == diffs_of(l).len() - (acc - 1));
            }
        }
        let header = bytes[i];
        let w = (header % 4) as usize + 1;
        let run = (header / 4) as usize + 1;
        proof {
            assert(header as nat == (w_s - 1) + 4 * (r_s - 1));
            assert(w as nat == w_s);
            assert(run as nat == r_s);
            assert(run * w == r_s * w_s) by (nonlinear_arith)
                requires run == r_s, w == w_s;
        }
        i = i + 1 + run * w;
        acc = acc + run;
        proof {
            assert(ds.skip(r_s as int) =~= diffs_of(l).skip(acc - 1));
        }
    }
    proof {
        let ds = diffs_of(l).skip(acc - 1);
        if ds.len() > 0 {
            assert(groups_bytes(ds).len() > 0);
        }
        assert(acc - 1 == diffs_of(l).len());
        assert(acc == l.len());
        assert forall|l2: Seq<u32>|
            strictly_inc(l2) && enc(source, l2) == bytes@ implies acc == l2.len() by {
            lemma_enc_injective(source, l, l2);
        }
    }
    acc
}

/// Decodes an encoded neighbour list of `source`.
///
/// The result is the unique strictly increasing list whose encoding is
/// `bytes`.
pub fn decode_map(source: u32, bytes: &[u8]) -> (r: Vec<u32>)
    requires
        is_encoding(source, bytes@),
    ensures
        strictly_inc(r@),
        enc(source, r@) == bytes@,
{
    let ghost l = choose|l: Seq<u32>| strictly_inc(l) && enc(source, l) == bytes@;
    decode_list(source, bytes, Ghost(l))
}

} // verus!
