//! Parsing of textual edge rows.
//!
//! A row is `<digits> , <digits>`, each field with optional ASCII
//! whitespace around it and an optional leading plus sign; anything
//! else is rejected.  (Non-ASCII whitespace is not trimmed.)

use vstd::prelude::*;

use crate::edge::Edge;

verus! {

/// ASCII whitespace accepted around a field.
pub open spec fn is_blank(b: u8) -> bool {
    b == 32 || b == 9 || b == 10 || b == 13 || b == 11 || b == 12
}

fn blank_byte(b: u8) -> (r: bool)
    ensures
        r == is_blank(b),
{
    b == 32 || b == 9 || b == 10 || b == 13 || b == 11 || b == 12
}

/// ASCII decimal digit.
pub open spec fn is_digit(b: u8) -> bool {
    48 <= b <= 57
}

/// Value of a digit string.
pub open spec fn digits_val(s: Seq<u8>) -> int
    decreases s.len(),
{
    if s.len() == 0 {
        0
    } else {
        digits_val(s.drop_last()) * 10 + (s.last() - 48)
    }
}

/// Number of leading blanks.
pub open spec fn lead_blanks(s: Seq<u8>) -> int
    decreases s.len(),
{
    if s.len() == 0 || !is_blank(s[0]) {
        0
    } else {
        1 + lead_blanks(s.drop_first())
    }
}

/// Number of trailing blanks.
pub open spec fn trail_blanks(s: Seq<u8>) -> int
    decreases s.len(),
{
    if s.len() == 0 || !is_blank(s.last()) {
        0
    } else {
        1 + trail_blanks(s.drop_last())
    }
}

/// The field with blanks removed from both ends.
pub open spec fn trimmed(s: Seq<u8>) -> Seq<u8> {
    if lead_blanks(s) == s.len() {
        Seq::<u8>::empty()
    } else {
        s.subrange(lead_blanks(s), s.len() - trail_blanks(s))
    }
}

/// The digits of a trimmed field, past an optional leading plus sign.
pub open spec fn digits_of(t: Seq<u8>) -> Seq<u8> {
    if t.len() > 0 && t[0] == 43 {
        t.drop_first()
    } else {
        t
    }
}

/// A valid field: after trimming and an optional plus sign, a non-empty
/// digit string whose value fits in `u32`.
pub open spec fn field_ok(s: Seq<u8>) -> bool {
    &&& digits_of(trimmed(s)).len() > 0
    &&& forall|i: int|
        0 <= i < digits_of(trimmed(s)).len() ==> is_digit(#[trigger] digits_of(trimmed(s))[i])
    &&& digits_val(digits_of(trimmed(s))) <= 0xFFFF_FFFF
}

/// Value of a valid field.
pub open spec fn field_val(s: Seq<u8>) -> int {
    digits_val(digits_of(trimmed(s)))
}

/// Digit values only grow as digits are appended.
proof fn lemma_digits_val_bounds(s: Seq<u8>, i: int)
    requires
        0 <= i <= s.len(),
        forall|t: int| 0 <= t < s.len() ==> is_digit(#[trigger] s[t]),
    ensures
        digits_val(s.take(i)) >= 0,
        digits_val(s) >= digits_val(s.take(i)),
    decreases s.len() - i,
{
    if i < s.len() {
        lemma_digits_val_bounds(s, i + 1);
        assert(s.take(i + 1).drop_last() =~= s.take(i));
        assert(digits_val(s.take(i + 1)) == digits_val(s.take(i)) * 10 + (s[i] - 48));
        assert(digits_val(s.take(i)) >= 0) by {
            lemma_digits_val_nonneg(s.take(i));
        }
        assert(digits_val(s.take(i + 1)) >= digits_val(s.take(i))) by (nonlinear_arith)
            requires
                digits_val(s.take(i + 1)) == digits_val(s.take(i)) * 10 + (s[i as int] - 48),
                digits_val(s.take(i)) >= 0,
                48 <= s[i as int] <= 57,
        ;
    } else {
        assert(s.take(i) =~= s);
        lemma_digits_val_nonneg(s);
    }
}

proof fn lemma_digits_val_nonneg(s: Seq<u8>)
    requires
        forall|t: int| 0 <= t < s.len() ==> is_digit(#[trigger] s[t]),
    ensures
        digits_val(s) >= 0,
    decreases s.len(),
{
    if s.len() > 0 {
        assert forall|t: int| 0 <= t < s.drop_last().len() implies is_digit(
            #[trigger] s.drop_last()[t],
        ) by {
            assert(s.drop_last()[t] == s[t]);
        }
        lemma_digits_val_nonneg(s.drop_last());
        assert(digits_val(s.drop_last()) * 10 >= 0) by (nonlinear_arith)
            requires digits_val(s.drop_last()) >= 0;
        assert(is_digit(s.last()));
    }
}

/// Parses one field of a row into its numeric value.
fn parse_field(line: &[u8], lo: usize, hi: usize) -> (r: Option<u32>)
    requires
        lo <= hi <= line@.len(),
    ensures
        r is Some <==> field_ok(line@.subrange(lo as int, hi as int)),
        r matches Some(v) ==> v == field_val(line@.subrange(lo as int, hi as int)),
{
    let ghost s = line@.subrange(lo as int, hi as int);
    proof {
        assert(s.skip(0) =~= s);
    }
    let mut a = lo;
    while a < hi && blank_byte(line[a])
        invariant
            lo <= a <= hi <= line@.len(),
            s == line@.subrange(lo as int, hi as int),
            forall|t: int| 0 <= t < a - lo ==> is_blank(#[trigger] s[t]),
            lead_blanks(s.skip(a - lo)) == lead_blanks(s) - (a - lo),
        decreases hi - a,
    {
        proof {
            assert(s.skip(a - lo)[0] == line@[a as int]);
            assert(s.skip(a - lo).drop_first() =~= s.skip(a + 1 - lo));
        }
        a = a + 1;
    }
    proof {
        if a < hi {
            assert(s.skip(a - lo)[0] == line@[a as int]);
            assert(lead_blanks(s.skip(a - lo)) == 0);
        }
        assert(lead_blanks(s) == a - lo);
    }
    let mut b = hi;
    proof {
        assert(s.take(s.len() as int) =~= s);
    }
    while b > a && blank_byte(line[b - 1])
        invariant
            lo <= a <= b <= hi <= line@.len(),
            s == line@.subrange(lo as int, hi as int),
            lead_blanks(s) == a - lo,
            forall|t: int| b - lo <= t < s.len() ==> is_blank(#[trigger] s[t]),
            trail_blanks(s.take(b - lo)) == trail_blanks(s) - (hi - b),
        decreases b,
    {
        proof {
            assert(s.take(b - lo).last() == line@[b - 1]);
            assert(s.take(b - lo).drop_last() =~= s.take(b - 1 - lo));
        }
        b = b - 1;
    }
    proof {
        if b > a {
            assert(s.take(b - lo).last() == line@[b - 1]);
            assert(trail_blanks(s.take(b - lo)) == 0);
            assert(trail_blanks(s) == hi - b);
            assert(lead_blanks(s) < s.len());
            assert(trimmed(s) =~= s.subrange(a - lo, b - lo));
        } else {
            assert(b == a);
            assert forall|t: int| 0 <= t < s.len() implies is_blank(#[trigger] s[t]) by {
                if t < a - lo {
                } else {
                    assert(b - lo <= t);
                }
            }
            lemma_all_blank_lead(s);
            assert(trimmed(s) =~= Seq::<u8>::empty());
        }
    }
    if a == b {
        proof {
            assert(digits_of(trimmed(s)).len() == 0);
        }
        return None;
    }
    let ghost t = trimmed(s);
    let mut a2 = a;
    if line[a] == 43 {
        a2 = a + 1;
    }
    proof {
        assert(t[0] == line@[a as int]);
        if line@[a as int] == 43 {
            assert(digits_of(t) =~= s.subrange(a + 1 - lo, b - lo));
        } else {
            assert(digits_of(t) == t);
        }
    }
    if a2 == b {
        // a lone plus sign has no digits
        proof {
            assert(digits_of(t).len() == 0);
        }
        return None;
    }
    let ghost dg = digits_of(trimmed(s));
    let mut acc: u32 = 0;
    let mut j = a2;
    while j < b
        invariant
            lo <= a <= a2 <= j <= b <= hi <= line@.len(),
            a2 <= a + 1,
            a2 < b,
            s == line@.subrange(lo as int, hi as int),
            dg == digits_of(trimmed(s)),
            dg =~= s.subrange(a2 - lo, b - lo),
            dg.len() == b - a2,
            forall|q: int| 0 <= q < j - a2 ==> is_digit(#[trigger] dg[q]),
            acc == digits_val(dg.take(j - a2)),
        decreases b - j,
    {
        let c = line[j];
        if c < 48 || c > 57 {
            proof {
                assert(dg[j - a2] == line@[j as int]);
                assert(!is_digit(dg[j - a2]));
            }
            return None;
        }
        let d = (c - 48) as u32;
        if acc > (0xFFFF_FFFFu32 - d) / 10 {
            proof {
                assert(dg[j - a2] == line@[j as int]);
                if forall|q2: int| 0 <= q2 < dg.len() ==> is_digit(#[trigger] dg[q2]) {
                    lemma_digits_val_bounds(dg, j - a2 + 1);
                    assert(dg.take(j - a2 + 1).drop_last() =~= dg.take(j - a2));
                    assert(digits_val(dg.take(j - a2 + 1)) == acc * 10 + d);
                    assert(acc * 10 + d > 0xFFFF_FFFF) by (nonlinear_arith)
                        requires
                            acc > (0xFFFF_FFFFu32 - d) / 10,
                            0 <= d <= 9,
                            acc >= 0,
                    ;
                    assert(digits_val(dg) > 0xFFFF_FFFF);
                }
                assert(!field_ok(s));
            }
            return None;
        }
        proof {
            assert(dg[j - a2] == line@[j as int]);
            assert(dg.take(j - a2 + 1).drop_last() =~= dg.take(j - a2));
            assert(acc * 10 + d <= 0xFFFF_FFFF) by (nonlinear_arith)
                requires acc <= (0xFFFF_FFFFu32 - d) / 10, 0 <= d <= 9, acc >= 0;
        }
        acc = acc * 10 + d;
        j = j + 1;
    }
    proof {
        assert(dg.take(dg.len() as int) =~= dg);
    }
    Some(acc)
}

proof fn lemma_all_blank_lead(s: Seq<u8>)
    requires
        forall|t: int| 0 <= t < s.len() ==> is_blank(#[trigger] s[t]),
    ensures
        lead_blanks(s) == s.len(),
    decreases s.len(),
{
    if s.len() > 0 {
        assert forall|t: int| 0 <= t < s.drop_first().len() implies is_blank(
            #[trigger] s.drop_first()[t],
        ) by {
            assert(s.drop_first()[t] == s[t + 1]);
        }
        lemma_all_blank_lead(s.drop_first());
    }
}

/// Whether a row is well formed: exactly one comma, both fields valid.
pub open spec fn row_ok(s: Seq<u8>) -> bool {
    exists|c: int|
        0 <= c < s.len() && s[c] == 44 && (forall|t: int| 0 <= t < s.len() && t != c ==> s[t] != 44)
            && field_ok(#[trigger] s.subrange(0, c)) && field_ok(s.subrange(c + 1, s.len() as int))
}

/// Parses a `source,target` row.  Returns the edge exactly when the row
/// has one comma and two valid `u32` fields.
pub fn parse_edge(line: &[u8]) -> (r: Option<Edge>)
    ensures
        r is Some <==> row_ok(line@),
        r matches Some(e) ==> exists|c: int|
            0 <= c < line@.len() && line@[c] == 44 && e.0 == field_val(
                #[trigger] line@.subrange(0, c),
            ) && e.1 == field_val(line@.subrange(c + 1, line@.len() as int)),
{
    let n = line.len();
    let mut c: usize = 0;
    while c < n && line[c] != 44
        invariant
            c <= n == line@.len(),
            forall|t: int| 0 <= t < c ==> line@[t] != 44,
        decreases n - c,
    {
        c = c + 1;
    }
    if c == n {
        proof {
            assert(!row_ok(line@));
        }
        return None;
    }
    let mut c2 = c + 1;
    while c2 < n && line[c2] != 44
        invariant
            c < c2 <= n == line@.len(),
            line@[c as int] == 44,
            forall|t: int| 0 <= t < c ==> line@[t] != 44,
            forall|t: int| c < t < c2 ==> line@[t] != 44,
        decreases n - c2,
    {
        c2 = c2 + 1;
    }
    if c2 < n {
        proof {
            assert(line@[c2 as int] == 44);
            assert forall|cc: int|
                0 <= cc < line@.len() && line@[cc] == 44 implies !(forall|t: int|
                0 <= t < line@.len() && t != cc ==> line@[t] != 44) by {
                if cc == c {
                    assert(line@[c2 as int] == 44);
                } else {
                    assert(line@[c as int] == 44);
                }
            }
            assert(!row_ok(line@));
        }
        return None;
    }
    let x = parse_field(line, 0, c);
    let y = parse_field(line, c + 1, n);
    proof {
        assert(line@.subrange(0, c as int) =~= line@.subrange(0, c as int));
    }
    match (x, y) {
        (Some(u), Some(v)) => {
            proof {
                assert forall|t: int| 0 <= t < line@.len() && t != c implies line@[t] != 44 by {}
                assert(row_ok(line@));
            }
            Some(Edge(u, v))
        },
        _ => {
            proof {
                if row_ok(line@) {
                    let cc = choose|cc: int|
                        0 <= cc < line@.len() && line@[cc] == 44 && (forall|t: int|
                            0 <= t < line@.len() && t != cc ==> line@[t] != 44) && field_ok(
                            #[trigger] line@.subrange(0, cc),
                        ) && field_ok(line@.subrange(cc + 1, line@.len() as int));
                    assert(cc == c);
                }
            }
            None
        },
    }
}

} // verus!
