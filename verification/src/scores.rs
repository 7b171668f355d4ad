use vstd::prelude::*;
use crate::outer::URow;
use crate::table::opt_eq;

verus! {

/// Shared transcript count of a cell pair: how many union rows carry exactly
/// this left cell and this right cell.
pub open spec fn count_ab(u: Seq<URow>, ca: Option<u64>, cb: Option<u64>) -> nat
    decreases u.len(),
{
    if u.len() == 0 {
        0
    } else {
        count_ab(u.drop_last(), ca, cb)
            + (if u.last().cell_a == ca && u.last().cell_b == cb { 1nat } else { 0nat })
    }
}

/// How many union rows carry left cell `ca`: every transcript the left
/// labeling gives that cell, whatever the right side says.
pub open spec fn count_a(u: Seq<URow>, ca: Option<u64>) -> nat
    decreases u.len(),
{
    if u.len() == 0 {
        0
    } else {
        count_a(u.drop_last(), ca) + (if u.last().cell_a == ca { 1nat } else { 0nat })
    }
}

/// How many union rows carry right cell `cb`.
pub open spec fn count_b(u: Seq<URow>, cb: Option<u64>) -> nat
    decreases u.len(),
{
    if u.len() == 0 {
        0
    } else {
        count_b(u.drop_last(), cb) + (if u.last().cell_b == cb { 1nat } else { 0nat })
    }
}

/// The denominator of a pair's intersection-over-union: the size of the
/// union of the two cells' transcript sets.
pub open spec fn denom(u: Seq<URow>, ca: Option<u64>, cb: Option<u64>) -> int {
    count_a(u, ca) + count_b(u, cb) - count_ab(u, ca, cb)
}

/// The intersection-over-union of the first pair is at least that of the
/// second, stated by cross-multiplying the two exact fractions.
pub open spec fn iou_ge(
    u: Seq<URow>,
    ca1: Option<u64>,
    cb1: Option<u64>,
    ca2: Option<u64>,
    cb2: Option<u64>,
) -> bool {
    (count_ab(u, ca1, cb1) as int) * denom(u, ca2, cb2)
        >= (count_ab(u, ca2, cb2) as int) * denom(u, ca1, cb1)
}

/// The pair's intersection-over-union is at least the threshold `tn / td`.
pub open spec fn meets_threshold(
    u: Seq<URow>,
    ca: Option<u64>,
    cb: Option<u64>,
    tn: u32,
    td: u32,
) -> bool {
    (count_ab(u, ca, cb) as int) * (td as int) >= (tn as int) * denom(u, ca, cb)
}

/// A merge candidate: both cells real, the pair present in the union, and
/// its score at or above the threshold.
pub open spec fn is_cand(u: Seq<URow>, a: u64, b: u64, tn: u32, td: u32) -> bool {
    count_ab(u, Some(a), Some(b)) > 0 && meets_threshold(u, Some(a), Some(b), tn, td)
}

/// The shared count of a pair never exceeds either side's total, and no
/// count exceeds the number of rows.
pub proof fn lemma_counts(u: Seq<URow>, ca: Option<u64>, cb: Option<u64>)
    ensures
        count_ab(u, ca, cb) <= count_a(u, ca),
        count_ab(u, ca, cb) <= count_b(u, cb),
        count_a(u, ca) <= u.len(),
        count_b(u, cb) <= u.len(),
    decreases u.len(),
{
    if u.len() > 0 {
        lemma_counts(u.drop_last(), ca, cb);
    }
}

/// A pair is counted at all exactly when some row carries it.
pub proof fn lemma_count_ab_exists(u: Seq<URow>, ca: Option<u64>, cb: Option<u64>)
    ensures
        count_ab(u, ca, cb) > 0 <==> exists|i: int|
            0 <= i < u.len() && u[i].cell_a == ca && u[i].cell_b == cb,
    decreases u.len(),
{
    if u.len() > 0 {
        lemma_count_ab_exists(u.drop_last(), ca, cb);
        if u.last().cell_a == ca && u.last().cell_b == cb {
            assert(u[u.len() - 1].cell_a == ca && u[u.len() - 1].cell_b == cb);
        } else if count_ab(u.drop_last(), ca, cb) > 0 {
            let i = choose|i: int|
                0 <= i < u.drop_last().len() && u.drop_last()[i].cell_a == ca
                    && u.drop_last()[i].cell_b == cb;
            assert(u[i].cell_a == ca && u[i].cell_b == cb);
        } else if exists|i: int| 0 <= i < u.len() && u[i].cell_a == ca && u[i].cell_b == cb {
            let i = choose|i: int| 0 <= i < u.len() && u[i].cell_a == ca && u[i].cell_b == cb;
            assert(i < u.len() - 1);
            assert(u.drop_last()[i].cell_a == ca && u.drop_last()[i].cell_b == cb);
        }
    }
}

/// A pair that is present has a positive denominator no smaller than its
/// shared count: its intersection-over-union lies in (0, 1].
pub proof fn lemma_iou_bounds(u: Seq<URow>, ca: Option<u64>, cb: Option<u64>)
    requires
        count_ab(u, ca, cb) > 0,
    ensures
        count_ab(u, ca, cb) <= denom(u, ca, cb),
        denom(u, ca, cb) >= 1,
{
    lemma_counts(u, ca, cb);
}

/// Counts a pair by scanning the rows.
pub fn count_pair(rows: &Vec<URow>, ca: Option<u64>, cb: Option<u64>) -> (r: usize)
    ensures
        r as nat == count_ab(rows@, ca, cb),
{
    let n = rows.len();
    let mut r: usize = 0;
    let mut i: usize = 0;
    proof {
        assert(rows@.subrange(0, 0) =~= Seq::<URow>::empty());
    }
    while i < n
        invariant
            0 <= i <= n,
            n == rows@.len(),
            r <= i,
            r as nat == count_ab(rows@.subrange(0, i as int), ca, cb),
        decreases n - i,
    {
        proof {
            assert(rows@.subrange(0, i as int + 1).drop_last() =~= rows@.subrange(0, i as int));
            assert(rows@.subrange(0, i as int + 1).last() == rows@[i as int]);
        }
        if opt_eq(rows[i].cell_a, ca) && opt_eq(rows[i].cell_b, cb) {
            r += 1;
        }
        i += 1;
    }
    proof {
        assert(rows@.subrange(0, n as int) =~= rows@);
    }
    r
}

/// Counts a left cell by scanning the rows.
pub fn count_left(rows: &Vec<URow>, ca: Option<u64>) -> (r: usize)
    ensures
        r as nat == count_a(rows@, ca),
{
    let n = rows.len();
    let mut r: usize = 0;
    let mut i: usize = 0;
    proof {
        assert(rows@.subrange(0, 0) =~= Seq::<URow>::empty());
    }
    while i < n
        invariant
            0 <= i <= n,
            n == rows@.len(),
            r <= i,
            r as nat == count_a(rows@.subrange(0, i as int), ca),
        decreases n - i,
    {
        proof {
            assert(rows@.subrange(0, i as int + 1).drop_last() =~= rows@.subrange(0, i as int));
            assert(rows@.subrange(0, i as int + 1).last() == rows@[i as int]);
        }
        if opt_eq(rows[i].cell_a, ca) {
            r += 1;
        }
        i += 1;
    }
    proof {
        assert(rows@.subrange(0, n as int) =~= rows@);
    }
    r
}

/// Counts a right cell by scanning the rows.
pub fn count_right(rows: &Vec<URow>, cb: Option<u64>) -> (r: usize)
    ensures
        r as nat == count_b(rows@, cb),
{
    let n = rows.len();
    let mut r: usize = 0;
    let mut i: usize = 0;
    proof {
        assert(rows@.subrange(0, 0) =~= Seq::<URow>::empty());
    }
    while i < n
        invariant
            0 <= i <= n,
            n == rows@.len(),
            r <= i,
            r as nat == count_b(rows@.subrange(0, i as int), cb),
        decreases n - i,
    {
        proof {
            assert(rows@.subrange(0, i as int + 1).drop_last() =~= rows@.subrange(0, i as int));
            assert(rows@.subrange(0, i as int + 1).last() == rows@[i as int]);
        }
        if opt_eq(rows[i].cell_b, cb) {
            r += 1;
        }
        i += 1;
    }
    proof {
        assert(rows@.subrange(0, n as int) =~= rows@);
    }
    r
}

/// Decides `x1 * y1 >= x2 * y2` exactly, through 128-bit products.
pub fn mul_ge(x1: u64, y1: u64, x2: u64, y2: u64) -> (r: bool)
    ensures
        r == ((x1 as int) * (y1 as int) >= (x2 as int) * (y2 as int)),
{
    proof {
        assert((x1 as int) * (y1 as int) <= 0xffff_ffff_ffff_ffff * 0xffff_ffff_ffff_ffff)
            by (nonlinear_arith);
        assert((x2 as int) * (y2 as int) <= 0xffff_ffff_ffff_ffff * 0xffff_ffff_ffff_ffff)
            by (nonlinear_arith);
    }
    (x1 as u128) * (y1 as u128) >= (x2 as u128) * (y2 as u128)
}

/// The denominator of a pair, computed in code.
fn denom_exec(rows: &Vec<URow>, ca: Option<u64>, cb: Option<u64>) -> (d: u64)
    requires
        rows@.len() <= 0x1000_0000_0000_0000,
    ensures
        d as int == denom(rows@, ca, cb),
{
    let s = count_pair(rows, ca, cb);
    let ta = count_left(rows, ca);
    let tb = count_right(rows, cb);
    proof {
        lemma_counts(rows@, ca, cb);
    }
    (ta as u64) + (tb as u64) - (s as u64)
}

/// Decides whether the first pair scores at least as high as the second.
pub fn iou_ge_exec(
    rows: &Vec<URow>,
    ca1: Option<u64>,
    cb1: Option<u64>,
    ca2: Option<u64>,
    cb2: Option<u64>,
) -> (r: bool)
    requires
        rows@.len() <= 0x1000_0000_0000_0000,
    ensures
        r == iou_ge(rows@, ca1, cb1, ca2, cb2),
{
    let s1 = count_pair(rows, ca1, cb1);
    let d1 = denom_exec(rows, ca1, cb1);
    let s2 = count_pair(rows, ca2, cb2);
    let d2 = denom_exec(rows, ca2, cb2);
    proof {
        lemma_counts(rows@, ca1, cb1);
        lemma_counts(rows@, ca2, cb2);
    }
    mul_ge(s1 as u64, d2, s2 as u64, d1)
}

/// Decides whether a pair is a merge candidate under threshold `tn / td`.
pub fn is_cand_exec(rows: &Vec<URow>, a: u64, b: u64, tn: u32, td: u32) -> (r: bool)
    requires
        rows@.len() <= 0x1000_0000_0000_0000,
    ensures
        r == is_cand(rows@, a, b, tn, td),
{
    let s = count_pair(rows, Some(a), Some(b));
    if s == 0 {
        return false;
    }
    let d = denom_exec(rows, Some(a), Some(b));
    proof {
        lemma_counts(rows@, Some(a), Some(b));
    }
    mul_ge(s as u64, td as u64, tn as u64, d)
}

} // verus!
