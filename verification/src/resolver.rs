use vstd::prelude::*;
use crate::outer::URow;
use crate::scores::{
    count_ab, count_pair, iou_ge, iou_ge_exec, is_cand, is_cand_exec, lemma_count_ab_exists,
};
use crate::table::opt_eq;

verus! {

/// An accepted merge pair: a candidate that no candidate sharing its left
/// cell or its right cell beats strictly — the mutual best match.
pub open spec fn accepted(u: Seq<URow>, a: u64, b: u64, tn: u32, td: u32) -> bool {
    &&& is_cand(u, a, b, tn, td)
    &&& forall|x: u64| #[trigger] is_cand(u, x, b, tn, td)
        ==> iou_ge(u, Some(a), Some(b), Some(x), Some(b))
    &&& forall|y: u64| #[trigger] is_cand(u, a, y, tn, td)
        ==> iou_ge(u, Some(a), Some(b), Some(a), Some(y))
}

/// A right cell is new when its best-scoring partner among all rows that
/// carry it is the null left cell: nothing on the left matches it better.
pub open spec fn is_new(u: Seq<URow>, b: u64) -> bool {
    &&& count_ab(u, None, Some(b)) > 0
    &&& forall|ca: Option<u64>| #[trigger] count_ab(u, ca, Some(b)) > 0
        ==> iou_ge(u, None, Some(b), ca, Some(b))
}

/// Membership in a sequence grows by exactly the pushed value.
pub proof fn lemma_push_contains<A>(s: Seq<A>, x: A, y: A)
    ensures
        s.push(x).contains(y) <==> (s.contains(y) || x == y),
{
    if s.push(x).contains(y) {
        let i = choose|i: int| 0 <= i < s.push(x).len() && s.push(x)[i] == y;
        if i < s.len() {
            assert(s[i] == y);
        }
    }
    if s.contains(y) {
        let i = choose|i: int| 0 <= i < s.len() && s[i] == y;
        assert(s.push(x)[i] == y);
    }
    if x == y {
        assert(s.push(x)[s.len() as int] == y);
    }
}

/// Row `j` raises no objection to accepting the pair `(a, b)`.
pub open spec fn merge_row_ok(u: Seq<URow>, j: int, a: u64, b: u64, tn: u32, td: u32) -> bool {
    match (u[j].cell_a, u[j].cell_b) {
        (Some(x), Some(y)) => {
            &&& ((y == b && is_cand(u, x, b, tn, td))
                ==> iou_ge(u, Some(a), Some(b), Some(x), Some(b)))
            &&& ((x == a && is_cand(u, a, y, tn, td))
                ==> iou_ge(u, Some(a), Some(b), Some(a), Some(y)))
        },
        _ => true,
    }
}

/// Decides whether `(a, b)` is an accepted merge pair.
pub fn accepted_exec(rows: &Vec<URow>, a: u64, b: u64, tn: u32, td: u32) -> (r: bool)
    requires
        rows@.len() <= 0x1000_0000_0000_0000,
    ensures
        r == accepted(rows@, a, b, tn, td),
{
    if !is_cand_exec(rows, a, b, tn, td) {
        return false;
    }
    let n = rows.len();
    let mut k: usize = 0;
    while k < n
        invariant
            0 <= k <= n,
            n == rows@.len(),
            rows@.len() <= 0x1000_0000_0000_0000,
            is_cand(rows@, a, b, tn, td),
            forall|j: int| 0 <= j < k ==> merge_row_ok(rows@, j, a, b, tn, td),
        decreases n - k,
    {
        let row = rows[k];
        if let (Some(x), Some(y)) = (row.cell_a, row.cell_b) {
            if y == b && is_cand_exec(rows, x, b, tn, td) {
                if !iou_ge_exec(rows, Some(a), Some(b), Some(x), Some(b)) {
                    assert(!accepted(rows@, a, b, tn, td));
                    return false;
                }
            }
            if x == a && is_cand_exec(rows, a, y, tn, td) {
                if !iou_ge_exec(rows, Some(a), Some(b), Some(a), Some(y)) {
                    assert(!accepted(rows@, a, b, tn, td));
                    return false;
                }
            }
        }
        assert(merge_row_ok(rows@, k as int, a, b, tn, td));
        k += 1;
    }
    proof {
        assert forall|x: u64| #[trigger] is_cand(rows@, x, b, tn, td)
            implies iou_ge(rows@, Some(a), Some(b), Some(x), Some(b)) by {
            lemma_count_ab_exists(rows@, Some(x), Some(b));
            let j = choose|j: int|
                0 <= j < rows@.len() && rows@[j].cell_a == Some(x) && rows@[j].cell_b == Some(b);
            assert(merge_row_ok(rows@, j, a, b, tn, td));
        }
        assert forall|y: u64| #[trigger] is_cand(rows@, a, y, tn, td)
            implies iou_ge(rows@, Some(a), Some(b), Some(a), Some(y)) by {
            lemma_count_ab_exists(rows@, Some(a), Some(y));
            let j = choose|j: int|
                0 <= j < rows@.len() && rows@[j].cell_a == Some(a) && rows@[j].cell_b == Some(y);
            assert(merge_row_ok(rows@, j, a, b, tn, td));
        }
    }
    true
}

/// Scans a pair list for an entry.
pub fn pair_list_contains(pairs: &Vec<(u64, u64)>, a: u64, b: u64) -> (r: bool)
    ensures
        r == pairs@.contains((a, b)),
{
    let n = pairs.len();
    let mut i: usize = 0;
    while i < n
        invariant
            0 <= i <= n,
            n == pairs@.len(),
            forall|j: int| 0 <= j < i ==> pairs@[j] != (a, b),
        decreases n - i,
    {
        if pairs[i].0 == a && pairs[i].1 == b {
            assert(pairs@[i as int] == (a, b));
            return true;
        }
        i += 1;
    }
    false
}

/// Scans a cell list for an entry.
pub fn cell_list_contains(cells: &Vec<u64>, b: u64) -> (r: bool)
    ensures
        r == cells@.contains(b),
{
    let n = cells.len();
    let mut i: usize = 0;
    while i < n
        invariant
            0 <= i <= n,
            n == cells@.len(),
            forall|j: int| 0 <= j < i ==> cells@[j] != b,
        decreases n - i,
    {
        if cells[i] == b {
            assert(cells@[i as int] == b);
            return true;
        }
        i += 1;
    }
    false
}

/// The pair row `j` carries, if any, has been recorded when accepted.
pub open spec fn pair_row_done(
    u: Seq<URow>,
    j: int,
    pairs: Seq<(u64, u64)>,
    tn: u32,
    td: u32,
) -> bool {
    match (u[j].cell_a, u[j].cell_b) {
        (Some(x), Some(y)) => accepted(u, x, y, tn, td) ==> pairs.contains((x, y)),
        _ => true,
    }
}

/// Collects every accepted merge pair, once each: each candidate pair that
/// is the best match of its left cell and of its right cell at once.
pub fn find_cells_to_merge(rows: &Vec<URow>, tn: u32, td: u32) -> (pairs: Vec<(u64, u64)>)
    requires
        rows@.len() <= 0x1000_0000_0000_0000,
    ensures
        forall|a: u64, b: u64| pairs@.contains((a, b)) <==> accepted(rows@, a, b, tn, td),
        forall|i: int, j: int| 0 <= i < j < pairs@.len() ==> pairs@[i] != pairs@[j],
{
    let mut pairs: Vec<(u64, u64)> = Vec::new();
    let n = rows.len();
    let mut k: usize = 0;
    while k < n
        invariant
            0 <= k <= n,
            n == rows@.len(),
            rows@.len() <= 0x1000_0000_0000_0000,
            forall|a: u64, b: u64| pairs@.contains((a, b)) ==> accepted(rows@, a, b, tn, td),
            forall|i: int, j: int| 0 <= i < j < pairs@.len() ==> pairs@[i] != pairs@[j],
            forall|j: int| 0 <= j < k ==> pair_row_done(rows@, j, pairs@, tn, td),
        decreases n - k,
    {
        let row = rows[k];
        if let (Some(x), Some(y)) = (row.cell_a, row.cell_b) {
            if !pair_list_contains(&pairs, x, y) {
                if accepted_exec(rows, x, y, tn, td) {
                    let ghost old_pairs = pairs@;
                    pairs.push((x, y));
                    proof {
                        assert forall|a: u64, b: u64| pairs@.contains((a, b))
                            implies accepted(rows@, a, b, tn, td) by {
                            lemma_push_contains(old_pairs, (x, y), (a, b));
                        }
                        assert forall|j: int| 0 <= j <= k implies pair_row_done(
                            rows@,
                            j,
                            pairs@,
                            tn,
                            td,
                        ) by {
                            if j == k {
                                lemma_push_contains(old_pairs, (x, y), (x, y));
                                assert(pairs@.contains((x, y)));
                            } else {
                                assert(pair_row_done(rows@, j, old_pairs, tn, td));
                                if let (Some(x2), Some(y2)) = (rows@[j].cell_a, rows@[j].cell_b) {
                                    lemma_push_contains(old_pairs, (x, y), (x2, y2));
                                }
                            }
                        }
                    }
                }
            }
        }
        k += 1;
    }
    proof {
        assert forall|a: u64, b: u64| accepted(rows@, a, b, tn, td)
            implies pairs@.contains((a, b)) by {
            lemma_count_ab_exists(rows@, Some(a), Some(b));
            let j = choose|j: int|
                0 <= j < rows@.len() && rows@[j].cell_a == Some(a) && rows@[j].cell_b == Some(b);
            assert(pair_row_done(rows@, j, pairs@, tn, td));
        }
    }
    pairs
}

/// Row `j` raises no objection to calling the right cell `b` new.
pub open spec fn new_row_ok(u: Seq<URow>, j: int, b: u64) -> bool {
    u[j].cell_b == Some(b) ==> iou_ge(u, None, Some(b), u[j].cell_a, Some(b))
}

/// Decides whether the right cell `b` is new.
pub fn is_new_exec(rows: &Vec<URow>, b: u64) -> (r: bool)
    requires
        rows@.len() <= 0x1000_0000_0000_0000,
    ensures
        r == is_new(rows@, b),
{
    let s0 = count_pair(rows, None, Some(b));
    if s0 == 0 {
        return false;
    }
    let n = rows.len();
    let mut k: usize = 0;
    while k < n
        invariant
            0 <= k <= n,
            n == rows@.len(),
            rows@.len() <= 0x1000_0000_0000_0000,
            count_ab(rows@, None, Some(b)) > 0,
            forall|j: int| 0 <= j < k ==> new_row_ok(rows@, j, b),
        decreases n - k,
    {
        let row = rows[k];
        if opt_eq(row.cell_b, Some(b)) {
            if !iou_ge_exec(rows, None, Some(b), row.cell_a, Some(b)) {
                assert(count_ab(rows@, row.cell_a, Some(b)) > 0) by {
                    lemma_count_ab_exists(rows@, row.cell_a, Some(b));
                    assert(rows@[k as int].cell_a == row.cell_a
                        && rows@[k as int].cell_b == Some(b));
                }
                assert(!is_new(rows@, b));
                return false;
            }
        }
        assert(new_row_ok(rows@, k as int, b));
        k += 1;
    }
    proof {
        assert forall|ca: Option<u64>| #[trigger] count_ab(rows@, ca, Some(b)) > 0
            implies iou_ge(rows@, None, Some(b), ca, Some(b)) by {
            lemma_count_ab_exists(rows@, ca, Some(b));
            let j = choose|j: int|
                0 <= j < rows@.len() && rows@[j].cell_a == ca && rows@[j].cell_b == Some(b);
            assert(new_row_ok(rows@, j, b));
        }
    }
    true
}

/// The right cell row `j` carries, if any, has been recorded when new.
pub open spec fn new_row_done(u: Seq<URow>, j: int, cells: Seq<u64>) -> bool {
    match u[j].cell_b {
        Some(y) => is_new(u, y) ==> cells.contains(y),
        None => true,
    }
}

/// Collects every new right cell, once each.
pub fn find_new_cells(rows: &Vec<URow>) -> (cells: Vec<u64>)
    requires
        rows@.len() <= 0x1000_0000_0000_0000,
    ensures
        forall|b: u64| cells@.contains(b) <==> is_new(rows@, b),
        forall|i: int, j: int| 0 <= i < j < cells@.len() ==> cells@[i] != cells@[j],
{
    let mut cells: Vec<u64> = Vec::new();
    let n = rows.len();
    let mut k: usize = 0;
    while k < n
        invariant
            0 <= k <= n,
            n == rows@.len(),
            rows@.len() <= 0x1000_0000_0000_0000,
            forall|b: u64| cells@.contains(b) ==> is_new(rows@, b),
            forall|i: int, j: int| 0 <= i < j < cells@.len() ==> cells@[i] != cells@[j],
            forall|j: int| 0 <= j < k ==> new_row_done(rows@, j, cells@),
        decreases n - k,
    {
        let row = rows[k];
        if let Some(y) = row.cell_b {
            if !cell_list_contains(&cells, y) {
                if is_new_exec(rows, y) {
                    let ghost old_cells = cells@;
                    cells.push(y);
                    proof {
                        assert forall|b: u64| cells@.contains(b)
                            implies is_new(rows@, b) by {
                            lemma_push_contains(old_cells, y, b);
                        }
                        assert forall|j: int| 0 <= j <= k implies new_row_done(rows@, j, cells@) by {
                            if j == k {
                                lemma_push_contains(old_cells, y, y);
                                assert(cells@.contains(y));
                            } else {
                                assert(new_row_done(rows@, j, old_cells));
                                if let Some(y2) = rows@[j].cell_b {
                                    lemma_push_contains(old_cells, y, y2);
                                }
                            }
                        }
                    }
                }
            }
        }
        k += 1;
    }
    proof {
        assert forall|b: u64| is_new(rows@, b) implies cells@.contains(b) by {
            lemma_count_ab_exists(rows@, None, Some(b));
            let j = choose|j: int|
                0 <= j < rows@.len() && rows@[j].cell_a == None::<u64>
                    && rows@[j].cell_b == Some(b);
            assert(new_row_done(rows@, j, cells@));
        }
    }
    cells
}

} // verus!
