use vstd::prelude::*;
use crate::outer::{
    distinct_seq, lemma_ukeys_distinct, outer_union, ukeys, union_spec, URow,
};
use crate::resolver::{
    accepted, cell_list_contains, find_cells_to_merge, find_new_cells, is_new,
};
use crate::table::{distinct_transcripts, Assignment};

verus! {

/// The partner chosen for right cell `b` from a pair list: the least left
/// cell among the pairs that carry `b`, or `None` when no pair does.
pub open spec fn partner_in(pairs: Seq<(u64, u64)>, b: u64) -> Option<u64>
    decreases pairs.len(),
{
    if pairs.len() == 0 {
        None
    } else {
        let rest = partner_in(pairs.drop_last(), b);
        if pairs.last().1 == b {
            match rest {
                None => Some(pairs.last().0),
                Some(m) => if pairs.last().0 < m {
                    Some(pairs.last().0)
                } else {
                    Some(m)
                },
            }
        } else {
            rest
        }
    }
}

/// What `partner_in` returns: nothing when no pair carries `b`, else a pair
/// member that is least among them.
pub proof fn lemma_partner_in(pairs: Seq<(u64, u64)>, b: u64)
    ensures
        partner_in(pairs, b) is None ==> forall|j: int|
            0 <= j < pairs.len() ==> (#[trigger] pairs[j]).1 != b,
        partner_in(pairs, b) matches Some(m) ==> pairs.contains((m, b)) && forall|j: int|
            0 <= j < pairs.len() && (#[trigger] pairs[j]).1 == b ==> m <= pairs[j].0,
    decreases pairs.len(),
{
    if pairs.len() > 0 {
        let pp = pairs.drop_last();
        lemma_partner_in(pp, b);
        assert(forall|j: int| 0 <= j < pp.len() ==> pp[j] == pairs[j]);
        if let Some(mp) = partner_in(pp, b) {
            let i = choose|i: int| 0 <= i < pp.len() && pp[i] == (mp, b);
            assert(pairs[i] == (mp, b));
            assert(pairs.contains((mp, b)));
        }
        if pairs.last().1 == b {
            assert(pairs[pairs.len() - 1] == (pairs.last().0, b));
            assert(pairs.contains((pairs.last().0, b)));
        }
    }
}

/// Looks the partner of `b` up by scanning the pair list.
pub fn partner_lookup(pairs: &Vec<(u64, u64)>, b: u64) -> (r: Option<u64>)
    ensures
        r == partner_in(pairs@, b),
{
    let n = pairs.len();
    let mut r: Option<u64> = None;
    let mut i: usize = 0;
    proof {
        assert(pairs@.subrange(0, 0) =~= Seq::<(u64, u64)>::empty());
    }
    while i < n
        invariant
            0 <= i <= n,
            n == pairs@.len(),
            r == partner_in(pairs@.subrange(0, i as int), b),
        decreases n - i,
    {
        proof {
            assert(pairs@.subrange(0, i as int + 1).drop_last() =~= pairs@.subrange(0, i as int));
            assert(pairs@.subrange(0, i as int + 1).last() == pairs@[i as int]);
        }
        let p = pairs[i];
        if p.1 == b {
            r = match r {
                None => Some(p.0),
                Some(m) => if p.0 < m {
                    Some(p.0)
                } else {
                    Some(m)
                },
            };
        }
        i += 1;
    }
    proof {
        assert(pairs@.subrange(0, n as int) =~= pairs@);
    }
    r
}

/// The cell one union row resolves to, with the precedence the merge keeps:
/// an accepted merge partner first, then a new right cell, then the left
/// cell as the fallback.
pub open spec fn resolve_cell(
    row: URow,
    new_cells: Seq<u64>,
    pairs: Seq<(u64, u64)>,
) -> Option<u64> {
    match row.cell_b {
        None => row.cell_a,
        Some(b) => match partner_in(pairs, b) {
            Some(a) => Some(a),
            None => if new_cells.contains(b) {
                Some(b)
            } else {
                row.cell_a
            },
        },
    }
}

/// Applies the resolver's findings to every union row.
pub fn resolve(
    rows: &Vec<URow>,
    new_cells: &Vec<u64>,
    pairs: &Vec<(u64, u64)>,
) -> (r: Vec<Assignment>)
    ensures
        r@.len() == rows@.len(),
        forall|i: int| 0 <= i < rows@.len() ==> (#[trigger] r@[i]).transcript
            == rows@[i].transcript && r@[i].cell == resolve_cell(rows@[i], new_cells@, pairs@),
{
    let n = rows.len();
    let mut r: Vec<Assignment> = Vec::new();
    let mut i: usize = 0;
    while i < n
        invariant
            0 <= i <= n,
            n == rows@.len(),
            r@.len() == i,
            forall|j: int| 0 <= j < i ==> (#[trigger] r@[j]).transcript == rows@[j].transcript
                && r@[j].cell == resolve_cell(rows@[j], new_cells@, pairs@),
        decreases n - i,
    {
        let row = rows[i];
        let cell: Option<u64> = match row.cell_b {
            None => row.cell_a,
            Some(b) => match partner_lookup(pairs, b) {
                Some(a) => Some(a),
                None => if cell_list_contains(new_cells, b) {
                    Some(b)
                } else {
                    row.cell_a
                },
            },
        };
        r.push(Assignment { transcript: row.transcript, cell });
        i += 1;
    }
    r
}

/// What the merged cell of one union row must be.  With any accepted pair
/// for the right cell, the least accepted left cell survives; else a new
/// right cell keeps its identity; else the left cell stands, null included.
pub open spec fn merged_ok(
    u: Seq<URow>,
    ca: Option<u64>,
    cb: Option<u64>,
    mc: Option<u64>,
    tn: u32,
    td: u32,
) -> bool {
    match cb {
        None => mc == ca,
        Some(b) => if exists|x: u64| accepted(u, x, b, tn, td) {
            match mc {
                Some(m) => accepted(u, m, b, tn, td) && forall|x: u64|
                    #[trigger] accepted(u, x, b, tn, td) ==> m <= x,
                None => false,
            }
        } else if is_new(u, b) {
            mc == Some(b)
        } else {
            mc == ca
        },
    }
}

/// The whole contract of one pairwise merge: the result carries the union
/// keys in their order, and each row's cell is the resolved one.
pub open spec fn merge_post(
    a: Seq<Assignment>,
    b: Seq<Assignment>,
    r: Seq<Assignment>,
    tn: u32,
    td: u32,
) -> bool {
    let u = union_spec(a, b);
    &&& r.len() == u.len()
    &&& forall|i: int| 0 <= i < u.len() ==> (#[trigger] r[i]).transcript == u[i].transcript
        && merged_ok(u, u[i].cell_a, u[i].cell_b, r[i].cell, tn, td)
}

/// Merges two labelings: scores every cell pair, keeps mutual best matches
/// at or above the threshold `tn / td`, keeps new right cells, and lets the
/// left identity stand otherwise.
pub fn merge(a: &Vec<Assignment>, b: &Vec<Assignment>, tn: u32, td: u32) -> (r: Vec<Assignment>)
    requires
        distinct_transcripts(a@),
        distinct_transcripts(b@),
        a@.len() + b@.len() <= 0x1000_0000_0000_0000,
    ensures
        merge_post(a@, b@, r@, tn, td),
        distinct_transcripts(r@),
        r@.len() <= a@.len() + b@.len(),
{
    let rows = outer_union(a, b);
    let new_cells = find_new_cells(&rows);
    let pairs = find_cells_to_merge(&rows, tn, td);
    let r = resolve(&rows, &new_cells, &pairs);
    proof {
        let u = union_spec(a@, b@);
        assert forall|i: int| 0 <= i < u.len() implies merged_ok(
            u,
            u[i].cell_a,
            u[i].cell_b,
            r@[i].cell,
            tn,
            td,
        ) by {
            let row = u[i];
            assert(r@[i].cell == resolve_cell(row, new_cells@, pairs@));
            if let Some(bb) = row.cell_b {
                lemma_partner_in(pairs@, bb);
                match partner_in(pairs@, bb) {
                    Some(m) => {
                        assert(pairs@.contains((m, bb)));
                        assert(accepted(u, m, bb, tn, td));
                        assert forall|x: u64| #[trigger] accepted(u, x, bb, tn, td)
                            implies m <= x by {
                            assert(pairs@.contains((x, bb)));
                            let j = choose|j: int| 0 <= j < pairs@.len() && pairs@[j] == (x, bb);
                            assert(pairs@[j].1 == bb);
                        }
                    },
                    None => {
                        assert forall|x: u64| !(#[trigger] accepted(u, x, bb, tn, td)) by {
                            if accepted(u, x, bb, tn, td) {
                                assert(pairs@.contains((x, bb)));
                                let j = choose|j: int|
                                    0 <= j < pairs@.len() && pairs@[j] == (x, bb);
                                assert(pairs@[j].1 == bb);
                            }
                        }
                    },
                }
            }
        }
        lemma_ukeys_distinct(a@, b@);
        let ks = ukeys(a@, b@);
        assert forall|i: int, j: int| 0 <= i < j < r@.len()
            implies (#[trigger] r@[i]).transcript != (#[trigger] r@[j]).transcript by {
            assert(r@[i].transcript == u[i].transcript && u[i].transcript == ks[i]);
            assert(r@[j].transcript == u[j].transcript && u[j].transcript == ks[j]);
            assert(distinct_seq(ks));
        }
    }
    r
}

} // verus!
