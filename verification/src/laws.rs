use vstd::prelude::*;
use crate::merger::merge_post;
use crate::outer::{extra_keys, keys_of, lemma_extra_keys_membership, ukeys, union_spec, URow};
use crate::resolver::{accepted, is_new};
use crate::scores::{count_ab, denom, iou_ge, is_cand, lemma_count_ab_exists};
use crate::table::{
    distinct_transcripts, has_transcript, lemma_cell_of_absent, lemma_cell_of_index,
    lemma_cell_of_some, Assignment,
};
use crate::universe::{
    attach_post, attr_has, dedup_first, lemma_dedup_distinct, lemma_dedup_membership, AttrRow,
    OutRow,
};

verus! {

/// Some row of the table assigns cell `c`.
pub open spec fn has_cell(a: Seq<Assignment>, c: u64) -> bool {
    exists|i: int| 0 <= i < a.len() && a[i].cell == Some(c)
}

/// An accepted merge pair is beaten by no rival: every candidate sharing
/// its left cell or its right cell scores no higher.
pub proof fn lemma_mutual_best(u: Seq<URow>, a: u64, b: u64, x: u64, y: u64, tn: u32, td: u32)
    requires
        accepted(u, a, b, tn, td),
    ensures
        is_cand(u, x, b, tn, td) ==> iou_ge(u, Some(a), Some(b), Some(x), Some(b)),
        is_cand(u, a, y, tn, td) ==> iou_ge(u, Some(a), Some(b), Some(a), Some(y)),
{
}

/// The union of a well-formed table with itself: one row per input row,
/// carrying the row's own cell on both sides.
proof fn lemma_self_union(a: Seq<Assignment>)
    requires
        distinct_transcripts(a),
    ensures
        union_spec(a, a).len() == a.len(),
        forall|i: int| 0 <= i < a.len() ==> (#[trigger] union_spec(a, a)[i]) == (URow {
            transcript: a[i].transcript,
            cell_a: a[i].cell,
            cell_b: a[i].cell,
        }),
{
    if extra_keys(a, a).len() > 0 {
        let x = extra_keys(a, a)[0];
        assert(extra_keys(a, a).contains(x));
        lemma_extra_keys_membership(a, a, x);
    }
    assert(ukeys(a, a) =~= keys_of(a));
    assert forall|i: int| 0 <= i < a.len() implies (#[trigger] union_spec(a, a)[i]) == (URow {
        transcript: a[i].transcript,
        cell_a: a[i].cell,
        cell_b: a[i].cell,
    }) by {
        assert(ukeys(a, a)[i] == a[i].transcript);
        lemma_cell_of_index(a, i);
    }
}

/// On rows whose two cells agree, each side's total equals the shared
/// count of the diagonal pair.
proof fn lemma_diag_counts(u: Seq<URow>, c: Option<u64>)
    requires
        forall|i: int| 0 <= i < u.len() ==> (#[trigger] u[i]).cell_a == u[i].cell_b,
    ensures
        crate::scores::count_a(u, c) == count_ab(u, c, c),
        crate::scores::count_b(u, c) == count_ab(u, c, c),
    decreases u.len(),
{
    if u.len() > 0 {
        assert(forall|i: int| 0 <= i < u.drop_last().len() ==> (#[trigger] u.drop_last()[i])
            == u[i]);
        lemma_diag_counts(u.drop_last(), c);
        assert(u.last() == u[u.len() - 1]);
    }
}

/// On rows whose two cells agree, no off-diagonal pair occurs.
proof fn lemma_offdiag_zero(u: Seq<URow>, ca: Option<u64>, cb: Option<u64>)
    requires
        forall|i: int| 0 <= i < u.len() ==> (#[trigger] u[i]).cell_a == u[i].cell_b,
        ca != cb,
    ensures
        count_ab(u, ca, cb) == 0,
{
    lemma_count_ab_exists(u, ca, cb);
    if count_ab(u, ca, cb) > 0 {
        let i = choose|i: int| 0 <= i < u.len() && u[i].cell_a == ca && u[i].cell_b == cb;
        assert(u[i].cell_a == u[i].cell_b);
    }
}

/// Merging a labeling with itself changes nothing.  Every cell pairs only
/// with itself, such a pair has intersection-over-union exactly one and is
/// accepted whenever the threshold is at most one, no right cell is new,
/// and the merged table is the input, row for row.
pub proof fn lemma_self_merge(a: Seq<Assignment>, r: Seq<Assignment>, tn: u32, td: u32)
    requires
        distinct_transcripts(a),
        tn <= td,
        merge_post(a, a, r, tn, td),
    ensures
        r == a,
        forall|x: u64, y: u64| #[trigger] accepted(union_spec(a, a), x, y, tn, td) <==> (x == y
            && has_cell(a, x)),
        forall|c: u64| has_cell(a, c) ==> count_ab(union_spec(a, a), Some(c), Some(c)) == denom(
            union_spec(a, a),
            Some(c),
            Some(c),
        ),
        forall|b: u64| !is_new(union_spec(a, a), b),
{
    let u = union_spec(a, a);
    lemma_self_union(a);
    assert(forall|i: int| 0 <= i < u.len() ==> (#[trigger] u[i]).cell_a == u[i].cell_b);

    assert forall|c: u64| count_ab(u, Some(c), Some(c)) > 0 <==> has_cell(a, c) by {
        lemma_count_ab_exists(u, Some(c), Some(c));
        if count_ab(u, Some(c), Some(c)) > 0 {
            let i = choose|i: int|
                0 <= i < u.len() && u[i].cell_a == Some(c) && u[i].cell_b == Some(c);
            assert(a[i].cell == Some(c));
        }
        if has_cell(a, c) {
            let i = choose|i: int| 0 <= i < a.len() && a[i].cell == Some(c);
            assert(u[i].cell_a == Some(c) && u[i].cell_b == Some(c));
        }
    }

    assert forall|c: u64| has_cell(a, c) implies count_ab(u, Some(c), Some(c)) == denom(
        u,
        Some(c),
        Some(c),
    ) by {
        lemma_diag_counts(u, Some(c));
    }

    assert forall|x: u64, y: u64| #[trigger] accepted(u, x, y, tn, td) <==> (x == y && has_cell(
        a,
        x,
    )) by {
        if accepted(u, x, y, tn, td) {
            if x != y {
                lemma_offdiag_zero(u, Some(x), Some(y));
            }
        }
        if x == y && has_cell(a, x) {
            let s = count_ab(u, Some(x), Some(x));
            lemma_diag_counts(u, Some(x));
            assert(denom(u, Some(x), Some(x)) == s);
            assert((s as int) * (td as int) >= (tn as int) * (s as int)) by (nonlinear_arith)
                requires
                    tn <= td,
                    s >= 0,
            ;
            assert(is_cand(u, x, x, tn, td));
            assert forall|x2: u64| #[trigger] is_cand(u, x2, x, tn, td) implies iou_ge(
                u,
                Some(x),
                Some(x),
                Some(x2),
                Some(x),
            ) by {
                if x2 != x {
                    lemma_offdiag_zero(u, Some(x2), Some(x));
                }
            }
            assert forall|y2: u64| #[trigger] is_cand(u, x, y2, tn, td) implies iou_ge(
                u,
                Some(x),
                Some(x),
                Some(x),
                Some(y2),
            ) by {
                if y2 != x {
                    lemma_offdiag_zero(u, Some(x), Some(y2));
                }
            }
            assert(accepted(u, x, x, tn, td));
        }
    }

    assert forall|b: u64| !is_new(u, b) by {
        lemma_offdiag_zero(u, None, Some(b));
    }

    assert forall|i: int| 0 <= i < a.len() implies r[i] == a[i] by {
        assert(r[i].transcript == u[i].transcript);
        assert(crate::merger::merged_ok(u, u[i].cell_a, u[i].cell_b, r[i].cell, tn, td));
        let mc = r[i].cell;
        match a[i].cell {
            Some(c) => {
                assert(has_cell(a, c)) by {
                    assert(a[i].cell == Some(c));
                }
                assert(accepted(u, c, c, tn, td));
                assert(exists|x: u64| accepted(u, x, c, tn, td));
                match mc {
                    Some(m) => {
                        assert(accepted(u, m, c, tn, td));
                        assert(m == c);
                    },
                    None => {
                        assert(false);
                    },
                }
            },
            None => {
                assert(mc == u[i].cell_a);
            },
        }
    }
    assert(r =~= a);
}

/// A pairwise merge keeps each transcript of either table exactly once:
/// none is dropped and none is doubled.
pub proof fn lemma_merge_transcripts(
    a: Seq<Assignment>,
    b: Seq<Assignment>,
    r: Seq<Assignment>,
    tn: u32,
    td: u32,
)
    requires
        distinct_transcripts(a),
        distinct_transcripts(b),
        merge_post(a, b, r, tn, td),
    ensures
        distinct_transcripts(r),
        forall|t: u64| has_transcript(r, t) <==> (has_transcript(a, t) || has_transcript(b, t)),
{
    crate::outer::lemma_ukeys_distinct(a, b);
    let ks = ukeys(a, b);
    let u = union_spec(a, b);
    assert(u.len() == ks.len());
    assert(forall|i: int| 0 <= i < r.len() ==> (#[trigger] r[i]).transcript == ks[i]);
    assert forall|i: int, j: int| 0 <= i < j < r.len() implies r[i].transcript
        != r[j].transcript by {
        assert(ks[i] != ks[j]);
    }
    assert forall|t: u64| has_transcript(r, t) <==> (has_transcript(a, t) || has_transcript(
        b,
        t,
    )) by {
        if has_transcript(r, t) {
            let i = choose|i: int| 0 <= i < r.len() && r[i].transcript == t;
            if i < a.len() {
                assert(ks[i] == a[i].transcript);
            } else {
                assert(ks[i] == extra_keys(a, b)[i - a.len()]);
                assert(extra_keys(a, b).contains(t));
                lemma_extra_keys_membership(a, b, t);
            }
        }
        if has_transcript(a, t) {
            let i = choose|i: int| 0 <= i < a.len() && a[i].transcript == t;
            assert(ks[i] == t);
            assert(r[i].transcript == t);
        } else if has_transcript(b, t) {
            lemma_extra_keys_membership(a, b, t);
            let j = choose|j: int| 0 <= j < extra_keys(a, b).len() && extra_keys(a, b)[j] == t;
            assert(ks[a.len() + j] == t);
            assert(r[a.len() + j].transcript == t);
        }
    }
}

/// A merge invents no identity: every cell of a merged table is a cell of
/// one of the two inputs, or null.
pub proof fn lemma_no_invented_identity(
    a: Seq<Assignment>,
    b: Seq<Assignment>,
    r: Seq<Assignment>,
    tn: u32,
    td: u32,
)
    requires
        merge_post(a, b, r, tn, td),
    ensures
        forall|i: int| 0 <= i < r.len() ==> match (#[trigger] r[i]).cell {
            Some(c) => has_cell(a, c) || has_cell(b, c),
            None => true,
        },
{
    let u = union_spec(a, b);
    let ks = ukeys(a, b);
    assert(forall|j: int| 0 <= j < u.len() ==> (#[trigger] u[j]).cell_a == crate::table::cell_of(
        a,
        ks[j],
    ) && u[j].cell_b == crate::table::cell_of(b, ks[j]));
    assert forall|i: int| 0 <= i < r.len() implies match (#[trigger] r[i]).cell {
        Some(c) => has_cell(a, c) || has_cell(b, c),
        None => true,
    } by {
        assert(crate::merger::merged_ok(u, u[i].cell_a, u[i].cell_b, r[i].cell, tn, td));
        if let Some(c) = r[i].cell {
            match u[i].cell_b {
                None => {
                    lemma_cell_of_some(a, ks[i], c);
                },
                Some(bb) => {
                    if exists|x: u64| accepted(u, x, bb, tn, td) {
                        assert(accepted(u, c, bb, tn, td));
                        lemma_count_ab_exists(u, Some(c), Some(bb));
                        let j = choose|j: int|
                            0 <= j < u.len() && u[j].cell_a == Some(c) && u[j].cell_b == Some(bb);
                        lemma_cell_of_some(a, ks[j], c);
                    } else if is_new(u, bb) {
                        lemma_count_ab_exists(u, None, Some(bb));
                        let j = choose|j: int|
                            0 <= j < u.len() && u[j].cell_a == None::<u64> && u[j].cell_b == Some(
                                bb,
                            );
                        lemma_cell_of_some(b, ks[j], c);
                    } else {
                        lemma_cell_of_some(a, ks[i], c);
                    }
                },
            }
        }
    }
}

/// Every transcript of the attribute rows appears exactly once in the
/// output: none is dropped and none is doubled.
pub proof fn lemma_each_transcript_once(
    attrs: Seq<AttrRow>,
    fin: Seq<Assignment>,
    out: Seq<OutRow>,
)
    requires
        attach_post(dedup_first(attrs), fin, out),
    ensures
        forall|i: int, j: int| 0 <= i < j < out.len() ==> out[i].transcript != out[j].transcript,
        forall|t: u64| (exists|i: int| 0 <= i < out.len() && (#[trigger] out[i]).transcript == t)
            <==> attr_has(attrs, t),
{
    lemma_dedup_distinct(attrs);
    let uni = dedup_first(attrs);
    assert forall|i: int, j: int| 0 <= i < j < out.len() implies out[i].transcript
        != out[j].transcript by {
        assert(out[i].transcript == uni[i].transcript);
        assert(out[j].transcript == uni[j].transcript);
    }
    assert forall|t: u64| (exists|i: int|
        0 <= i < out.len() && (#[trigger] out[i]).transcript == t) <==> attr_has(attrs, t) by {
        lemma_dedup_membership(attrs, t);
        if exists|i: int| 0 <= i < out.len() && out[i].transcript == t {
            let i = choose|i: int| 0 <= i < out.len() && out[i].transcript == t;
            assert(uni[i].transcript == t);
        }
        if attr_has(uni, t) {
            let i = choose|i: int| 0 <= i < uni.len() && uni[i].transcript == t;
            assert(out[i].transcript == t);
        }
    }
}

/// A transcript the final table does not assign keeps a null cell in the
/// output, while its attributes stand.
pub proof fn lemma_unassigned_is_null(
    uni: Seq<AttrRow>,
    fin: Seq<Assignment>,
    out: Seq<OutRow>,
    i: int,
)
    requires
        attach_post(uni, fin, out),
        0 <= i < uni.len(),
        !has_transcript(fin, uni[i].transcript),
    ensures
        out[i].cell is None,
{
    lemma_cell_of_absent(fin, uni[i].transcript);
}

} // verus!
