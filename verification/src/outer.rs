use vstd::prelude::*;
use crate::table::{
    Assignment, cell_of, contains_transcript, distinct_transcripts, has_transcript,
    lemma_cell_of_absent, lemma_cell_of_index, lookup,
};

verus! {

/// One row of the full outer union of two tables, keyed by transcript: the
/// cell the left table assigns, and the cell the right table assigns.
#[derive(Clone, Copy, Debug, PartialEq, Eq)]
pub struct URow {
    pub transcript: u64,
    pub cell_a: Option<u64>,
    pub cell_b: Option<u64>,
}

/// The transcripts of a table, in row order.
pub open spec fn keys_of(a: Seq<Assignment>) -> Seq<u64> {
    a.map_values(|r: Assignment| r.transcript)
}

/// The transcripts of `b` that `a` does not carry, in `b`'s row order.
pub open spec fn extra_keys(a: Seq<Assignment>, b: Seq<Assignment>) -> Seq<u64>
    decreases b.len(),
{
    if b.len() == 0 {
        Seq::empty()
    } else if has_transcript(a, b.last().transcript) {
        extra_keys(a, b.drop_last())
    } else {
        extra_keys(a, b.drop_last()).push(b.last().transcript)
    }
}

/// Every transcript of either table, each once: `a`'s in `a`'s order, then
/// those only `b` carries, in `b`'s order.
pub open spec fn ukeys(a: Seq<Assignment>, b: Seq<Assignment>) -> Seq<u64> {
    keys_of(a) + extra_keys(a, b)
}

/// The union row for transcript `t`.
pub open spec fn urow_for(a: Seq<Assignment>, b: Seq<Assignment>, t: u64) -> URow {
    URow { transcript: t, cell_a: cell_of(a, t), cell_b: cell_of(b, t) }
}

/// The union rows for a given key sequence.
pub open spec fn rows_for(a: Seq<Assignment>, b: Seq<Assignment>, ks: Seq<u64>) -> Seq<URow> {
    ks.map_values(|t: u64| urow_for(a, b, t))
}

/// The full outer union of two tables: one row per transcript of either,
/// carrying the cell each side assigns it.
pub open spec fn union_spec(a: Seq<Assignment>, b: Seq<Assignment>) -> Seq<URow> {
    rows_for(a, b, ukeys(a, b))
}

/// No value appears twice in the sequence.
pub open spec fn distinct_seq(s: Seq<u64>) -> bool {
    forall|i: int, j: int| 0 <= i < j < s.len() ==> s[i] != s[j]
}

/// `extra_keys` holds exactly the transcripts `b` has and `a` lacks.
pub proof fn lemma_extra_keys_membership(a: Seq<Assignment>, b: Seq<Assignment>, t: u64)
    ensures
        extra_keys(a, b).contains(t) <==> (has_transcript(b, t) && !has_transcript(a, t)),
    decreases b.len(),
{
    if b.len() == 0 {
        assert(!has_transcript(b, t));
    } else {
        let bp = b.drop_last();
        lemma_extra_keys_membership(a, bp, t);
        assert(has_transcript(b, t) <==> (has_transcript(bp, t) || b.last().transcript == t)) by {
            if has_transcript(b, t) {
                let i = choose|i: int| 0 <= i < b.len() && b[i].transcript == t;
                if i < b.len() - 1 {
                    assert(bp[i].transcript == t);
                }
            }
            if has_transcript(bp, t) {
                let i = choose|i: int| 0 <= i < bp.len() && bp[i].transcript == t;
                assert(b[i].transcript == t);
            }
            if b.last().transcript == t {
                assert(b[b.len() - 1].transcript == t);
            }
        }
        let e = extra_keys(a, bp);
        if !has_transcript(a, b.last().transcript) {
            assert(extra_keys(a, b) == e.push(b.last().transcript));
            assert forall|x: u64| e.push(b.last().transcript).contains(x)
                implies (e.contains(x) || x == b.last().transcript) by {
                let i = choose|i: int| 0 <= i < e.push(b.last().transcript).len()
                    && e.push(b.last().transcript)[i] == x;
                if i < e.len() {
                    assert(e[i] == x);
                }
            }
            if e.contains(t) {
                assert(e.push(b.last().transcript)[choose|i: int| 0 <= i < e.len() && e[i] == t] == t);
            }
            if t == b.last().transcript {
                assert(e.push(t).last() == t);
            }
        }
    }
}

/// With a well-formed `b`, `extra_keys` repeats nothing.
pub proof fn lemma_extra_keys_distinct(a: Seq<Assignment>, b: Seq<Assignment>)
    requires
        distinct_transcripts(b),
    ensures
        distinct_seq(extra_keys(a, b)),
        extra_keys(a, b).len() <= b.len(),
    decreases b.len(),
{
    if b.len() > 0 {
        let bp = b.drop_last();
        assert(distinct_transcripts(bp)) by {
            assert forall|p: int, q: int| 0 <= p < q < bp.len()
                implies bp[p].transcript != bp[q].transcript by {
                assert(bp[p] == b[p]);
                assert(bp[q] == b[q]);
            }
        }
        lemma_extra_keys_distinct(a, bp);
        if !has_transcript(a, b.last().transcript) {
            let e = extra_keys(a, bp);
            assert(!e.contains(b.last().transcript)) by {
                lemma_extra_keys_membership(a, bp, b.last().transcript);
                if has_transcript(bp, b.last().transcript) {
                    let i = choose|i: int| 0 <= i < bp.len() && bp[i].transcript == b.last().transcript;
                    assert(b[i].transcript == b[b.len() - 1].transcript);
                }
            }
            assert forall|p: int, q: int| 0 <= p < q < e.push(b.last().transcript).len()
                implies e.push(b.last().transcript)[p] != e.push(b.last().transcript)[q] by {
                if q < e.len() {
                } else {
                    assert(e.push(b.last().transcript)[q] == b.last().transcript);
                    assert(e.push(b.last().transcript)[p] == e[p]);
                    assert(e.contains(e[p]));
                }
            }
        }
    }
}

/// With both tables well formed, the union keys repeat nothing.
pub proof fn lemma_ukeys_distinct(a: Seq<Assignment>, b: Seq<Assignment>)
    requires
        distinct_transcripts(a),
        distinct_transcripts(b),
    ensures
        distinct_seq(ukeys(a, b)),
        ukeys(a, b).len() <= a.len() + b.len(),
{
    lemma_extra_keys_distinct(a, b);
    let ks = ukeys(a, b);
    let na = keys_of(a).len();
    assert forall|i: int, j: int| 0 <= i < j < ks.len() implies ks[i] != ks[j] by {
        if j < na {
            assert(ks[i] == a[i].transcript && ks[j] == a[j].transcript);
        } else if i >= na {
            assert(ks[i] == extra_keys(a, b)[i - na]);
            assert(ks[j] == extra_keys(a, b)[j - na]);
        } else {
            assert(ks[i] == a[i].transcript);
            assert(ks[j] == extra_keys(a, b)[j - na]);
            assert(extra_keys(a, b).contains(ks[j]));
            lemma_extra_keys_membership(a, b, ks[j]);
            assert(has_transcript(a, ks[i]));
        }
    }
}

/// Builds the full outer union of two well-formed tables.
pub fn outer_union(a: &Vec<Assignment>, b: &Vec<Assignment>) -> (u: Vec<URow>)
    requires
        distinct_transcripts(a@),
        distinct_transcripts(b@),
    ensures
        u@ == union_spec(a@, b@),
        u@.len() <= a@.len() + b@.len(),
{
    let mut u: Vec<URow> = Vec::new();
    let n = a.len();
    let mut i: usize = 0;
    while i < n
        invariant
            0 <= i <= n,
            n == a@.len(),
            distinct_transcripts(a@),
            distinct_transcripts(b@),
            u@ == rows_for(a@, b@, keys_of(a@).subrange(0, i as int)),
        decreases n - i,
    {
        let t = a[i].transcript;
        proof {
            lemma_cell_of_index(a@, i as int);
        }
        let cb = lookup(b, t);
        let row = URow { transcript: t, cell_a: a[i].cell, cell_b: cb };
        u.push(row);
        proof {
            let ksp = keys_of(a@).subrange(0, i as int);
            let ks = keys_of(a@).subrange(0, i as int + 1);
            assert(ks =~= ksp.push(t));
            assert(rows_for(a@, b@, ks) =~= rows_for(a@, b@, ksp).push(urow_for(a@, b@, t)));
        }
        i += 1;
    }
    proof {
        assert(keys_of(a@).subrange(0, n as int) =~= keys_of(a@));
    }
    let m = b.len();
    let mut j: usize = 0;
    proof {
        assert(b@.subrange(0, 0) =~= Seq::<Assignment>::empty());
        assert(keys_of(a@) + extra_keys(a@, b@.subrange(0, 0)) =~= keys_of(a@));
    }
    while j < m
        invariant
            0 <= j <= m,
            m == b@.len(),
            distinct_transcripts(a@),
            distinct_transcripts(b@),
            u@ == rows_for(a@, b@, keys_of(a@) + extra_keys(a@, b@.subrange(0, j as int))),
            u@.len() <= a@.len() + j,
        decreases m - j,
    {
        let t = b[j].transcript;
        proof {
            assert(b@.subrange(0, j as int + 1) =~= b@.subrange(0, j as int).push(b@[j as int]));
            assert(b@.subrange(0, j as int + 1).drop_last() =~= b@.subrange(0, j as int));
        }
        if !contains_transcript(a, t) {
            proof {
                lemma_cell_of_absent(a@, t);
                lemma_cell_of_index(b@, j as int);
            }
            let row = URow { transcript: t, cell_a: None, cell_b: b[j].cell };
            u.push(row);
            proof {
                let ksp = keys_of(a@) + extra_keys(a@, b@.subrange(0, j as int));
                let ks = keys_of(a@) + extra_keys(a@, b@.subrange(0, j as int + 1));
                assert(ks =~= ksp.push(t));
                assert(rows_for(a@, b@, ks) =~= rows_for(a@, b@, ksp).push(urow_for(a@, b@, t)));
            }
        } else {
            proof {
                let ksp = keys_of(a@) + extra_keys(a@, b@.subrange(0, j as int));
                let ks = keys_of(a@) + extra_keys(a@, b@.subrange(0, j as int + 1));
                assert(ks =~= ksp);
                assert(rows_for(a@, b@, ks) =~= rows_for(a@, b@, ksp));
            }
        }
        j += 1;
    }
    proof {
        assert(b@.subrange(0, m as int) =~= b@);
        lemma_ukeys_distinct(a@, b@);
    }
    u
}

} // verus!
