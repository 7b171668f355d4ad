use vstd::prelude::*;

verus! {

/// One labeling fact: a transcript and the cell, if any, that one input
/// assigned to it.  A table of these is the per-input state.
#[derive(Clone, Copy, Debug, PartialEq, Eq)]
pub struct Assignment {
    pub transcript: u64,
    pub cell: Option<u64>,
}

/// A table is well formed when no transcript appears in two rows: an input
/// assigns at most one cell per transcript.
pub open spec fn distinct_transcripts(a: Seq<Assignment>) -> bool {
    forall|i: int, j: int| 0 <= i < j < a.len() ==> a[i].transcript != a[j].transcript
}

/// The cell a table assigns to `t`: the cell of the first row carrying that
/// transcript, or `None` when no row does.  A transcript that is absent and
/// one assigned a null cell read the same, as they do after an outer join.
pub open spec fn cell_of(a: Seq<Assignment>, t: u64) -> Option<u64>
    decreases a.len(),
{
    if a.len() == 0 {
        None
    } else if a[0].transcript == t {
        a[0].cell
    } else {
        cell_of(a.drop_first(), t)
    }
}

/// Whether some row of the table carries transcript `t`.
pub open spec fn has_transcript(a: Seq<Assignment>, t: u64) -> bool {
    exists|i: int| 0 <= i < a.len() && a[i].transcript == t
}

/// A table without a row for `t` assigns it no cell.
pub proof fn lemma_cell_of_absent(a: Seq<Assignment>, t: u64)
    requires
        !has_transcript(a, t),
    ensures
        cell_of(a, t) == None::<u64>,
    decreases a.len(),
{
    if a.len() > 0 {
        assert(a[0].transcript != t);
        assert(!has_transcript(a.drop_first(), t)) by {
            if has_transcript(a.drop_first(), t) {
                let i = choose|i: int| 0 <= i < a.drop_first().len() && a.drop_first()[i].transcript == t;
                assert(a[i + 1].transcript == t);
            }
        }
        lemma_cell_of_absent(a.drop_first(), t);
    }
}

/// In a well-formed table, looking a row's own transcript up returns that
/// row's cell.
pub proof fn lemma_cell_of_index(a: Seq<Assignment>, i: int)
    requires
        distinct_transcripts(a),
        0 <= i < a.len(),
    ensures
        cell_of(a, a[i].transcript) == a[i].cell,
        has_transcript(a, a[i].transcript),
    decreases i,
{
    if a[0].transcript == a[i].transcript {
        assert(i == 0);
    } else {
        assert(distinct_transcripts(a.drop_first())) by {
            assert forall|p: int, q: int| 0 <= p < q < a.drop_first().len()
                implies a.drop_first()[p].transcript != a.drop_first()[q].transcript by {
                assert(a.drop_first()[p] == a[p + 1]);
                assert(a.drop_first()[q] == a[q + 1]);
            }
        }
        assert(a.drop_first()[i - 1] == a[i]);
        lemma_cell_of_index(a.drop_first(), i - 1);
    }
}

/// A cell that a lookup returns is a cell of some row.
pub proof fn lemma_cell_of_some(a: Seq<Assignment>, t: u64, c: u64)
    requires
        cell_of(a, t) == Some(c),
    ensures
        exists|i: int| 0 <= i < a.len() && (#[trigger] a[i]).cell == Some(c),
    decreases a.len(),
{
    if a.len() > 0 {
        if a[0].transcript == t {
            assert(a[0].cell == Some(c));
        } else {
            lemma_cell_of_some(a.drop_first(), t, c);
            let i = choose|i: int| 0 <= i < a.drop_first().len() && a.drop_first()[i].cell
                == Some(c);
            assert(a[i + 1].cell == Some(c));
        }
    }
}

/// `Option<u64>` equality, decided in code and reflected to the spec level.
pub fn opt_eq(x: Option<u64>, y: Option<u64>) -> (r: bool)
    ensures
        r == (x == y),
{
    match (x, y) {
        (None, None) => true,
        (Some(xv), Some(yv)) => xv == yv,
        _ => false,
    }
}

/// Looks transcript `t` up in a table by scanning; the result is `cell_of`.
pub fn lookup(a: &Vec<Assignment>, t: u64) -> (r: Option<u64>)
    ensures
        r == cell_of(a@, t),
{
    let n = a.len();
    let mut i: usize = 0;
    assert(a@.skip(0) =~= a@);
    while i < n
        invariant
            0 <= i <= n,
            n == a@.len(),
            cell_of(a@, t) == cell_of(a@.skip(i as int), t),
        decreases n - i,
    {
        assert(a@.skip(i as int)[0] == a@[i as int]);
        if a[i].transcript == t {
            return a[i].cell;
        }
        assert(a@.skip(i as int).drop_first() =~= a@.skip(i as int + 1));
        i += 1;
    }
    assert(a@.skip(n as int) =~= Seq::<Assignment>::empty());
    None
}

/// Whether the table carries transcript `t`, by scanning.
pub fn contains_transcript(a: &Vec<Assignment>, t: u64) -> (r: bool)
    ensures
        r == has_transcript(a@, t),
{
    let n = a.len();
    let mut i: usize = 0;
    while i < n
        invariant
            0 <= i <= n,
            n == a@.len(),
            forall|j: int| 0 <= j < i ==> a@[j].transcript != t,
        decreases n - i,
    {
        if a[i].transcript == t {
            return true;
        }
        i += 1;
    }
    false
}

} // verus!
